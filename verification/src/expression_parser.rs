//! The operator folding of the expression data model's parser: the parser puts the
//! tokens and sub-expressions of an expression on a stack, and `stack_to_expression`
//! folds that stack into one expression tree, operator by operator, by priority.

use vstd::prelude::*;
use vstd::string::*;

verus! {

/// The operators of the expression language.
#[derive(Clone, Copy, Debug, PartialEq, Eq)]
pub enum Operator {
    Not,
    And,
    Multiply,
    Divide,
    Modulus,
    Or,
    Plus,
    Minus,
    Less,
    LessEqual,
    Greater,
    GreaterEqual,
    Equal,
    NotEqual,
    Assign,
    AssignUndefined,
}

/// The priority of an operator: the smaller, the tighter it binds.
pub open spec fn priority(op: Operator) -> u8 {
    match op {
        Operator::Not => 3,
        Operator::And | Operator::Multiply | Operator::Divide | Operator::Modulus => 5,
        Operator::Or | Operator::Plus | Operator::Minus => 6,
        Operator::Less | Operator::LessEqual | Operator::Greater | Operator::GreaterEqual => 9,
        Operator::Equal | Operator::NotEqual => 10,
        Operator::Assign | Operator::AssignUndefined => 16,
    }
}

/// The priority of a '.' (member access or member call): tighter than every operator.
pub open spec fn member_priority() -> u8 {
    2
}

/// The priority of a stack without operator or '.'.
pub open spec fn no_priority() -> u8 {
    0xff
}

/// A constant of an expression.
#[derive(Debug, PartialEq)]
pub enum Literal {
    Null,
    Boolean(bool),
    Integer(i64),
    /// A floating-point number, as its text.
    Double(String),
    Text(String),
}

/// A parsed expression.
#[derive(Debug, PartialEq)]
pub enum ExprTree {
    Constant(Literal),
    Variable(String),
    /// A call of the action named by the text, with its arguments.
    Method(String, ExprList),
    /// A binary operator other than the assignments.
    Operation(Operator, Box<ExprTree>, Box<ExprTree>),
    /// `left = right`.
    Assign(Box<ExprTree>, Box<ExprTree>),
    /// `left ?= right`.
    AssignUndefined(Box<ExprTree>, Box<ExprTree>),
    Not(Box<ExprTree>),
    /// The field named by the text of the value of the expression.
    MemberAccess(Box<ExprTree>, String),
    /// `value[index]`.
    Index(Box<ExprTree>, Box<ExprTree>),
    /// `[e1, e2, ..]`.
    Array(ExprList),
    /// `{k1: v1, k2: v2, ..}`.
    Members(PairList),
    /// Expressions separated by ';', evaluated in order.
    Sequence(ExprList),
}

/// The members of a map expression: key and value, in order.
#[derive(Debug, PartialEq)]
pub enum PairList {
    Nil,
    Cons(Box<ExprTree>, Box<ExprTree>, Box<PairList>),
}

/// A list of expressions (the arguments of a call).
#[derive(Debug, PartialEq)]
pub enum ExprList {
    Nil,
    Cons(Box<ExprTree>, Box<ExprList>),
}

/// An item of the parser stack: a token not yet folded, or an expression.
#[derive(Debug)]
pub enum StackItem {
    Identifier(String),
    Op(Operator),
    /// The separator '.'.
    Dot,
    Expr(ExprTree),
}

/// Why folding the stack failed.
#[derive(Debug, PartialEq)]
pub enum ParseError {
    /// The operator has no operand where it needs one.
    AtOperator(Operator),
    /// A '.' has no value on its left or no field or call on its right.
    AtMember,
    Failed,
    /// A bracket where none may stand.
    Unexpected(char),
    /// The operator stack held more than one expression at its end.
    Unevaluated,
    /// An index `[..]` with other than one argument.
    IndexArguments,
    /// A '[' right after a '.'.
    InternalAt(char),
    /// An argument list with an empty argument after the first.
    ArgumentList,
    /// A member list with an empty key after the first.
    MemberList,
    /// A member key without value.
    MissingValue,
    /// The input ended before the closing bracket.
    Missing(char),
    /// The lexer reported an error.
    Lexer(String),
}

/// An identifier on the stack names a variable.
pub open spec fn resolved(it: StackItem) -> StackItem {
    match it {
        StackItem::Identifier(id) => StackItem::Expr(ExprTree::Variable(id)),
        _ => it,
    }
}

/// The stack with its identifiers read as variables.
pub open spec fn resolved_all(s: Seq<StackItem>) -> Seq<StackItem> {
    s.map_values(|it: StackItem| resolved(it))
}

/// The item that the first `n` items of `s` fold first, with its priority: the operator
/// with the smallest priority, the rightmost of those; a '.' before any operator, the
/// leftmost '.' first. `no_priority()` where there is neither.
pub open spec fn fold_point(s: Seq<StackItem>, n: nat) -> (int, u8)
    decreases n,
{
    if n == 0 || n > s.len() {
        (0, no_priority())
    } else {
        let (i, p) = fold_point(s, (n - 1) as nat);
        match s[n - 1] {
            StackItem::Dot => if member_priority() < p {
                (n - 1, member_priority())
            } else {
                (i, p)
            },
            StackItem::Op(op) => if priority(op) <= p {
                (n - 1, priority(op))
            } else {
                (i, p)
            },
            _ => (i, p),
        }
    }
}

/// The fold point lies among the first `n` items, and is an operator or a '.'.
pub proof fn lemma_fold_point(s: Seq<StackItem>, n: nat)
    requires
        n <= s.len(),
    ensures
        fold_point(s, n).1 != no_priority() ==> {
            let i = fold_point(s, n).0;
            &&& 0 <= i < n
            &&& (s[i] is Dot || s[i] is Op)
        },
    decreases n,
{
    if n > 0 {
        lemma_fold_point(s, (n - 1) as nat);
    }
}

/// The expression that a binary operator makes of its operands.
pub open spec fn combined(op: Operator, l: ExprTree, r: ExprTree) -> ExprTree {
    match op {
        Operator::Assign => ExprTree::Assign(Box::new(l), Box::new(r)),
        Operator::AssignUndefined => ExprTree::AssignUndefined(Box::new(l), Box::new(r)),
        _ => ExprTree::Operation(op, Box::new(l), Box::new(r)),
    }
}

/// `s` without the items `i - 1`, `i` and `i + 1`.
pub open spec fn without_three(s: Seq<StackItem>, i: int) -> Seq<StackItem> {
    s.take(i - 1) + s.skip(i + 2)
}

/// Folding the stack `s`: the expression it gives (`None` for an empty stack) or the
/// error, and the stack that is left. Identifiers become variables; then the item at the
/// fold point is folded with its neighbours into one expression, and folding goes on,
/// until no operator and no '.' is left; the first item is then the expression.
pub open spec fn fold_stack(s: Seq<StackItem>) -> (Result<Option<ExprTree>, ParseError>, Seq<
    StackItem,
>)
    decreases s.len(),
{
    if s.len() == 0 {
        (Ok(None), s)
    } else {
        let c = resolved_all(s);
        let (i, p) = fold_point(c, c.len());
        proof {
            lemma_fold_point(c, c.len());
        }
        if p == no_priority() {
            match c[0] {
                StackItem::Expr(e) => (Ok(Some(e)), c.drop_first()),
                _ => (Err(ParseError::Failed), c.drop_first()),
            }
        } else {
            match c[i] {
                StackItem::Op(Operator::Not) => if i + 1 < c.len() {
                    let rest = c.remove(i).remove(i);
                    match c[i + 1] {
                        StackItem::Expr(e) => fold_stack(
                            rest.insert(i, StackItem::Expr(ExprTree::Not(Box::new(e)))),
                        ),
                        _ => (Err(ParseError::AtOperator(Operator::Not)), rest),
                    }
                } else {
                    (Err(ParseError::AtOperator(Operator::Not)), c)
                },
                StackItem::Op(op) => if 0 < i && i + 1 < c.len() {
                    let rest = without_three(c, i);
                    match (c[i - 1], c[i + 1]) {
                        (StackItem::Expr(l), StackItem::Expr(r)) => fold_stack(
                            rest.insert(i - 1, StackItem::Expr(combined(op, l, r))),
                        ),
                        _ => (Err(ParseError::AtOperator(op)), rest),
                    }
                } else {
                    (Err(ParseError::AtOperator(op)), c)
                },
                StackItem::Dot => if 0 < i && i + 1 < c.len() {
                    let rest = without_three(c, i);
                    match (c[i - 1], c[i + 1]) {
                        (StackItem::Expr(l), StackItem::Expr(ExprTree::Variable(name))) => fold_stack(
                            rest.insert(i - 1, StackItem::Expr(ExprTree::MemberAccess(Box::new(l), name))),
                        ),
                        (StackItem::Expr(l), StackItem::Expr(ExprTree::Method(name, args))) => fold_stack(
                            rest.insert(
                                i - 1,
                                StackItem::Expr(
                                    ExprTree::Method(name, ExprList::Cons(Box::new(l), Box::new(args))),
                                ),
                            ),
                        ),
                        _ => (Err(ParseError::AtMember), rest),
                    }
                } else {
                    (Err(ParseError::AtMember), c)
                },
                _ => (Err(ParseError::Failed), c),
            }
        }
    }
}

/// The name of an operator, as error messages give it.
pub open spec fn operator_name(op: Operator) -> Seq<char> {
    match op {
        Operator::Not => "Not"@,
        Operator::And => "And"@,
        Operator::Multiply => "Multiply"@,
        Operator::Divide => "Divide"@,
        Operator::Modulus => "Modulus"@,
        Operator::Or => "Or"@,
        Operator::Plus => "Plus"@,
        Operator::Minus => "Minus"@,
        Operator::Less => "Less"@,
        Operator::LessEqual => "LessEqual"@,
        Operator::Greater => "Greater"@,
        Operator::GreaterEqual => "GreaterEqual"@,
        Operator::Equal => "Equal"@,
        Operator::NotEqual => "NotEqual"@,
        Operator::Assign => "Assign"@,
        Operator::AssignUndefined => "AssignUndefined"@,
    }
}

/// The message of a parse error.
pub open spec fn error_text(e: ParseError) -> Seq<char> {
    match e {
        ParseError::AtOperator(op) => "Failed to parse at operator '"@ + operator_name(op) + "'"@,
        ParseError::AtMember => "Failed to parse at '.'"@,
        ParseError::Failed => "Failed to parse"@,
        ParseError::Unexpected(c) => "Unexpected '"@ + char_text(c) + "'"@,
        ParseError::Unevaluated => "Failed to evaluate expression"@,
        ParseError::IndexArguments => "index operator '[]' allows only one argument"@,
        ParseError::InternalAt(c) => "Internal Error at '"@ + char_text(c) + "'"@,
        ParseError::ArgumentList => "Error in argument list"@,
        ParseError::MemberList => "Error in member list"@,
        ParseError::MissingValue => "Missing value expression in member list"@,
        ParseError::Missing(c) => "Missing '"@ + char_text(c) + "'"@,
        ParseError::Lexer(m) => m@,
    }
}

/// The text of a bracket or separator character in a message; "?" for any other.
pub open spec fn char_text(c: char) -> Seq<char> {
    if c == '(' {
        "("@
    } else if c == ')' {
        ")"@
    } else if c == '[' {
        "["@
    } else if c == ']' {
        "]"@
    } else if c == '{' {
        "{"@
    } else if c == '}' {
        "}"@
    } else if c == ',' {
        ","@
    } else if c == ':' {
        ":"@
    } else {
        "?"@
    }
}

/// The text of a bracket or separator character in a message.
fn char_str(c: char) -> (r: &'static str)
    ensures
        r@ == char_text(c),
{
    if c == '(' {
        "("
    } else if c == ')' {
        ")"
    } else if c == '[' {
        "["
    } else if c == ']' {
        "]"
    } else if c == '{' {
        "{"
    } else if c == '}' {
        "}"
    } else if c == ',' {
        ","
    } else if c == ':' {
        ":"
    } else {
        "?"
    }
}

/// `prefix`, the text of `c` and "'".
fn quoted(prefix: &str, c: char) -> (r: String)
    ensures
        r@ == prefix@ + char_text(c) + "'"@,
{
    let mut m = String::from_str(prefix);
    m.append(char_str(c));
    m.append("'");
    m
}

/// A token of an expression, as the lexer gives it. Past the last token the input has
/// ended.
#[derive(Debug)]
pub enum Token {
    Null,
    Text(String),
    Boolean(bool),
    Integer(i64),
    /// A floating-point number, as its text.
    Double(String),
    Identifier(String),
    Operator(Operator),
    /// One of '(', ')', '[', ']', '{', '}'.
    Bracket(char),
    /// A separator such as ',', ':' or '.'.
    Separator(char),
    /// The ';' between two expressions of a sequence.
    ExpressionSeparator,
    /// A text the lexer could not read, with its message.
    Error(String),
}

/// The list of the expressions of `s`, in order.
pub open spec fn list_of(s: Seq<ExprTree>) -> ExprList
    decreases s.len(),
{
    if s.len() == 0 {
        ExprList::Nil
    } else {
        ExprList::Cons(Box::new(s[0]), Box::new(list_of(s.drop_first())))
    }
}

/// The list of the key-value pairs of `s`, in order.
pub open spec fn pairs_of(s: Seq<(ExprTree, ExprTree)>) -> PairList
    decreases s.len(),
{
    if s.len() == 0 {
        PairList::Nil
    } else {
        PairList::Cons(Box::new(s[0].0), Box::new(s[0].1), Box::new(pairs_of(s.drop_first())))
    }
}

/// The stack with the expression `e` on top, where there is one.
pub open spec fn push_some(stack: Seq<StackItem>, e: Option<ExprTree>) -> Seq<StackItem> {
    match e {
        Some(x) => stack.push(StackItem::Expr(x)),
        None => stack,
    }
}

/// The end of a sub-expression: the stack is folded into one more expression of the
/// sequence `exprs`; the result is no expression, the one expression, or the sequence.
pub open spec fn finish(stack: Seq<StackItem>, exprs: Seq<ExprTree>, pos: int, stop: char) -> Result<
    (int, char, Option<ExprTree>),
    ParseError,
> {
    let (r, rest) = fold_stack(stack);
    match r {
        Err(e) => Err(e),
        Ok(o) => {
            let all = match o {
                Some(x) => exprs.push(x),
                None => exprs,
            };
            if rest.len() > 0 {
                Err(ParseError::Unevaluated)
            } else if all.len() == 0 {
                Ok((pos, stop, None))
            } else if all.len() == 1 {
                Ok((pos, stop, Some(all[0])))
            } else {
                Ok((pos, stop, Some(ExprTree::Sequence(list_of(all)))))
            }
        },
    }
}

/// The constant that a token stands for, if it stands for one.
pub open spec fn constant_of(t: Token) -> Option<ExprTree> {
    match t {
        Token::Null => Some(ExprTree::Constant(Literal::Null)),
        Token::Text(x) => Some(ExprTree::Constant(Literal::Text(x))),
        Token::Boolean(b) => Some(ExprTree::Constant(Literal::Boolean(b))),
        Token::Integer(i) => Some(ExprTree::Constant(Literal::Integer(i))),
        Token::Double(x) => Some(ExprTree::Constant(Literal::Double(x))),
        _ => None,
    }
}

/// Parsing a sub-expression from the token at `pos` on, with the operator stack `stack`
/// and the expressions `exprs` of the sequence read so far, until the input ends or one of
/// the characters `stops` comes as a separator or bracket. The result is the position
/// after the last token read, the stop character ('\0' at the end of the input) and the
/// expression. Constants, identifiers, operators and '.' go on the stack; a '(' reads a
/// bracketed sub-expression or, after an identifier, the arguments of a call; a '[' an
/// array or, after a value, an index; a '{' a map; a ';' folds the stack into the next
/// expression of a sequence; at the end the stack is folded.
pub open spec fn sub_expression_from(
    toks: Seq<Token>,
    pos: int,
    stops: Seq<char>,
    stack: Seq<StackItem>,
    exprs: Seq<ExprTree>,
) -> Result<(int, char, Option<ExprTree>), ParseError>
    decreases toks.len() - pos, 1int,
{
    if pos < 0 || pos >= toks.len() {
        finish(stack, exprs, pos, '\0')
    } else {
        let p1 = pos + 1;
        match toks[pos] {
            Token::Error(m) => Err(ParseError::Lexer(m)),
            Token::Identifier(id) => sub_expression_from(
                toks,
                p1,
                stops,
                stack.push(StackItem::Identifier(id)),
                exprs,
            ),
            Token::Operator(op) => sub_expression_from(toks, p1, stops, stack.push(StackItem::Op(op)), exprs),
            Token::Separator(c) => if stops.contains(c) {
                finish(stack, exprs, p1, c)
            } else if c == '.' {
                sub_expression_from(toks, p1, stops, stack.push(StackItem::Dot), exprs)
            } else {
                sub_expression_from(toks, p1, stops, stack, exprs)
            },
            Token::ExpressionSeparator => {
                let (r, rest) = fold_stack(stack);
                match r {
                    Err(e) => Err(e),
                    Ok(o) => if rest.len() > 0 {
                        Err(ParseError::Unevaluated)
                    } else {
                        sub_expression_from(
                            toks,
                            p1,
                            stops,
                            rest,
                            match o {
                                Some(x) => exprs.push(x),
                                None => exprs,
                            },
                        )
                    },
                }
            },
            Token::Bracket(b) => bracket_step(toks, pos, stops, stack, exprs, b),
            _ => match constant_of(toks[pos]) {
                Some(x) => sub_expression_from(toks, p1, stops, stack.push(StackItem::Expr(x)), exprs),
                None => Err(ParseError::Failed),
            },
        }
    }
}

/// Whether parsing goes on at `p` after a nested parse that began at or after `pos`.
pub open spec fn goes_on(toks: Seq<Token>, pos: int, p: int) -> bool {
    pos < p <= toks.len()
}

/// The bracket `b` at `pos` (see `sub_expression_from`).
pub open spec fn bracket_step(
    toks: Seq<Token>,
    pos: int,
    stops: Seq<char>,
    stack: Seq<StackItem>,
    exprs: Seq<ExprTree>,
    b: char,
) -> Result<(int, char, Option<ExprTree>), ParseError>
    decreases toks.len() - pos, 0int,
{
    let p1 = pos + 1;
    if pos < 0 || pos >= toks.len() {
        Err(ParseError::Failed)
    } else if b == '(' {
        if stack.len() == 0 || stack.last() is Op {
            match sub_expression_from(toks, p1, seq![')'], Seq::empty(), Seq::empty()) {
                Err(e) => Err(e),
                Ok((p2, _c, se)) => if goes_on(toks, pos, p2) {
                    sub_expression_from(toks, p2, stops, push_some(stack, se), exprs)
                } else {
                    Err(ParseError::Failed)
                },
            }
        } else {
            match stack.last() {
                StackItem::Identifier(id) => match argument_list(toks, p1, ')', Seq::empty()) {
                    Err(e) => Err(e),
                    Ok((p2, args)) => if goes_on(toks, pos, p2) {
                        sub_expression_from(
                            toks,
                            p2,
                            stops,
                            stack.drop_last().push(StackItem::Expr(ExprTree::Method(id, list_of(args)))),
                            exprs,
                        )
                    } else {
                        Err(ParseError::Failed)
                    },
                },
                _ => Err(ParseError::Unexpected('(')),
            }
        }
    } else if b == '[' {
        if stack.len() > 0 && stack.last() is Dot {
            Err(ParseError::InternalAt('['))
        } else {
            match argument_list(toks, p1, ']', Seq::empty()) {
                Err(e) => Err(e),
                Ok((p2, args)) => if !goes_on(toks, pos, p2) {
                    Err(ParseError::Failed)
                } else if stack.len() == 0 || stack.last() is Op {
                    sub_expression_from(
                        toks,
                        p2,
                        stops,
                        stack.push(StackItem::Expr(ExprTree::Array(list_of(args)))),
                        exprs,
                    )
                } else if args.len() != 1 {
                    Err(ParseError::IndexArguments)
                } else {
                    let value = match stack.last() {
                        StackItem::Identifier(id) => ExprTree::Variable(id),
                        StackItem::Expr(e) => e,
                        _ => ExprTree::Constant(Literal::Null),
                    };
                    sub_expression_from(
                        toks,
                        p2,
                        stops,
                        stack.drop_last().push(
                            StackItem::Expr(ExprTree::Index(Box::new(value), Box::new(args[0]))),
                        ),
                        exprs,
                    )
                },
            }
        }
    } else if b == '{' {
        match member_list(toks, p1, '}', Seq::empty()) {
            Err(e) => Err(e),
            Ok((p2, pairs)) => if goes_on(toks, pos, p2) {
                sub_expression_from(
                    toks,
                    p2,
                    stops,
                    stack.push(StackItem::Expr(ExprTree::Members(pairs_of(pairs)))),
                    exprs,
                )
            } else {
                Err(ParseError::Failed)
            },
        }
    } else if stops.contains(b) {
        finish(stack, exprs, p1, b)
    } else {
        Err(ParseError::Unexpected(b))
    }
}

/// An argument list from `pos` on, up to the bracket `stop`, after the arguments `acc`:
/// sub-expressions separated by ','. An empty list is allowed; an empty argument after
/// the first is not.
pub open spec fn argument_list(toks: Seq<Token>, pos: int, stop: char, acc: Seq<ExprTree>) -> Result<
    (int, Seq<ExprTree>),
    ParseError,
>
    decreases toks.len() - pos, 2int,
{
    if pos < 0 || pos > toks.len() {
        Err(ParseError::Failed)
    } else {
        match sub_expression_from(toks, pos, seq![',', stop], Seq::empty(), Seq::empty()) {
            Err(e) => Err(e),
            Ok((p2, c, e)) => match e {
                None => if acc.len() == 0 {
                    Ok((p2, acc))
                } else {
                    Err(ParseError::ArgumentList)
                },
                Some(x) => if c == stop {
                    Ok((p2, acc.push(x)))
                } else if c == '\0' {
                    Err(ParseError::Missing(stop))
                } else if goes_on(toks, pos, p2) {
                    argument_list(toks, p2, stop, acc.push(x))
                } else {
                    Err(ParseError::Failed)
                },
            },
        }
    }
}

/// A member list from `pos` on, up to the bracket `stop`, after the members `acc`: pairs
/// `key : value` separated by ','. An empty list is allowed.
pub open spec fn member_list(
    toks: Seq<Token>,
    pos: int,
    stop: char,
    acc: Seq<(ExprTree, ExprTree)>,
) -> Result<(int, Seq<(ExprTree, ExprTree)>), ParseError>
    decreases toks.len() - pos, 2int,
{
    if pos < 0 || pos > toks.len() {
        Err(ParseError::Failed)
    } else {
        match sub_expression_from(toks, pos, seq![':', stop], Seq::empty(), Seq::empty()) {
            Err(e) => Err(e),
            Ok((pk, _ck, k)) => match k {
                None => if acc.len() == 0 {
                    Ok((pk, acc))
                } else {
                    Err(ParseError::MemberList)
                },
                Some(key) => if !(pos <= pk <= toks.len()) {
                    Err(ParseError::Failed)
                } else {
                    match sub_expression_from(toks, pk, seq![',', stop], Seq::empty(), Seq::empty()) {
                        Err(e) => Err(e),
                        Ok((pv, c, v)) => match v {
                            None => Err(ParseError::MissingValue),
                            Some(val) => if c == stop {
                                Ok((pv, acc.push((key, val))))
                            } else if c == '\0' {
                                Err(ParseError::Missing(stop))
                            } else if goes_on(toks, pos, pv) {
                                member_list(toks, pv, stop, acc.push((key, val)))
                            } else {
                                Err(ParseError::Failed)
                            },
                        },
                    }
                },
            },
        }
    }
}

/// A sub-expression from `pos` on, up to one of `stops`.
pub open spec fn sub_expression(toks: Seq<Token>, pos: int, stops: Seq<char>) -> Result<
    (int, char, Option<ExprTree>),
    ParseError,
> {
    sub_expression_from(toks, pos, stops, Seq::empty(), Seq::empty())
}

/// The expression of the tokens `toks`; an input without expression fails.
pub open spec fn parsed(toks: Seq<Token>) -> Result<ExprTree, ParseError> {
    match sub_expression(toks, 0, seq!['\0']) {
        Err(e) => Err(e),
        Ok((_p, _c, None)) => Err(ParseError::Failed),
        Ok((_p, _c, Some(e))) => Ok(e),
    }
}

/// A parse result with its position as an integer.
pub open spec fn at(r: Result<(usize, char, Option<ExprTree>), ParseError>) -> Result<
    (int, char, Option<ExprTree>),
    ParseError,
> {
    match r {
        Ok((p, c, e)) => Ok((p as int, c, e)),
        Err(e) => Err(e),
    }
}

/// A list result with its position as an integer.
pub open spec fn at_list<T>(r: Result<(usize, Vec<T>), ParseError>) -> Result<(int, Seq<T>), ParseError> {
    match r {
        Ok((p, v)) => Ok((p as int, v@)),
        Err(e) => Err(e),
    }
}

/// A stack of three expressions joined by two binary operators.
pub open spec fn two_operators(a: ExprTree, op1: Operator, b: ExprTree, op2: Operator, c: ExprTree) -> Seq<StackItem> {
    seq![
        StackItem::Expr(a),
        StackItem::Op(op1),
        StackItem::Expr(b),
        StackItem::Op(op2),
        StackItem::Expr(c),
    ]
}

/// Folding `e1 op e2` where both sides are expressions.
proof fn lemma_fold_one(a: ExprTree, op: Operator, b: ExprTree)
    requires
        op != Operator::Not,
    ensures
        fold_stack(seq![StackItem::Expr(a), StackItem::Op(op), StackItem::Expr(b)]) == (
            Ok::<Option<ExprTree>, ParseError>(Some(combined(op, a, b))),
            Seq::<StackItem>::empty(),
        ),
{
    let s = seq![StackItem::Expr(a), StackItem::Op(op), StackItem::Expr(b)];
    assert(resolved_all(s) =~= s);
    reveal_with_fuel(fold_point, 4);
    assert(fold_point(s, 3) == (1int, priority(op)));
    let next = without_three(s, 1).insert(0, StackItem::Expr(combined(op, a, b)));
    assert(next =~= seq![StackItem::Expr(combined(op, a, b))]);
    assert(resolved_all(next) =~= next);
    assert(fold_point(next, 1).1 == no_priority());
    assert(next.drop_first() =~= Seq::<StackItem>::empty());
    reveal_with_fuel(fold_stack, 2);
}

/// The operator that binds tighter is folded first, on whichever side it stands: where
/// `op1` binds tighter than `op2`, `a op1 b op2 c` is `(a op1 b) op2 c` and
/// `a op2 b op1 c` is `a op2 (b op1 c)`. (So `*`, `/` and `%` bind tighter than `+` and
/// `-`, and these tighter than the comparisons and the assignments.)
pub proof fn lemma_tighter_operator_folds_first(
    a: ExprTree,
    b: ExprTree,
    c: ExprTree,
    op1: Operator,
    op2: Operator,
)
    requires
        op1 != Operator::Not,
        op2 != Operator::Not,
        priority(op1) < priority(op2),
    ensures
        fold_stack(two_operators(a, op1, b, op2, c)) == (
            Ok::<Option<ExprTree>, ParseError>(Some(combined(op2, combined(op1, a, b), c))),
            Seq::<StackItem>::empty(),
        ),
        fold_stack(two_operators(a, op2, b, op1, c)) == (
            Ok::<Option<ExprTree>, ParseError>(Some(combined(op2, a, combined(op1, b, c)))),
            Seq::<StackItem>::empty(),
        ),
{
    reveal_with_fuel(fold_point, 6);
    let s1 = two_operators(a, op1, b, op2, c);
    assert(resolved_all(s1) =~= s1);
    assert(fold_point(s1, 5) == (1int, priority(op1)));
    let n1 = without_three(s1, 1).insert(0, StackItem::Expr(combined(op1, a, b)));
    assert(n1 =~= seq![StackItem::Expr(combined(op1, a, b)), StackItem::Op(op2), StackItem::Expr(c)]);
    lemma_fold_one(combined(op1, a, b), op2, c);
    let s2 = two_operators(a, op2, b, op1, c);
    assert(resolved_all(s2) =~= s2);
    assert(fold_point(s2, 5) == (3int, priority(op1)));
    let n2 = without_three(s2, 3).insert(2, StackItem::Expr(combined(op1, b, c)));
    assert(n2 =~= seq![StackItem::Expr(a), StackItem::Op(op2), StackItem::Expr(combined(op1, b, c))]);
    lemma_fold_one(a, op2, combined(op1, b, c));
}

/// Operators of the same priority group to the right: `a op1 b op2 c` is
/// `a op1 (b op2 c)`.
pub proof fn lemma_equal_priority_groups_right(
    a: ExprTree,
    b: ExprTree,
    c: ExprTree,
    op1: Operator,
    op2: Operator,
)
    requires
        op1 != Operator::Not,
        op2 != Operator::Not,
        priority(op1) == priority(op2),
    ensures
        fold_stack(two_operators(a, op1, b, op2, c)) == (
            Ok::<Option<ExprTree>, ParseError>(Some(combined(op1, a, combined(op2, b, c)))),
            Seq::<StackItem>::empty(),
        ),
{
    reveal_with_fuel(fold_point, 6);
    let s = two_operators(a, op1, b, op2, c);
    assert(resolved_all(s) =~= s);
    assert(fold_point(s, 5) == (3int, priority(op2)));
    let n = without_three(s, 3).insert(2, StackItem::Expr(combined(op2, b, c)));
    assert(n =~= seq![StackItem::Expr(a), StackItem::Op(op1), StackItem::Expr(combined(op2, b, c))]);
    lemma_fold_one(a, op1, combined(op2, b, c));
}

/// The constant of an integer.
pub open spec fn integer_constant(v: i64) -> ExprTree {
    ExprTree::Constant(Literal::Integer(v))
}

/// The tokens of three integers joined by two operators.
pub open spec fn two_operator_tokens(a: i64, op1: Operator, b: i64, op2: Operator, c: i64) -> Seq<Token> {
    seq![
        Token::Integer(a),
        Token::Operator(op1),
        Token::Integer(b),
        Token::Operator(op2),
        Token::Integer(c),
    ]
}

/// Parsing three integers joined by two operators folds the stack that they make.
proof fn lemma_parse_two_operators(a: i64, op1: Operator, b: i64, op2: Operator, c: i64)
    ensures
        parsed(two_operator_tokens(a, op1, b, op2, c)) == match finish(
            two_operators(integer_constant(a), op1, integer_constant(b), op2, integer_constant(c)),
            Seq::empty(),
            5,
            '\0',
        ) {
            Err(e) => Err(e),
            Ok((_p, _c, None)) => Err(ParseError::Failed),
            Ok((_p, _c, Some(e))) => Ok(e),
        },
{
    let t = two_operator_tokens(a, op1, b, op2, c);
    let stops = seq!['\0'];
    let e = Seq::<ExprTree>::empty();
    let s0 = Seq::<StackItem>::empty();
    let s1 = s0.push(StackItem::Expr(integer_constant(a)));
    let s2 = s1.push(StackItem::Op(op1));
    let s3 = s2.push(StackItem::Expr(integer_constant(b)));
    let s4 = s3.push(StackItem::Op(op2));
    let s5 = s4.push(StackItem::Expr(integer_constant(c)));
    assert(s5 =~= two_operators(integer_constant(a), op1, integer_constant(b), op2, integer_constant(c)));
    assert(sub_expression_from(t, 5, stops, s5, e) == finish(s5, e, 5, '\0'));
    assert(sub_expression_from(t, 4, stops, s4, e) == sub_expression_from(t, 5, stops, s5, e));
    assert(sub_expression_from(t, 3, stops, s3, e) == sub_expression_from(t, 4, stops, s4, e));
    assert(sub_expression_from(t, 2, stops, s2, e) == sub_expression_from(t, 3, stops, s3, e));
    assert(sub_expression_from(t, 1, stops, s1, e) == sub_expression_from(t, 2, stops, s2, e));
    assert(sub_expression_from(t, 0, stops, s0, e) == sub_expression_from(t, 1, stops, s1, e));
}

/// The parser applies the operators' priorities: where `op1` binds tighter than `op2`,
/// the tokens `a op1 b op2 c` parse as `(a op1 b) op2 c` and `a op2 b op1 c` as
/// `a op2 (b op1 c)`; so "12 + 2 * 4" is 12 + (2 * 4).
pub proof fn lemma_parse_precedence(a: i64, b: i64, c: i64, op1: Operator, op2: Operator)
    requires
        op1 != Operator::Not,
        op2 != Operator::Not,
        priority(op1) < priority(op2),
    ensures
        parsed(two_operator_tokens(a, op1, b, op2, c)) == Ok::<ExprTree, ParseError>(
            combined(op2, combined(op1, integer_constant(a), integer_constant(b)), integer_constant(c)),
        ),
        parsed(two_operator_tokens(a, op2, b, op1, c)) == Ok::<ExprTree, ParseError>(
            combined(op2, integer_constant(a), combined(op1, integer_constant(b), integer_constant(c))),
        ),
{
    let (ka, kb, kc) = (integer_constant(a), integer_constant(b), integer_constant(c));
    lemma_tighter_operator_folds_first(ka, kb, kc, op1, op2);
    lemma_parse_two_operators(a, op1, b, op2, c);
    lemma_parse_two_operators(a, op2, b, op1, c);
    let e = Seq::<ExprTree>::empty();
    assert(e.push(combined(op2, combined(op1, ka, kb), kc)).len() == 1);
    assert(e.push(combined(op2, ka, combined(op1, kb, kc))).len() == 1);
}

/// The tokens `( a op2 b ) op1 c`.
pub open spec fn bracketed_tokens(a: i64, op2: Operator, b: i64, op1: Operator, c: i64) -> Seq<Token> {
    seq![
        Token::Bracket('('),
        Token::Integer(a),
        Token::Operator(op2),
        Token::Integer(b),
        Token::Bracket(')'),
        Token::Operator(op1),
        Token::Integer(c),
    ]
}

/// Brackets group what they hold, whatever the operators' priorities: the tokens
/// `( a op2 b ) op1 c` parse as `(a op2 b) op1 c`; so "(12 + 2) * 4" is (12 + 2) * 4.
pub proof fn lemma_parse_brackets(a: i64, b: i64, c: i64, op1: Operator, op2: Operator)
    requires
        op1 != Operator::Not,
        op2 != Operator::Not,
    ensures
        parsed(bracketed_tokens(a, op2, b, op1, c)) == Ok::<ExprTree, ParseError>(
            combined(op1, combined(op2, integer_constant(a), integer_constant(b)), integer_constant(c)),
        ),
{
    let t = bracketed_tokens(a, op2, b, op1, c);
    let (ka, kb, kc) = (integer_constant(a), integer_constant(b), integer_constant(c));
    let e = Seq::<ExprTree>::empty();
    let s0 = Seq::<StackItem>::empty();
    let close = seq![')'];
    let stops = seq!['\0'];
    assert(close[0] == ')');
    assert(close.contains(')'));
    let i1 = s0.push(StackItem::Expr(ka));
    let i2 = i1.push(StackItem::Op(op2));
    let i3 = i2.push(StackItem::Expr(kb));
    assert(i3 =~= seq![StackItem::Expr(ka), StackItem::Op(op2), StackItem::Expr(kb)]);
    lemma_fold_one(ka, op2, kb);
    let inner = combined(op2, ka, kb);
    assert(e.push(inner).len() == 1);
    assert(bracket_step(t, 4, close, i3, e, ')') == finish(i3, e, 5, ')'));
    assert(sub_expression_from(t, 4, close, i3, e) == finish(i3, e, 5, ')'));
    assert(sub_expression_from(t, 3, close, i2, e) == sub_expression_from(t, 4, close, i3, e));
    assert(sub_expression_from(t, 2, close, i1, e) == sub_expression_from(t, 3, close, i2, e));
    assert(sub_expression_from(t, 1, close, s0, e) == sub_expression_from(t, 2, close, i1, e));
    assert(sub_expression_from(t, 1, close, s0, e) == Ok::<(int, char, Option<ExprTree>), ParseError>(
        (5, ')', Some(inner)),
    ));
    let o1 = s0.push(StackItem::Expr(inner));
    let o2 = o1.push(StackItem::Op(op1));
    let o3 = o2.push(StackItem::Expr(kc));
    assert(o3 =~= seq![StackItem::Expr(inner), StackItem::Op(op1), StackItem::Expr(kc)]);
    lemma_fold_one(inner, op1, kc);
    assert(e.push(combined(op1, inner, kc)).len() == 1);
    assert(sub_expression_from(t, 7, stops, o3, e) == finish(o3, e, 7, '\0'));
    assert(sub_expression_from(t, 6, stops, o2, e) == sub_expression_from(t, 7, stops, o3, e));
    assert(sub_expression_from(t, 5, stops, o1, e) == sub_expression_from(t, 6, stops, o2, e));
    assert(push_some(s0, Some(inner)) == o1);
    assert(bracket_step(t, 0, stops, s0, e, '(') == sub_expression_from(t, 5, stops, o1, e));
    assert(sub_expression_from(t, 0, stops, s0, e) == bracket_step(t, 0, stops, s0, e, '('));
}

/// The tokens `! a op b`.
pub open spec fn negated_tokens(a: i64, op: Operator, b: i64) -> Seq<Token> {
    seq![Token::Operator(Operator::Not), Token::Integer(a), Token::Operator(op), Token::Integer(b)]
}

/// The unary `!` binds tighter than every binary operator: the tokens `! a op b` parse
/// as `(!a) op b`.
pub proof fn lemma_parse_not_binds_tightest(a: i64, b: i64, op: Operator)
    requires
        op != Operator::Not,
    ensures
        parsed(negated_tokens(a, op, b)) == Ok::<ExprTree, ParseError>(
            combined(op, ExprTree::Not(Box::new(integer_constant(a))), integer_constant(b)),
        ),
{
    let t = negated_tokens(a, op, b);
    let (ka, kb) = (integer_constant(a), integer_constant(b));
    let e = Seq::<ExprTree>::empty();
    let stops = seq!['\0'];
    let s0 = Seq::<StackItem>::empty();
    let s1 = s0.push(StackItem::Op(Operator::Not));
    let s2 = s1.push(StackItem::Expr(ka));
    let s3 = s2.push(StackItem::Op(op));
    let s4 = s3.push(StackItem::Expr(kb));
    let c = seq![StackItem::Op(Operator::Not), StackItem::Expr(ka), StackItem::Op(op), StackItem::Expr(kb)];
    assert(s4 =~= c);
    assert(sub_expression_from(t, 4, stops, s4, e) == finish(s4, e, 4, '\0'));
    assert(sub_expression_from(t, 3, stops, s3, e) == sub_expression_from(t, 4, stops, s4, e));
    assert(sub_expression_from(t, 2, stops, s2, e) == sub_expression_from(t, 3, stops, s3, e));
    assert(sub_expression_from(t, 1, stops, s1, e) == sub_expression_from(t, 2, stops, s2, e));
    assert(sub_expression_from(t, 0, stops, s0, e) == sub_expression_from(t, 1, stops, s1, e));
    assert(resolved_all(c) =~= c);
    reveal_with_fuel(fold_point, 5);
    assert(fold_point(c, 4) == (0int, priority(Operator::Not)));
    let nk = ExprTree::Not(Box::new(ka));
    let next = c.remove(0).remove(0).insert(0, StackItem::Expr(nk));
    assert(next =~= seq![StackItem::Expr(nk), StackItem::Op(op), StackItem::Expr(kb)]);
    lemma_fold_one(nk, op, kb);
    assert(fold_stack(c) == fold_stack(next));
    assert(e.push(combined(op, nk, kb)).len() == 1);
}

/// The tokens of four integers joined by three operators.
pub open spec fn three_operator_tokens(
    a: i64,
    op1: Operator,
    b: i64,
    op2: Operator,
    c: i64,
    op3: Operator,
    d: i64,
) -> Seq<Token> {
    seq![
        Token::Integer(a),
        Token::Operator(op1),
        Token::Integer(b),
        Token::Operator(op2),
        Token::Integer(c),
        Token::Operator(op3),
        Token::Integer(d),
    ]
}

/// A chain of operators of one priority groups to the right: the tokens
/// `a op1 b op2 c op3 d` parse as `a op1 (b op2 (c op3 d))`.
pub proof fn lemma_parse_chain_groups_right(
    a: i64,
    b: i64,
    c: i64,
    d: i64,
    op1: Operator,
    op2: Operator,
    op3: Operator,
)
    requires
        op1 != Operator::Not,
        op2 != Operator::Not,
        op3 != Operator::Not,
        priority(op1) == priority(op2),
        priority(op2) == priority(op3),
    ensures
        parsed(three_operator_tokens(a, op1, b, op2, c, op3, d)) == Ok::<ExprTree, ParseError>(
            combined(
                op1,
                integer_constant(a),
                combined(op2, integer_constant(b), combined(op3, integer_constant(c), integer_constant(d))),
            ),
        ),
{
    let t = three_operator_tokens(a, op1, b, op2, c, op3, d);
    let (ka, kb, kc, kd) = (integer_constant(a), integer_constant(b), integer_constant(c), integer_constant(d));
    let e = Seq::<ExprTree>::empty();
    let stops = seq!['\0'];
    let s0 = Seq::<StackItem>::empty();
    let s1 = s0.push(StackItem::Expr(ka));
    let s2 = s1.push(StackItem::Op(op1));
    let s3 = s2.push(StackItem::Expr(kb));
    let s4 = s3.push(StackItem::Op(op2));
    let s5 = s4.push(StackItem::Expr(kc));
    let s6 = s5.push(StackItem::Op(op3));
    let s7 = s6.push(StackItem::Expr(kd));
    assert(sub_expression_from(t, 7, stops, s7, e) == finish(s7, e, 7, '\0'));
    assert(sub_expression_from(t, 6, stops, s6, e) == sub_expression_from(t, 7, stops, s7, e));
    assert(sub_expression_from(t, 5, stops, s5, e) == sub_expression_from(t, 6, stops, s6, e));
    assert(sub_expression_from(t, 4, stops, s4, e) == sub_expression_from(t, 5, stops, s5, e));
    assert(sub_expression_from(t, 3, stops, s3, e) == sub_expression_from(t, 4, stops, s4, e));
    assert(sub_expression_from(t, 2, stops, s2, e) == sub_expression_from(t, 3, stops, s3, e));
    assert(sub_expression_from(t, 1, stops, s1, e) == sub_expression_from(t, 2, stops, s2, e));
    assert(sub_expression_from(t, 0, stops, s0, e) == sub_expression_from(t, 1, stops, s1, e));
    assert(resolved_all(s7) =~= s7);
    reveal_with_fuel(fold_point, 8);
    assert(fold_point(s7, 7) == (5int, priority(op3)));
    let cd = combined(op3, kc, kd);
    let next = without_three(s7, 5).insert(4, StackItem::Expr(cd));
    assert(next =~= two_operators(ka, op1, kb, op2, cd));
    lemma_equal_priority_groups_right(ka, kb, cd, op1, op2);
    assert(fold_stack(s7) == fold_stack(next));
    assert(e.push(combined(op1, ka, combined(op2, kb, cd))).len() == 1);
}

/// The assignments bind loosest: every operator but the assignments binds tighter than
/// `=` and `?=`, and `!` tightest of all.
pub proof fn lemma_assignments_bind_loosest(op: Operator)
    ensures
        op != Operator::Assign && op != Operator::AssignUndefined ==> priority(op) < priority(
            Operator::Assign,
        ) && priority(op) < priority(Operator::AssignUndefined),
        op != Operator::Not ==> priority(Operator::Not) < priority(op),
        priority(Operator::Assign) == priority(Operator::AssignUndefined),
{
}

/// The binding order of the operators, tightest first: `!`; then `&`, `*`, `/`, `%`;
/// then `|`, `+`, `-`; then the comparisons `<`, `<=`, `>`, `>=`; then `==`, `!=`; then
/// the assignments. Operators of one group bind alike.
pub proof fn lemma_operator_binding_order()
    ensures
        priority(Operator::Not) < priority(Operator::Multiply),
        priority(Operator::And) == priority(Operator::Multiply),
        priority(Operator::Divide) == priority(Operator::Multiply),
        priority(Operator::Modulus) == priority(Operator::Multiply),
        priority(Operator::Multiply) < priority(Operator::Plus),
        priority(Operator::Or) == priority(Operator::Plus),
        priority(Operator::Minus) == priority(Operator::Plus),
        priority(Operator::Plus) < priority(Operator::Less),
        priority(Operator::LessEqual) == priority(Operator::Less),
        priority(Operator::Greater) == priority(Operator::Less),
        priority(Operator::GreaterEqual) == priority(Operator::Less),
        priority(Operator::Less) < priority(Operator::Equal),
        priority(Operator::NotEqual) == priority(Operator::Equal),
        priority(Operator::Equal) < priority(Operator::Assign),
        priority(Operator::AssignUndefined) == priority(Operator::Assign),
{
}

/// Folding a stack reads its identifiers as variables first, so folding a stack and
/// folding it with its identifiers read give the same.
proof fn lemma_fold_resolved(s: Seq<StackItem>)
    ensures
        fold_stack(s) == fold_stack(resolved_all(s)),
{
    assert(resolved_all(resolved_all(s)) =~= resolved_all(s));
}

/// The tokens `x = a op b` (`x ?= a op b` where `undefined_only`).
pub open spec fn assignment_tokens(x: String, undefined_only: bool, a: i64, op: Operator, b: i64) -> Seq<Token> {
    seq![
        Token::Identifier(x),
        Token::Operator(
            if undefined_only {
                Operator::AssignUndefined
            } else {
                Operator::Assign
            },
        ),
        Token::Integer(a),
        Token::Operator(op),
        Token::Integer(b),
    ]
}

/// An assignment takes the whole expression on its right: for every binary operator `op`
/// but the assignments, the tokens `x = a op b` parse as `x = (a op b)`, and `x ?= a op b`
/// as `x ?= (a op b)`.
pub proof fn lemma_parse_assignment_takes_whole_right_side(
    x: String,
    undefined_only: bool,
    a: i64,
    op: Operator,
    b: i64,
)
    requires
        op != Operator::Not,
        op != Operator::Assign,
        op != Operator::AssignUndefined,
    ensures
        parsed(assignment_tokens(x, undefined_only, a, op, b)) == Ok::<ExprTree, ParseError>(
            if undefined_only {
                ExprTree::AssignUndefined(
                    Box::new(ExprTree::Variable(x)),
                    Box::new(combined(op, integer_constant(a), integer_constant(b))),
                )
            } else {
                ExprTree::Assign(
                    Box::new(ExprTree::Variable(x)),
                    Box::new(combined(op, integer_constant(a), integer_constant(b))),
                )
            },
        ),
{
    let asg = if undefined_only {
        Operator::AssignUndefined
    } else {
        Operator::Assign
    };
    let t = assignment_tokens(x, undefined_only, a, op, b);
    let (ka, kb) = (integer_constant(a), integer_constant(b));
    let vx = ExprTree::Variable(x);
    let e = Seq::<ExprTree>::empty();
    let stops = seq!['\0'];
    let s0 = Seq::<StackItem>::empty();
    let s1 = s0.push(StackItem::Identifier(x));
    let s2 = s1.push(StackItem::Op(asg));
    let s3 = s2.push(StackItem::Expr(ka));
    let s4 = s3.push(StackItem::Op(op));
    let s5 = s4.push(StackItem::Expr(kb));
    assert(sub_expression_from(t, 5, stops, s5, e) == finish(s5, e, 5, '\0'));
    assert(sub_expression_from(t, 4, stops, s4, e) == sub_expression_from(t, 5, stops, s5, e));
    assert(sub_expression_from(t, 3, stops, s3, e) == sub_expression_from(t, 4, stops, s4, e));
    assert(sub_expression_from(t, 2, stops, s2, e) == sub_expression_from(t, 3, stops, s3, e));
    assert(sub_expression_from(t, 1, stops, s1, e) == sub_expression_from(t, 2, stops, s2, e));
    assert(sub_expression_from(t, 0, stops, s0, e) == sub_expression_from(t, 1, stops, s1, e));
    assert(resolved_all(s5) =~= two_operators(vx, asg, ka, op, kb));
    lemma_fold_resolved(s5);
    lemma_tighter_operator_folds_first(vx, ka, kb, op, asg);
    assert(e.push(combined(asg, vx, combined(op, ka, kb))).len() == 1);
}

impl Operator {
    /// The name of the operator.
    pub fn name(&self) -> (r: &'static str)
        ensures
            r@ == operator_name(*self),
    {
        match self {
            Operator::Not => "Not",
            Operator::And => "And",
            Operator::Multiply => "Multiply",
            Operator::Divide => "Divide",
            Operator::Modulus => "Modulus",
            Operator::Or => "Or",
            Operator::Plus => "Plus",
            Operator::Minus => "Minus",
            Operator::Less => "Less",
            Operator::LessEqual => "LessEqual",
            Operator::Greater => "Greater",
            Operator::GreaterEqual => "GreaterEqual",
            Operator::Equal => "Equal",
            Operator::NotEqual => "NotEqual",
            Operator::Assign => "Assign",
            Operator::AssignUndefined => "AssignUndefined",
        }
    }

    /// The priority of the operator: the smaller, the tighter it binds.
    pub fn priority(&self) -> (r: u8)
        ensures
            r == priority(*self),
    {
        match self {
            Operator::Not => 3,
            Operator::And | Operator::Multiply | Operator::Divide | Operator::Modulus => 5,
            Operator::Or | Operator::Plus | Operator::Minus => 6,
            Operator::Less | Operator::LessEqual | Operator::Greater | Operator::GreaterEqual => 9,
            Operator::Equal | Operator::NotEqual => 10,
            Operator::Assign | Operator::AssignUndefined => 16,
        }
    }
}

impl ParseError {
    /// The message of the error.
    pub fn message(&self) -> (r: String)
        ensures
            r@ == error_text(*self),
    {
        match self {
            ParseError::AtOperator(op) => {
                let mut m = String::from_str("Failed to parse at operator '");
                m.append(op.name());
                m.append("'");
                m
            },
            ParseError::AtMember => String::from_str("Failed to parse at '.'"),
            ParseError::Failed => String::from_str("Failed to parse"),
            ParseError::Unexpected(c) => quoted("Unexpected '", *c),
            ParseError::Unevaluated => String::from_str("Failed to evaluate expression"),
            ParseError::IndexArguments => String::from_str("index operator '[]' allows only one argument"),
            ParseError::InternalAt(c) => quoted("Internal Error at '", *c),
            ParseError::ArgumentList => String::from_str("Error in argument list"),
            ParseError::MemberList => String::from_str("Error in member list"),
            ParseError::MissingValue => String::from_str("Missing value expression in member list"),
            ParseError::Missing(c) => quoted("Missing '", *c),
            ParseError::Lexer(m) => m.clone(),
        }
    }
}

/// Static tool struct to process expressions.
pub struct ExpressionParser {}

impl ExpressionParser {
    /// Replaces each identifier of the stack by the variable it names.
    fn resolve_identifiers(stack: &mut Vec<StackItem>)
        ensures
            final(stack)@ == resolved_all(old(stack)@),
    {
        let ghost s = stack@;
        let mut i: usize = 0;
        while i < stack.len()
            invariant
                stack@.len() == s.len(),
                i <= s.len(),
                forall|k: int| 0 <= k < i ==> stack@[k] == resolved(s[k]),
                forall|k: int| i <= k < s.len() ==> stack@[k] == s[k],
            decreases s.len() - i,
        {
            let it = stack.remove(i);
            let new_it = match it {
                StackItem::Identifier(id) => StackItem::Expr(ExprTree::Variable(id)),
                other => other,
            };
            stack.insert(i, new_it);
            i = i + 1;
        }
        assert(stack@ =~= resolved_all(s));
    }

    /// The fold point of the stack and its priority.
    fn find_fold_point(stack: &Vec<StackItem>) -> (r: (usize, u8))
        ensures
            r.0 as int == fold_point(stack@, stack@.len()).0,
            r.1 == fold_point(stack@, stack@.len()).1,
    {
        let mut best_idx: usize = 0;
        let mut best_prio: u8 = 0xff;
        let mut i: usize = 0;
        while i < stack.len()
            invariant
                i <= stack@.len(),
                fold_point(stack@, i as nat) == (best_idx as int, best_prio),
            decreases stack@.len() - i,
        {
            match &stack[i] {
                StackItem::Dot => {
                    if 2 < best_prio {
                        best_idx = i;
                        best_prio = 2;
                    }
                },
                StackItem::Op(op) => {
                    let p = op.priority();
                    if p <= best_prio {
                        best_idx = i;
                        best_prio = p;
                    }
                },
                _ => {},
            }
            i = i + 1;
        }
        (best_idx, best_prio)
    }

    /// The expression that the binary operator `op` makes of `l` and `r`.
    fn combine(op: Operator, l: ExprTree, r: ExprTree) -> (e: ExprTree)
        ensures
            e == combined(op, l, r),
    {
        match op {
            Operator::Assign => ExprTree::Assign(Box::new(l), Box::new(r)),
            Operator::AssignUndefined => ExprTree::AssignUndefined(Box::new(l), Box::new(r)),
            _ => ExprTree::Operation(op, Box::new(l), Box::new(r)),
        }
    }

    /// Tries to create an expression from the current contents of the parser stack:
    /// folds the stack as `fold_stack` says, and leaves on the stack what is left of it.
    pub fn stack_to_expression(stack: &mut Vec<StackItem>) -> (r: Result<Option<ExprTree>, ParseError>)
        ensures
            (r, final(stack)@) == fold_stack(old(stack)@),
        decreases old(stack)@.len(),
    {
        if stack.len() == 0 {
            return Ok(None);
        }
        let ghost s = stack@;
        Self::resolve_identifiers(stack);
        let ghost c = stack@;
        let (best_idx, best_prio) = Self::find_fold_point(stack);
        proof {
            lemma_fold_point(c, c.len());
        }
        if best_prio == 0xff {
            let first = stack.remove(0);
            assert(stack@ =~= c.drop_first());
            return match first {
                StackItem::Expr(e) => Ok(Some(e)),
                _ => Err(ParseError::Failed),
            };
        }
        let len = stack.len();
        let kind = match &stack[best_idx] {
            StackItem::Op(op) => Some(*op),
            _ => None,
        };
        match kind {
            Some(Operator::Not) => {
                if best_idx + 1 < len {
                    stack.remove(best_idx);
                    let right = stack.remove(best_idx);
                    match right {
                        StackItem::Expr(e) => {
                            stack.insert(best_idx, StackItem::Expr(ExprTree::Not(Box::new(e))));
                            Self::stack_to_expression(stack)
                        },
                        _ => Err(ParseError::AtOperator(Operator::Not)),
                    }
                } else {
                    Err(ParseError::AtOperator(Operator::Not))
                }
            },
            Some(op) => {
                if 0 < best_idx && best_idx + 1 < len {
                    let right = stack.remove(best_idx + 1);
                    stack.remove(best_idx);
                    let left = stack.remove(best_idx - 1);
                    assert(stack@ =~= without_three(c, best_idx as int));
                    match (left, right) {
                        (StackItem::Expr(l), StackItem::Expr(r)) => {
                            let e = Self::combine(op, l, r);
                            stack.insert(best_idx - 1, StackItem::Expr(e));
                            Self::stack_to_expression(stack)
                        },
                        _ => Err(ParseError::AtOperator(op)),
                    }
                } else {
                    Err(ParseError::AtOperator(op))
                }
            },
            None => {
                if 0 < best_idx && best_idx + 1 < len {
                    let right = stack.remove(best_idx + 1);
                    stack.remove(best_idx);
                    let left = stack.remove(best_idx - 1);
                    assert(stack@ =~= without_three(c, best_idx as int));
                    match (left, right) {
                        (StackItem::Expr(l), StackItem::Expr(ExprTree::Variable(name))) => {
                            stack.insert(
                                best_idx - 1,
                                StackItem::Expr(ExprTree::MemberAccess(Box::new(l), name)),
                            );
                            Self::stack_to_expression(stack)
                        },
                        (StackItem::Expr(l), StackItem::Expr(ExprTree::Method(name, args))) => {
                            stack.insert(
                                best_idx - 1,
                                StackItem::Expr(
                                    ExprTree::Method(name, ExprList::Cons(Box::new(l), Box::new(args))),
                                ),
                            );
                            Self::stack_to_expression(stack)
                        },
                        _ => Err(ParseError::AtMember),
                    }
                } else {
                    Err(ParseError::AtMember)
                }
            },
        }
    }

    /// Whether `c` is one of `stops`.
    fn has_char(stops: &Vec<char>, c: char) -> (r: bool)
        ensures
            r == stops@.contains(c),
    {
        let mut i: usize = 0;
        while i < stops.len()
            invariant
                i <= stops@.len(),
                forall|j: int| 0 <= j < i ==> stops@[j] != c,
            decreases stops@.len() - i,
        {
            if stops[i] == c {
                assert(stops@[i as int] == c);
                return true;
            }
            i = i + 1;
        }
        false
    }

    /// The list of the expressions of `v`, in order.
    fn list_from(v: Vec<ExprTree>) -> (l: ExprList)
        ensures
            l == list_of(v@),
    {
        let ghost s = v@;
        let mut v = v;
        let mut l = ExprList::Nil;
        assert(s.skip(s.len() as int) =~= Seq::<ExprTree>::empty());
        while v.len() > 0
            invariant
                v@ == s.take(v@.len() as int),
                v@.len() <= s.len(),
                l == list_of(s.skip(v@.len() as int)),
            decreases v@.len(),
        {
            let k = v.len();
            match v.pop() {
                Some(e) => {
                    assert(s.skip(k - 1).drop_first() =~= s.skip(k as int));
                    assert(v@ =~= s.take(k - 1));
                    l = ExprList::Cons(Box::new(e), Box::new(l));
                },
                None => {},
            }
        }
        assert(s.skip(0) =~= s);
        l
    }

    /// The list of the key-value pairs of `v`, in order.
    fn pairs_from(v: Vec<(ExprTree, ExprTree)>) -> (l: PairList)
        ensures
            l == pairs_of(v@),
    {
        let ghost s = v@;
        let mut v = v;
        let mut l = PairList::Nil;
        assert(s.skip(s.len() as int) =~= Seq::<(ExprTree, ExprTree)>::empty());
        while v.len() > 0
            invariant
                v@ == s.take(v@.len() as int),
                v@.len() <= s.len(),
                l == pairs_of(s.skip(v@.len() as int)),
            decreases v@.len(),
        {
            let k = v.len();
            match v.pop() {
                Some(e) => {
                    assert(s.skip(k - 1).drop_first() =~= s.skip(k as int));
                    assert(v@ =~= s.take(k - 1));
                    let (key, value) = e;
                    l = PairList::Cons(Box::new(key), Box::new(value), Box::new(l));
                },
                None => {},
            }
        }
        assert(s.skip(0) =~= s);
        l
    }

    /// The end of a sub-expression (see `finish`).
    fn finish_parse(stack: Vec<StackItem>, exprs: Vec<ExprTree>, pos: usize, stop: char) -> (r: Result<
        (usize, char, Option<ExprTree>),
        ParseError,
    >)
        ensures
            at(r) == finish(stack@, exprs@, pos as int, stop),
            r matches Ok((p, c, _)) ==> p == pos && c == stop,
    {
        let mut stack = stack;
        let mut exprs = exprs;
        match Self::stack_to_expression(&mut stack) {
            Err(e) => Err(e),
            Ok(o) => {
                match o {
                    Some(x) => {
                        exprs.push(x);
                    },
                    None => {},
                }
                if stack.len() > 0 {
                    Err(ParseError::Unevaluated)
                } else if exprs.len() == 0 {
                    Ok((pos, stop, None))
                } else if exprs.len() == 1 {
                    match exprs.pop() {
                        Some(x) => Ok((pos, stop, Some(x))),
                        None => Err(ParseError::Failed),
                    }
                } else {
                    Ok((pos, stop, Some(ExprTree::Sequence(Self::list_from(exprs)))))
                }
            },
        }
    }

    /// Whether the item is an operator.
    fn is_op(it: &StackItem) -> (r: bool)
        ensures
            r == (*it is Op),
    {
        match it {
            StackItem::Op(_) => true,
            _ => false,
        }
    }

    /// Parsing from the token at `pos` on (see `sub_expression_from`).
    fn parse_from(
        toks: &Vec<Token>,
        pos: usize,
        stops: &Vec<char>,
        stack: Vec<StackItem>,
        exprs: Vec<ExprTree>,
    ) -> (r: Result<(usize, char, Option<ExprTree>), ParseError>)
        requires
            pos <= toks@.len(),
        ensures
            at(r) == sub_expression_from(toks@, pos as int, stops@, stack@, exprs@),
            r matches Ok((p, c, _)) ==> pos <= p <= toks@.len() && (c != '\0' ==> pos < p),
        decreases toks@.len() - pos, 1int,
    {
        if pos >= toks.len() {
            return Self::finish_parse(stack, exprs, pos, '\0');
        }
        let p1 = pos + 1;
        let mut stack = stack;
        match &toks[pos] {
            Token::Error(m) => Err(ParseError::Lexer(m.clone())),
            Token::Identifier(id) => {
                stack.push(StackItem::Identifier(id.clone()));
                Self::parse_from(toks, p1, stops, stack, exprs)
            },
            Token::Operator(op) => {
                stack.push(StackItem::Op(*op));
                Self::parse_from(toks, p1, stops, stack, exprs)
            },
            Token::Separator(c) => {
                let c = *c;
                if Self::has_char(stops, c) {
                    Self::finish_parse(stack, exprs, p1, c)
                } else {
                    if c == '.' {
                        stack.push(StackItem::Dot);
                    }
                    Self::parse_from(toks, p1, stops, stack, exprs)
                }
            },
            Token::ExpressionSeparator => {
                let mut exprs = exprs;
                match Self::stack_to_expression(&mut stack) {
                    Err(e) => Err(e),
                    Ok(o) => {
                        if stack.len() > 0 {
                            return Err(ParseError::Unevaluated);
                        }
                        match o {
                            Some(x) => {
                                exprs.push(x);
                            },
                            None => {},
                        }
                        Self::parse_from(toks, p1, stops, stack, exprs)
                    },
                }
            },
            Token::Bracket(b) => Self::parse_bracket(toks, pos, stops, stack, exprs, *b),
            Token::Null => {
                stack.push(StackItem::Expr(ExprTree::Constant(Literal::Null)));
                Self::parse_from(toks, p1, stops, stack, exprs)
            },
            Token::Text(x) => {
                stack.push(StackItem::Expr(ExprTree::Constant(Literal::Text(x.clone()))));
                Self::parse_from(toks, p1, stops, stack, exprs)
            },
            Token::Boolean(v) => {
                stack.push(StackItem::Expr(ExprTree::Constant(Literal::Boolean(*v))));
                Self::parse_from(toks, p1, stops, stack, exprs)
            },
            Token::Integer(v) => {
                stack.push(StackItem::Expr(ExprTree::Constant(Literal::Integer(*v))));
                Self::parse_from(toks, p1, stops, stack, exprs)
            },
            Token::Double(x) => {
                stack.push(StackItem::Expr(ExprTree::Constant(Literal::Double(x.clone()))));
                Self::parse_from(toks, p1, stops, stack, exprs)
            },
        }
    }

    /// The bracket `b` at `pos` (see `bracket_step`).
    fn parse_bracket(
        toks: &Vec<Token>,
        pos: usize,
        stops: &Vec<char>,
        stack: Vec<StackItem>,
        exprs: Vec<ExprTree>,
        b: char,
    ) -> (r: Result<(usize, char, Option<ExprTree>), ParseError>)
        requires
            pos < toks@.len(),
        ensures
            at(r) == bracket_step(toks@, pos as int, stops@, stack@, exprs@, b),
            r matches Ok((p, _c, _e)) ==> pos < p <= toks@.len(),
        decreases toks@.len() - pos, 0int,
    {
        let len = toks.len();
        let p1 = pos + 1;
        let mut stack = stack;
        let n = stack.len();
        if b == '(' {
            if n == 0 || Self::is_op(&stack[n - 1]) {
                let close = vec![')'];
                assert(close@ =~= seq![')']);
                match Self::parse_from(toks, p1, &close, Vec::new(), Vec::new()) {
                    Err(e) => Err(e),
                    Ok((p2, _c, se)) => {
                        match se {
                            Some(x) => {
                                stack.push(StackItem::Expr(x));
                            },
                            None => {},
                        }
                        Self::parse_from(toks, p2, stops, stack, exprs)
                    },
                }
            } else {
                match stack.pop() {
                    Some(StackItem::Identifier(id)) => {
                        match Self::parse_argument_list(toks, p1, ')', Vec::new()) {
                            Err(e) => Err(e),
                            Ok((p2, args)) => {
                                stack.push(StackItem::Expr(ExprTree::Method(id, Self::list_from(args))));
                                Self::parse_from(toks, p2, stops, stack, exprs)
                            },
                        }
                    },
                    _ => Err(ParseError::Unexpected('(')),
                }
            }
        } else if b == '[' {
            if n > 0 {
                match &stack[n - 1] {
                    StackItem::Dot => {
                        return Err(ParseError::InternalAt('['));
                    },
                    _ => {},
                }
            }
            let array = n == 0 || Self::is_op(&stack[n - 1]);
            match Self::parse_argument_list(toks, p1, ']', Vec::new()) {
                Err(e) => Err(e),
                Ok((p2, args)) => {
                    if array {
                        stack.push(StackItem::Expr(ExprTree::Array(Self::list_from(args))));
                        Self::parse_from(toks, p2, stops, stack, exprs)
                    } else if args.len() != 1 {
                        Err(ParseError::IndexArguments)
                    } else {
                        let mut args = args;
                        let arg = match args.pop() {
                            Some(a) => a,
                            None => ExprTree::Constant(Literal::Null),
                        };
                        let value = match stack.pop() {
                            Some(StackItem::Identifier(id)) => ExprTree::Variable(id),
                            Some(StackItem::Expr(e)) => e,
                            _ => ExprTree::Constant(Literal::Null),
                        };
                        stack.push(StackItem::Expr(ExprTree::Index(Box::new(value), Box::new(arg))));
                        Self::parse_from(toks, p2, stops, stack, exprs)
                    }
                },
            }
        } else if b == '{' {
            match Self::parse_member_list(toks, p1, '}', Vec::new()) {
                Err(e) => Err(e),
                Ok((p2, pairs)) => {
                    stack.push(StackItem::Expr(ExprTree::Members(Self::pairs_from(pairs))));
                    Self::parse_from(toks, p2, stops, stack, exprs)
                },
            }
        } else if Self::has_char(stops, b) {
            Self::finish_parse(stack, exprs, p1, b)
        } else {
            Err(ParseError::Unexpected(b))
        }
    }

    /// Parse an argument list, stops at the matching stop char (see `argument_list`).
    fn parse_argument_list(toks: &Vec<Token>, pos: usize, stop: char, acc: Vec<ExprTree>) -> (r: Result<
        (usize, Vec<ExprTree>),
        ParseError,
    >)
        requires
            pos <= toks@.len(),
        ensures
            at_list(r) == argument_list(toks@, pos as int, stop, acc@),
            r matches Ok((p, _v)) ==> pos <= p <= toks@.len(),
        decreases toks@.len() - pos, 2int,
    {
        let stops = vec![',', stop];
        assert(stops@ =~= seq![',', stop]);
        match Self::parse_from(toks, pos, &stops, Vec::new(), Vec::new()) {
            Err(e) => Err(e),
            Ok((p2, c, e)) => match e {
                None => {
                    if acc.len() == 0 {
                        Ok((p2, acc))
                    } else {
                        Err(ParseError::ArgumentList)
                    }
                },
                Some(x) => {
                    let mut acc = acc;
                    acc.push(x);
                    if c == stop {
                        Ok((p2, acc))
                    } else if c == '\0' {
                        Err(ParseError::Missing(stop))
                    } else {
                        Self::parse_argument_list(toks, p2, stop, acc)
                    }
                },
            },
        }
    }

    /// Parse a member list, stops at the matching stop char (see `member_list`).
    fn parse_member_list(
        toks: &Vec<Token>,
        pos: usize,
        stop: char,
        acc: Vec<(ExprTree, ExprTree)>,
    ) -> (r: Result<(usize, Vec<(ExprTree, ExprTree)>), ParseError>)
        requires
            pos <= toks@.len(),
        ensures
            at_list(r) == member_list(toks@, pos as int, stop, acc@),
            r matches Ok((p, _v)) ==> pos <= p <= toks@.len(),
        decreases toks@.len() - pos, 2int,
    {
        let key_stops = vec![':', stop];
        assert(key_stops@ =~= seq![':', stop]);
        match Self::parse_from(toks, pos, &key_stops, Vec::new(), Vec::new()) {
            Err(e) => Err(e),
            Ok((pk, _ck, k)) => match k {
                None => {
                    if acc.len() == 0 {
                        Ok((pk, acc))
                    } else {
                        Err(ParseError::MemberList)
                    }
                },
                Some(key) => {
                    let value_stops = vec![',', stop];
                    assert(value_stops@ =~= seq![',', stop]);
                    match Self::parse_from(toks, pk, &value_stops, Vec::new(), Vec::new()) {
                        Err(e) => Err(e),
                        Ok((pv, c, v)) => match v {
                            None => Err(ParseError::MissingValue),
                            Some(val) => {
                                let mut acc = acc;
                                acc.push((key, val));
                                if c == stop {
                                    Ok((pv, acc))
                                } else if c == '\0' {
                                    Err(ParseError::Missing(stop))
                                } else {
                                    Self::parse_member_list(toks, pv, stop, acc)
                                }
                            },
                        },
                    }
                },
            },
        }
    }

    /// Parses a sub-expression from the token at `pos` on, up to one of `stops`: returns
    /// the position after the last token read, the stop character ('\0' at the end of the
    /// input) and the expression, if there was one.
    pub fn parse_sub_expression(tokens: &Vec<Token>, pos: usize, stops: &Vec<char>) -> (r: Result<
        (usize, char, Option<ExprTree>),
        ParseError,
    >)
        requires
            pos <= tokens@.len(),
        ensures
            at(r) == sub_expression(tokens@, pos as int, stops@),
    {
        Self::parse_from(tokens, pos, stops, Vec::new(), Vec::new())
    }

    /// Parse an expression from the lexer's tokens, returning a re-usable expression.
    pub fn parse(tokens: &Vec<Token>) -> (r: Result<ExprTree, ParseError>)
        ensures
            r == parsed(tokens@),
    {
        let stops = vec!['\0'];
        assert(stops@ =~= seq!['\0']);
        match Self::parse_from(tokens, 0, &stops, Vec::new(), Vec::new()) {
            Err(e) => Err(e),
            Ok((_p, _c, None)) => Err(ParseError::Failed),
            Ok((_p, _c, Some(e))) => Ok(e),
        }
    }
}

} // verus!
