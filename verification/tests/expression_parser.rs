use rufsm::expression_parser::{
    ExprList, ExprTree, ExpressionParser, Literal, Operator, PairList, ParseError, StackItem, Token,
};

fn integer(v: i64) -> StackItem {
    StackItem::Expr(ExprTree::Constant(Literal::Integer(v)))
}

fn c(v: i64) -> Box<ExprTree> {
    Box::new(ExprTree::Constant(Literal::Integer(v)))
}

#[test]
fn multiplication_binds_tighter_than_addition() {
    // 12 + 2 * 4
    let mut stack = vec![integer(12), StackItem::Op(Operator::Plus), integer(2), StackItem::Op(Operator::Multiply), integer(4)];
    let r = ExpressionParser::stack_to_expression(&mut stack);
    assert_eq!(
        r,
        Ok(Some(ExprTree::Operation(
            Operator::Plus,
            c(12),
            Box::new(ExprTree::Operation(Operator::Multiply, c(2), c(4)))
        )))
    );
    assert!(stack.is_empty());
    // (12 + 2) * 4: the bracket is already one expression on the stack
    let inner = ExprTree::Operation(Operator::Plus, c(12), c(2));
    let mut stack = vec![StackItem::Expr(inner), StackItem::Op(Operator::Multiply), integer(4)];
    let r = ExpressionParser::stack_to_expression(&mut stack);
    assert_eq!(
        r,
        Ok(Some(ExprTree::Operation(
            Operator::Multiply,
            Box::new(ExprTree::Operation(Operator::Plus, c(12), c(2))),
            c(4)
        )))
    );
}

#[test]
fn same_priority_groups_to_the_right() {
    let mut stack = vec![integer(10), StackItem::Op(Operator::Minus), integer(3), StackItem::Op(Operator::Plus), integer(2)];
    let r = ExpressionParser::stack_to_expression(&mut stack);
    assert_eq!(
        r,
        Ok(Some(ExprTree::Operation(
            Operator::Minus,
            c(10),
            Box::new(ExprTree::Operation(Operator::Plus, c(3), c(2)))
        )))
    );
}

#[test]
fn identifiers_assignments_and_not() {
    // a = !b
    let mut stack = vec![
        StackItem::Identifier("a".to_string()),
        StackItem::Op(Operator::Assign),
        StackItem::Op(Operator::Not),
        StackItem::Identifier("b".to_string()),
    ];
    let r = ExpressionParser::stack_to_expression(&mut stack);
    assert_eq!(
        r,
        Ok(Some(ExprTree::Assign(
            Box::new(ExprTree::Variable("a".to_string())),
            Box::new(ExprTree::Not(Box::new(ExprTree::Variable("b".to_string()))))
        )))
    );
    // x ?= 1
    let mut stack = vec![StackItem::Identifier("x".to_string()), StackItem::Op(Operator::AssignUndefined), integer(1)];
    assert_eq!(
        ExpressionParser::stack_to_expression(&mut stack),
        Ok(Some(ExprTree::AssignUndefined(Box::new(ExprTree::Variable("x".to_string())), c(1))))
    );
}

#[test]
fn members_and_member_calls() {
    // a.b.length()
    let call = ExprTree::Method("length".to_string(), ExprList::Nil);
    let mut stack = vec![
        StackItem::Identifier("a".to_string()),
        StackItem::Dot,
        StackItem::Identifier("b".to_string()),
        StackItem::Dot,
        StackItem::Expr(call),
    ];
    let r = ExpressionParser::stack_to_expression(&mut stack);
    let member = ExprTree::MemberAccess(Box::new(ExprTree::Variable("a".to_string())), "b".to_string());
    assert_eq!(
        r,
        Ok(Some(ExprTree::Method(
            "length".to_string(),
            ExprList::Cons(Box::new(member), Box::new(ExprList::Nil))
        )))
    );
}

#[test]
fn folding_errors() {
    let mut empty: Vec<StackItem> = Vec::new();
    assert_eq!(ExpressionParser::stack_to_expression(&mut empty), Ok(None));
    let mut stack = vec![integer(1), StackItem::Op(Operator::Plus)];
    let r = ExpressionParser::stack_to_expression(&mut stack);
    assert_eq!(r, Err(ParseError::AtOperator(Operator::Plus)));
    assert_eq!(
        ParseError::AtOperator(Operator::Plus).message(),
        "Failed to parse at operator 'Plus'"
    );
    let mut stack = vec![integer(1), StackItem::Dot, integer(2)];
    let r = ExpressionParser::stack_to_expression(&mut stack);
    assert_eq!(r, Err(ParseError::AtMember));
    assert_eq!(ParseError::AtMember.message(), "Failed to parse at '.'");
    assert!(stack.is_empty());
    // two expressions without an operator: the first is the result, the rest stays
    let mut stack = vec![integer(1), integer(2)];
    assert_eq!(ExpressionParser::stack_to_expression(&mut stack), Ok(Some(ExprTree::Constant(Literal::Integer(1)))));
    assert_eq!(stack.len(), 1);
}

fn n(v: i64) -> Token {
    Token::Integer(v)
}

fn ident(s: &str) -> Token {
    Token::Identifier(s.to_string())
}

fn var(s: &str) -> Box<ExprTree> {
    Box::new(ExprTree::Variable(s.to_string()))
}

fn list(items: Vec<ExprTree>) -> ExprList {
    let mut l = ExprList::Nil;
    for e in items.into_iter().rev() {
        l = ExprList::Cons(Box::new(e), Box::new(l));
    }
    l
}

#[test]
fn parser_prioritizes_multiplication_and_brackets() {
    // 12 + 2 * 4
    let toks = vec![n(12), Token::Operator(Operator::Plus), n(2), Token::Operator(Operator::Multiply), n(4)];
    assert_eq!(
        ExpressionParser::parse(&toks),
        Ok(ExprTree::Operation(
            Operator::Plus,
            c(12),
            Box::new(ExprTree::Operation(Operator::Multiply, c(2), c(4)))
        ))
    );
    // (12 + 2) * 4
    let toks = vec![
        Token::Bracket('('),
        n(12),
        Token::Operator(Operator::Plus),
        n(2),
        Token::Bracket(')'),
        Token::Operator(Operator::Multiply),
        n(4),
    ];
    assert_eq!(
        ExpressionParser::parse(&toks),
        Ok(ExprTree::Operation(
            Operator::Multiply,
            Box::new(ExprTree::Operation(Operator::Plus, c(12), c(2))),
            c(4)
        ))
    );
}

#[test]
fn parser_reads_calls_members_indexes_arrays_and_maps() {
    // method(1,2,3,4)
    let toks = vec![
        ident("method"),
        Token::Bracket('('),
        n(1),
        Token::Separator(','),
        n(2),
        Token::Separator(','),
        n(3),
        Token::Separator(','),
        n(4),
        Token::Bracket(')'),
    ];
    let ints = |v: &[i64]| list(v.iter().map(|x| ExprTree::Constant(Literal::Integer(*x))).collect());
    assert_eq!(ExpressionParser::parse(&toks), Ok(ExprTree::Method("method".to_string(), ints(&[1, 2, 3, 4]))));
    // a.b
    let toks = vec![ident("a"), Token::Separator('.'), ident("b")];
    assert_eq!(ExpressionParser::parse(&toks), Ok(ExprTree::MemberAccess(var("a"), "b".to_string())));
    // x[1]
    let toks = vec![ident("x"), Token::Bracket('['), n(1), Token::Bracket(']')];
    assert_eq!(ExpressionParser::parse(&toks), Ok(ExprTree::Index(var("x"), c(1))));
    // [1, 2]
    let toks = vec![Token::Bracket('['), n(1), Token::Separator(','), n(2), Token::Bracket(']')];
    assert_eq!(ExpressionParser::parse(&toks), Ok(ExprTree::Array(ints(&[1, 2]))));
    // {"a": 1}
    let toks = vec![
        Token::Bracket('{'),
        Token::Text("a".to_string()),
        Token::Separator(':'),
        n(1),
        Token::Bracket('}'),
    ];
    assert_eq!(
        ExpressionParser::parse(&toks),
        Ok(ExprTree::Members(PairList::Cons(
            Box::new(ExprTree::Constant(Literal::Text("a".to_string()))),
            c(1),
            Box::new(PairList::Nil)
        )))
    );
}

#[test]
fn parser_reads_sequences_and_stops() {
    // a = 1; b ?= 2
    let toks = vec![
        ident("a"),
        Token::Operator(Operator::Assign),
        n(1),
        Token::ExpressionSeparator,
        ident("b"),
        Token::Operator(Operator::AssignUndefined),
        n(2),
    ];
    assert_eq!(
        ExpressionParser::parse(&toks),
        Ok(ExprTree::Sequence(list(vec![
            ExprTree::Assign(var("a"), c(1)),
            ExprTree::AssignUndefined(var("b"), c(2)),
        ])))
    );
    // a sub-expression up to ',' : "1 + 2, 3"
    let toks = vec![n(1), Token::Operator(Operator::Plus), n(2), Token::Separator(','), n(3)];
    let r = ExpressionParser::parse_sub_expression(&toks, 0, &vec![',']);
    assert_eq!(r, Ok((4, ',', Some(ExprTree::Operation(Operator::Plus, c(1), c(2))))));
    let r = ExpressionParser::parse_sub_expression(&toks, 4, &vec![',']);
    assert_eq!(r, Ok((5, '\0', Some(ExprTree::Constant(Literal::Integer(3))))));
}

#[test]
fn parser_errors() {
    assert_eq!(ExpressionParser::parse(&vec![]), Err(ParseError::Failed));
    assert_eq!(ExpressionParser::parse(&vec![Token::Bracket(')')]), Err(ParseError::Unexpected(')')));
    assert_eq!(ParseError::Unexpected(')').message(), "Unexpected ')'");
    let toks = vec![ident("f"), Token::Bracket('('), n(1)];
    assert_eq!(ExpressionParser::parse(&toks), Err(ParseError::Missing(')')));
    assert_eq!(ParseError::Missing(')').message(), "Missing ')'");
    let toks = vec![ident("x"), Token::Bracket('['), n(1), Token::Separator(','), n(2), Token::Bracket(']')];
    assert_eq!(ExpressionParser::parse(&toks), Err(ParseError::IndexArguments));
    let toks = vec![n(1), Token::Error("bad number".to_string())];
    assert_eq!(ExpressionParser::parse(&toks), Err(ParseError::Lexer("bad number".to_string())));
    assert_eq!(ParseError::Lexer("bad number".to_string()).message(), "bad number");
    let toks = vec![n(1), n(2)];
    assert_eq!(ExpressionParser::parse(&toks), Err(ParseError::Unevaluated));
}

#[test]
fn parser_not_binds_tightest() {
    let toks = vec![Token::Operator(Operator::Not), n(1), Token::Operator(Operator::Less), n(2)];
    assert_eq!(
        ExpressionParser::parse(&toks),
        Ok(ExprTree::Operation(Operator::Less, Box::new(ExprTree::Not(c(1))), c(2)))
    );
}

#[test]
fn parser_chains_of_one_priority_group_right() {
    let toks = vec![
        n(8),
        Token::Operator(Operator::Minus),
        n(4),
        Token::Operator(Operator::Plus),
        n(2),
        Token::Operator(Operator::Minus),
        n(1),
    ];
    let inner = ExprTree::Operation(Operator::Minus, c(2), c(1));
    let middle = ExprTree::Operation(Operator::Plus, c(4), Box::new(inner));
    assert_eq!(
        ExpressionParser::parse(&toks),
        Ok(ExprTree::Operation(Operator::Minus, c(8), Box::new(middle)))
    );
}
