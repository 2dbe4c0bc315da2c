//! Common functions: program argument options and their parsing.

use vstd::prelude::*;
use vstd::string::*;

verus! {

/// Descriptor of a program argument option.
pub struct ArgOption {
    pub name: &'static str,
    pub required: bool,
    pub with_value: bool,
}

impl ArgOption {
    /// Creates a new option with the specified name.
    pub fn new(name: &'static str) -> (r: ArgOption)
        ensures
            r.name@ == name@,
            !r.required,
            !r.with_value,
    {
        ArgOption { name, required: false, with_value: false }
    }

    /// Defines this option as "required".
    pub fn required(self) -> (r: Self)
        ensures
            r.name@ == self.name@,
            r.required,
            r.with_value == self.with_value,
    {
        let mut s = self;
        s.required = true;
        s
    }

    /// Defines that this option needs a value.
    pub fn with_value(self) -> (r: Self)
        ensures
            r.name@ == self.name@,
            r.required == self.required,
            r.with_value,
    {
        let mut s = self;
        s.with_value = true;
        s
    }
}

/// Why the program arguments could not be parsed.
pub enum ArgumentError {
    /// The option needs a value and is the last argument.
    MissingValue(&'static str),
    /// The argument starts with '-' but names no option.
    UnknownOption(String),
}

/// `s` without its leading '-' characters.
pub open spec fn strip_dashes(s: Seq<char>) -> Seq<char>
    decreases s.len(),
{
    if s.len() > 0 && s[0] == '-' {
        strip_dashes(s.drop_first())
    } else {
        s
    }
}

/// The position of the first option named `name`, if there is one.
pub open spec fn find_option(opts: Seq<&ArgOption>, name: Seq<char>) -> Option<int>
    decreases opts.len(),
{
    if opts.len() == 0 {
        None
    } else if opts[0].name@ == name {
        Some(0)
    } else {
        match find_option(opts.drop_first(), name) {
            Some(i) => Some(i + 1),
            None => None,
        }
    }
}

/// Sets the value of `key` in a list of named values: replaces the value of the entry with
/// that key, or appends the entry.
pub open spec fn named_put(named: Seq<(Seq<char>, Seq<char>)>, key: Seq<char>, value: Seq<char>) -> Seq<
    (Seq<char>, Seq<char>),
>
    decreases named.len(),
{
    if named.len() == 0 {
        seq![(key, value)]
    } else if named[0].0 == key {
        seq![(key, value)] + named.drop_first()
    } else {
        seq![named[0]] + named_put(named.drop_first(), key, value)
    }
}

/// The parse of the arguments from position `idx` on, given the named values and free
/// arguments found before it; `None` where an option lacks its value or is unknown.
pub open spec fn parse_from(
    opts: Seq<&ArgOption>,
    args: Seq<Seq<char>>,
    idx: int,
    named: Seq<(Seq<char>, Seq<char>)>,
    free: Seq<Seq<char>>,
) -> Option<(Seq<(Seq<char>, Seq<char>)>, Seq<Seq<char>>)>
    decreases args.len() - idx,
{
    if idx < 0 || idx >= args.len() {
        Some((named, free))
    } else {
        let arg = args[idx];
        if arg.len() > 0 && arg[0] == '-' {
            match find_option(opts, strip_dashes(arg)) {
                Some(i) => {
                    let opt = opts[i];
                    if opt.with_value {
                        if idx + 1 >= args.len() {
                            None
                        } else {
                            parse_from(
                                opts,
                                args,
                                idx + 2,
                                named_put(named, opt.name@, args[idx + 1]),
                                free,
                            )
                        }
                    } else {
                        parse_from(opts, args, idx + 1, named_put(named, opt.name@, Seq::empty()), free)
                    }
                },
                None => None,
            }
        } else {
            parse_from(opts, args, idx + 1, named, free.push(arg))
        }
    }
}

/// The views of a list of strings.
pub open spec fn texts(v: Seq<String>) -> Seq<Seq<char>> {
    v.map_values(|s: String| s@)
}

/// The views of a list of named values.
pub open spec fn named_texts(v: Seq<(&'static str, String)>) -> Seq<(Seq<char>, Seq<char>)> {
    v.map_values(|e: (&'static str, String)| (e.0@, e.1@))
}

/// Whether two texts are equal.
pub(crate) fn same_text(a: &str, b: &str) -> (r: bool)
    ensures
        r == (a@ == b@),
{
    let n = a.unicode_len();
    if n != b.unicode_len() {
        return false;
    }
    let mut i: usize = 0;
    while i < n
        invariant
            n == a@.len(),
            n == b@.len(),
            i <= n,
            forall|j: int| 0 <= j < i ==> a@[j] == b@[j],
        decreases n - i,
    {
        if a.get_char(i) != b.get_char(i) {
            return false;
        }
        i = i + 1;
    }
    assert(a@ =~= b@);
    true
}

/// `s` without its leading '-' characters.
fn trim_dashes(s: &str) -> (r: &str)
    ensures
        r@ == strip_dashes(s@),
{
    let n = s.unicode_len();
    let mut i: usize = 0;
    assert(s@.subrange(0, n as int) =~= s@);
    while i < n && s.get_char(i) == '-'
        invariant
            n == s@.len(),
            i <= n,
            strip_dashes(s@) == strip_dashes(s@.subrange(i as int, n as int)),
        decreases n - i,
    {
        assert(s@.subrange(i as int, n as int).drop_first() =~= s@.subrange(i + 1, n as int));
        i = i + 1;
    }
    proof {
        let rest = s@.subrange(i as int, n as int);
        if i < n {
            assert(rest[0] == s@[i as int]);
        }
        assert(strip_dashes(rest) == rest);
    }
    s.substring_char(i, n)
}

/// Sets the value of `key` in a list of named values.
fn put_named(named: &mut Vec<(&'static str, String)>, key: &'static str, value: String)
    ensures
        named_texts(final(named)@) == named_put(named_texts(old(named)@), key@, value@),
{
    let ghost before = named_texts(named@);
    let mut i: usize = 0;
    while i < named.len()
        invariant
            i <= named@.len(),
            named_texts(named@) == before,
            before == named_texts(old(named)@),
            forall|j: int| 0 <= j < i ==> #[trigger] named@[j].0@ != key@,
        decreases named@.len() - i,
    {
        if same_text(named[i].0, key) {
            proof {
                assert(before.len() == named@.len());
                assert(before[i as int].0 == key@);
                assert forall|j: int| 0 <= j < i implies #[trigger] before[j].0 != key@ by {
                    assert(before[j].0 == named@[j].0@);
                }
                lemma_named_put_at(before, key@, value@, i as int);
            }
            let ghost v = value@;
            named.set(i, (key, value));
            assert(named_texts(named@) =~= before.update(i as int, (key@, v)));
            assert(named_texts(named@) == named_put(before, key@, v));
            return;
        }
        i = i + 1;
    }
    proof {
        assert(before.len() == named@.len());
        assert forall|j: int| 0 <= j < named@.len() implies #[trigger] before[j].0 != key@ by {
            assert(before[j].0 == named@[j].0@);
        }
        lemma_named_put_at(before, key@, value@, named@.len() as int);
    }
    named.push((key, value));
    assert(named_texts(named@) =~= before.push((key@, value@)));
}

proof fn lemma_named_put_at(
    named: Seq<(Seq<char>, Seq<char>)>,
    key: Seq<char>,
    value: Seq<char>,
    i: int,
)
    requires
        0 <= i <= named.len(),
        forall|j: int| 0 <= j < i ==> #[trigger] named[j].0 != key,
        i < named.len() ==> named[i].0 == key,
    ensures
        i < named.len() ==> named_put(named, key, value) == named.update(i, (key, value)),
        i == named.len() ==> named_put(named, key, value) == named.push((key, value)),
    decreases named.len(),
{
    if named.len() > 0 && i > 0 {
        let rest = named.drop_first();
        assert forall|j: int| 0 <= j < i - 1 implies #[trigger] rest[j].0 != key by {
            assert(rest[j] == named[j + 1]);
        }
        lemma_named_put_at(rest, key, value, i - 1);
        if i < named.len() {
            assert(seq![named[0]] + rest.update(i - 1, (key, value)) =~= named.update(
                i,
                (key, value),
            ));
        } else {
            assert(seq![named[0]] + rest.push((key, value)) =~= named.push((key, value)));
        }
    } else if named.len() > 0 {
        assert(seq![(key, value)] + named.drop_first() =~= named.update(0, (key, value)));
    }
}

proof fn lemma_find_option_range(opts: Seq<&ArgOption>, name: Seq<char>)
    ensures
        find_option(opts, name) matches Some(i) ==> 0 <= i < opts.len(),
    decreases opts.len(),
{
    if opts.len() > 0 {
        lemma_find_option_range(opts.drop_first(), name);
    }
}

/// The position of the first option named `name`, if there is one.
fn find_argument_option(arguments: &[&ArgOption], name: &str) -> (r: Option<usize>)
    ensures
        match find_option(arguments@, name@) {
            Some(i) => r == Some(i as usize) && 0 <= i < arguments@.len(),
            None => r is None,
        },
{
    proof {
        lemma_find_option_range(arguments@, name@);
    }
    let mut i: usize = 0;
    assert(arguments@.skip(0) =~= arguments@);
    while i < arguments.len()
        invariant
            i <= arguments@.len(),
            find_option(arguments@, name@) == match find_option(
                arguments@.skip(i as int),
                name@,
            ) {
                Some(k) => Some(k + i),
                None => None,
            },
        decreases arguments@.len() - i,
    {
        assert(arguments@.skip(i as int).drop_first() =~= arguments@.skip(i + 1));
        assert(arguments@.skip(i as int)[0] == arguments@[i as int]);
        if same_text(arguments[i].name, name) {
            return Some(i);
        }
        i = i + 1;
    }
    None
}

/// Parses program arguments (the first one, the program's name, is skipped): an argument
/// starting with '-' names an option (after its leading dashes), whose value, for an
/// option with a value, is the next argument; the other arguments are returned in order.
/// Named values are returned in the order in which their options first occur; a later
/// occurrence replaces the value.
pub fn parse_arguments(arguments: &[&ArgOption], args: &Vec<String>) -> (r: Result<
    (Vec<(&'static str, String)>, Vec<String>),
    ArgumentError,
>)
    ensures
        match parse_from(arguments@, texts(args@), 1, Seq::empty(), Seq::empty()) {
            Some((named, free)) => r matches Ok((n, f)) && named_texts(n@) == named && texts(f@)
                == free,
            None => r is Err,
        },
{
    let mut named: Vec<(&'static str, String)> = Vec::new();
    let mut free: Vec<String> = Vec::new();
    let ghost all = texts(args@);
    let mut idx: usize = 1;
    assert(named_texts(named@) =~= Seq::<(Seq<char>, Seq<char>)>::empty());
    assert(texts(free@) =~= Seq::<Seq<char>>::empty());
    while idx < args.len()
        invariant
            all == texts(args@),
            1 <= idx,
            parse_from(arguments@, all, 1, Seq::empty(), Seq::empty()) == parse_from(
                arguments@,
                all,
                idx as int,
                named_texts(named@),
                texts(free@),
            ),
        decreases args@.len() - idx,
    {
        let arg = &args[idx];
        let s = arg.as_str();
        assert(all[idx as int] == arg@);
        let dash = s.unicode_len() > 0 && s.get_char(0) == '-';
        if dash {
            let sarg = trim_dashes(s);
            match find_argument_option(arguments, sarg) {
                Some(i) => {
                    let opt = arguments[i];
                    if opt.with_value {
                        if idx + 1 >= args.len() {
                            assert(parse_from(arguments@, all, idx as int, named_texts(named@), texts(free@)) is None);
                            return Err(ArgumentError::MissingValue(opt.name));
                        }
                        assert(all[idx + 1] == args@[idx + 1]@);
                        put_named(&mut named, opt.name, args[idx + 1].clone());
                        idx = idx + 2;
                    } else {
                        put_named(&mut named, opt.name, String::new());
                        idx = idx + 1;
                    }
                },
                None => {
                    assert(parse_from(arguments@, all, idx as int, named_texts(named@), texts(free@)) is None);
                    return Err(ArgumentError::UnknownOption(arg.clone()));
                },
            }
        } else {
            let ghost before = free@;
            free.push(arg.clone());
            assert(texts(free@) =~= texts(before).push(arg@));
            idx = idx + 1;
        }
    }
    assert(parse_from(arguments@, all, idx as int, named_texts(named@), texts(free@)) == Some(
        (named_texts(named@), texts(free@)),
    ));
    Ok((named, free))
}

} // verus!
