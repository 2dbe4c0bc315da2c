use rufsm::collections::{HashTable, List, OrderedSet, Queue};
use rufsm::common::{parse_arguments, ArgOption, ArgumentError};
use rufsm::datamodel::SourceCode;
use rufsm::decimal::{i64_to_string, i64_to_text, is_float_text, text_to_i64};

#[test]
fn hash_table_put_then_get() {
    let mut t: HashTable<u32, String> = HashTable::new();
    assert!(!t.has(3));
    t.put(3, &"three".to_string());
    assert!(t.has(3));
    assert_eq!(t.get(3), "three");
    t.putMove(3, "drei".to_string());
    assert_eq!(t.get(3), "drei");
    let mut u: HashTable<u32, String> = HashTable::new();
    u.put(4, &"four".to_string());
    u.put(3, &"trois".to_string());
    t.putAll(&u);
    assert_eq!(t.get(3), "trois");
    assert_eq!(t.get(4), "four");
    t.clear();
    assert!(!t.has(4));
}

#[test]
fn hash_table_of_sets() {
    let mut t: HashTable<u32, OrderedSet<u32>> = HashTable::new();
    let mut s = OrderedSet::new();
    s.add(1u32);
    s.add(2u32);
    t.put(9, &s);
    s.add(3u32);
    assert_eq!(t.get(9).size(), 2);
}

#[test]
fn queue_is_first_in_first_out() {
    let mut q: Queue<u32> = Queue::new();
    assert!(q.isEmpty());
    q.enqueue(1);
    q.enqueue(2);
    assert_eq!(q.dequeue(), 1);
    assert_eq!(q.dequeue(), 2);
    assert!(q.isEmpty());
    q.enqueue(3);
    q.clear();
    assert!(q.isEmpty());
}

#[test]
fn ordered_set_keeps_insertion_order_without_duplicates() {
    let mut s: OrderedSet<u32> = OrderedSet::from_array(&[3, 1]);
    s.add(3);
    s.add(2);
    let l = s.toList();
    assert_eq!((0..l.size()).map(|i| *l.get(i)).collect::<Vec<_>>(), vec![3, 1, 2]);
    let mut o = OrderedSet::new();
    o.add(2u32);
    o.add(5u32);
    s.union(&o);
    assert_eq!(s.size(), 4);
    assert!(s.isMember(&5));
    s.delete(&3);
    assert!(!s.isMember(&3));
}

#[test]
fn list_to_set_keeps_first_occurrences() {
    let l: List<u32> = List::from_array(&[4, 2, 4, 1, 2]);
    let s = l.toSet();
    assert_eq!((0..s.size()).map(|i| *s.get(i)).collect::<Vec<_>>(), vec![4, 2, 1]);
    let t = l.tail();
    assert_eq!(*t.head(), 2);
    let mut set = OrderedSet::new();
    set.add(9u32);
    let both = l.appendSet(&set);
    assert_eq!(both.size(), 6);
    assert_eq!(*both.get(5), 9);
}

#[test]
fn decimal_text_round_trips() {
    assert_eq!(i64_to_text(-1205), b"-1205".to_vec());
    assert_eq!(i64_to_text(0), b"0".to_vec());
    assert_eq!(i64_to_string(i64::MIN), "-9223372036854775808");
    assert_eq!(text_to_i64(b"+42"), Some(42));
    assert_eq!(text_to_i64(b"-9223372036854775808"), Some(i64::MIN));
    assert_eq!(text_to_i64(b"9223372036854775808"), None);
    assert_eq!(text_to_i64(b"4x"), None);
    assert_eq!(text_to_i64(b""), None);
}

#[test]
fn float_text_follows_the_f64_grammar() {
    for t in ["1.5", "-0.25e-3", "inf", "NaN", "+Infinity", ".5", "5.", "1E10"] {
        assert!(is_float_text(t.as_bytes()), "{}", t);
        assert!(t.parse::<f64>().is_ok());
    }
    for t in ["", ".", "e5", "1.5x", "--1", "infinit"] {
        assert!(!is_float_text(t.as_bytes()), "{}", t);
        assert!(t.parse::<f64>().is_err());
    }
}

#[test]
fn source_code_wraps_text() {
    let s = SourceCode::new("a = ä", 7);
    assert_eq!(s.as_str(), "a = ä");
    assert_eq!(s.len(), 6);
    assert!(!s.is_empty());
    assert_eq!(s.source_id, 7);
    let e = SourceCode::new_move(String::new(), 0);
    assert!(e.is_empty());
}

#[test]
fn arguments_are_parsed() {
    let trace = ArgOption::new("trace").with_value();
    let verbose = ArgOption::new("verbose");
    let required = ArgOption::new("x").required();
    assert!(required.required);
    let options = [&trace, &verbose];
    let args: Vec<String> = ["prog", "file.scxml", "--trace", "all", "-verbose", "more"]
        .iter()
        .map(|s| s.to_string())
        .collect();
    match parse_arguments(&options, &args) {
        Ok((named, free)) => {
            assert_eq!(named, vec![("trace", "all".to_string()), ("verbose", "".to_string())]);
            assert_eq!(free, vec!["file.scxml".to_string(), "more".to_string()]);
        }
        Err(_) => panic!("arguments shall be accepted"),
    }
    let missing: Vec<String> = ["prog", "-trace"].iter().map(|s| s.to_string()).collect();
    assert!(matches!(parse_arguments(&options, &missing), Err(ArgumentError::MissingValue("trace"))));
    let unknown: Vec<String> = ["prog", "-x"].iter().map(|s| s.to_string()).collect();
    assert!(matches!(parse_arguments(&options, &unknown), Err(ArgumentError::UnknownOption(_))));
}

#[test]
fn sort_is_stable_and_ordered() {
    let mut l: List<u32> = List::new();
    for v in [31u32, 12, 25, 11, 22, 13] {
        l.push(v);
    }
    // Order by the tens only: equal tens keep their order.
    let s = l.sort(&|a: &u32, b: &u32| (a / 10).cmp(&(b / 10)));
    let mut out = Vec::new();
    let mut t = s;
    while t.size() > 0 {
        out.push(*t.head());
        t = t.tail();
    }
    assert_eq!(out, vec![12, 11, 13, 25, 22, 31]);

    let mut os: OrderedSet<u32> = OrderedSet::new();
    os.add(3);
    os.add(1);
    os.add(2);
    let sorted = os.sort(&|a: &u32, b: &u32| a.cmp(b));
    assert_eq!(sorted.size(), 3);
    assert_eq!(*sorted.head(), 1);
    assert_eq!(*sorted.tail().head(), 2);
}
