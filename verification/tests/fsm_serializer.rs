use rufsm::fsm::{Fsm, HistoryType, Invoke, State, Transition, TransitionType};
use rufsm::fsm_serializer::{read_fsm, read_state, write_fsm, write_state};
use rufsm::protocol::{DefaultProtocolReader, DefaultProtocolWriter};

fn state(id: u32, parent: u32, children: Vec<u32>, transitions: Vec<u32>) -> State {
    let mut s = State::new(&format!("s{}", id));
    s.id = id;
    s.doc_id = id + 10;
    s.parent = parent;
    s.states = children;
    s.transitions = transitions;
    s
}

fn sample() -> Fsm {
    let mut root = state(1, 0, vec![2, 3], vec![]);
    root.initial = 1;
    let mut a = state(2, 1, vec![], vec![1, 2]);
    a.onentry = vec![5, 6];
    a.onexit = vec![7];
    a.history = vec![4];
    a.invoke = vec![Invoke { doc_id: 30, id: 1, name: "inv".to_string(), invokeid: 9, autoforward: true }];
    let mut b = state(3, 1, vec![], vec![]);
    b.is_final = true;
    b.donedata = Some(rufsm::fsm::DoneData {});
    let mut h = state(4, 2, vec![], vec![]);
    h.history_type = HistoryType::Deep;
    let t1 = Transition {
        id: 1,
        doc_id: 20,
        events: vec!["go".to_string(), "error.*".to_string()],
        cond: Some("x > 1".to_string()),
        source: 2,
        target: vec![3],
        transition_type: TransitionType::Internal,
        content: 8,
    };
    let t2 = Transition {
        id: 2,
        doc_id: 21,
        events: vec![],
        cond: None,
        source: 2,
        target: vec![],
        transition_type: TransitionType::External,
        content: 0,
    };
    Fsm { pseudo_root: 1, states: vec![root, a, b, h], transitions: vec![t1, t2] }
}

fn same_state(x: &State, y: &State) {
    assert_eq!(x.id, y.id);
    assert_eq!(x.doc_id, y.doc_id);
    assert_eq!(x.name, y.name);
    assert_eq!(x.initial, y.initial);
    assert_eq!(x.states, y.states);
    assert_eq!(x.is_parallel, y.is_parallel);
    assert_eq!(x.is_final, y.is_final);
    assert_eq!(x.history_type, y.history_type);
    assert_eq!(x.onentry, y.onentry);
    assert_eq!(x.onexit, y.onexit);
    assert_eq!(x.transitions, y.transitions);
    assert_eq!(x.history, y.history);
    assert_eq!(x.parent, y.parent);
    assert_eq!(x.donedata.is_some(), y.donedata.is_some());
    assert_eq!(x.invoke.len(), y.invoke.len());
    for (i, j) in x.invoke.iter().zip(y.invoke.iter()) {
        assert_eq!((i.id, i.doc_id, &i.name, i.invokeid, i.autoforward), (j.id, j.doc_id, &j.name, j.invokeid, j.autoforward));
    }
}

#[test]
fn a_written_state_machine_is_read_back() {
    let fsm = sample();
    let mut w = DefaultProtocolWriter::new(Vec::new());
    write_fsm(&mut w, &fsm);
    let bytes = w.get_writer().clone();
    let mut r = DefaultProtocolReader::new(bytes);
    let back = read_fsm(&mut r).expect("read back");
    assert!(!r.has_error());
    assert_eq!(back.pseudo_root, 1);
    assert_eq!(back.states.len(), fsm.states.len());
    for (x, y) in back.states.iter().zip(fsm.states.iter()) {
        same_state(x, y);
    }
    assert_eq!(back.transitions.len(), 2);
    for (x, y) in back.transitions.iter().zip(fsm.transitions.iter()) {
        assert_eq!(x.id, y.id);
        assert_eq!(x.doc_id, y.doc_id);
        assert_eq!(x.events, y.events);
        assert_eq!(x.cond, y.cond);
        assert_eq!(x.source, y.source);
        assert_eq!(x.target, y.target);
        assert_eq!(x.transition_type, y.transition_type);
        assert_eq!(x.content, y.content);
    }
}

#[test]
fn a_state_is_written_with_its_flags() {
    let mut s = state(7, 1, vec![], vec![3]);
    s.is_parallel = true;
    let mut w = DefaultProtocolWriter::new(Vec::new());
    write_state(&mut w, &s);
    let mut r = DefaultProtocolReader::new(w.get_writer().clone());
    let back = read_state(&mut r);
    same_state(&back, &s);
}

#[test]
fn other_bytes_are_no_state_machine() {
    let mut r = DefaultProtocolReader::new(vec![0x20, 0x21]);
    assert!(read_fsm(&mut r).is_none());
    assert!(r.has_error());
    let mut w = DefaultProtocolWriter::new(Vec::new());
    write_fsm(&mut w, &sample());
    let mut bytes = w.get_writer().clone();
    bytes.truncate(bytes.len() - 3);
    let mut r = DefaultProtocolReader::new(bytes);
    assert!(read_fsm(&mut r).is_none());
}
