use rufsm::collections::{HashTable, List, OrderedSet, Queue};
use rufsm::fsm::{
    map_history_type, map_transition_type, Event, EventType, Fsm, GlobalData, HistoryType, Invoke,
    State, Transition, TransitionType,
};
use std::cell::RefCell;

fn state(id: u32, doc_id: u32, parent: u32, children: Vec<u32>, transitions: Vec<u32>) -> State {
    let mut s = State::new(&format!("s{}", id));
    s.id = id;
    s.doc_id = doc_id;
    s.parent = parent;
    s.states = children;
    s.transitions = transitions;
    s
}

fn transition(
    id: u32,
    source: u32,
    target: Vec<u32>,
    events: Vec<&str>,
    transition_type: TransitionType,
) -> Transition {
    Transition {
        id,
        doc_id: id,
        events: events.iter().map(|e| e.to_string()).collect(),
        cond: None,
        source,
        target,
        transition_type,
        content: 0,
    }
}

/// root(1) { A(2) { A1(4), A2(5), history H(9) }, B(3) parallel { B1(7), B2(8) }, F(6) final }
fn chart() -> Fsm {
    let root = state(1, 1, 0, vec![2, 3, 6], vec![]);
    let mut a = state(2, 2, 1, vec![4, 5], vec![2]);
    a.initial = 3;
    a.history = vec![9];
    let mut b = state(3, 5, 1, vec![7, 8], vec![6]);
    b.is_parallel = true;
    let a1 = state(4, 3, 2, vec![], vec![1]);
    let a2 = state(5, 4, 2, vec![], vec![4]);
    let mut f = state(6, 8, 1, vec![], vec![]);
    f.is_final = true;
    let mut b1 = state(7, 6, 3, vec![], vec![]);
    b1.onentry = vec![3, 1];
    let b2 = state(8, 7, 3, vec![], vec![]);
    let mut h = state(9, 9, 2, vec![], vec![5]);
    h.history_type = HistoryType::Deep;
    let mut t5 = transition(5, 9, vec![5], vec![], TransitionType::External);
    t5.content = 7;
    Fsm {
        pseudo_root: 1,
        states: vec![root, a, b, a1, a2, f, b1, b2, h],
        transitions: vec![
            transition(1, 4, vec![3], vec!["go"], TransitionType::External),
            transition(2, 2, vec![5], vec!["next"], TransitionType::Internal),
            transition(3, 2, vec![4], vec![], TransitionType::External),
            transition(4, 5, vec![6], vec![], TransitionType::External),
            t5,
            transition(6, 3, vec![9], vec!["back"], TransitionType::External),
        ],
    }
}

fn global_with(configuration: &[u32]) -> GlobalData {
    let mut g = GlobalData::new();
    for s in configuration {
        g.configuration.add(*s);
    }
    g
}

fn ids(s: &OrderedSet<u32>) -> Vec<u32> {
    (0..s.size()).map(|i| *s.get(i)).collect()
}

fn list_ids(s: &List<u32>) -> Vec<u32> {
    (0..s.size()).map(|i| *s.get(i)).collect()
}

#[test]
fn chart_is_descendant() {
    let fsm = chart();
    assert!(fsm.isDescendant(4, 1));
    assert!(fsm.isDescendant(4, 2));
    assert!(fsm.isDescendant(7, 3));
    assert!(!fsm.isDescendant(2, 4));
    assert!(!fsm.isDescendant(4, 4));
    assert!(!fsm.isDescendant(4, 3));
    assert!(!fsm.isDescendant(0, 1));
    assert!(!fsm.isDescendant(4, 0));
}

#[test]
fn chart_proper_ancestors() {
    let fsm = chart();
    assert_eq!(ids(&fsm.getProperAncestors(4, 0)), vec![2, 1]);
    assert_eq!(ids(&fsm.getProperAncestors(4, 1)), vec![2]);
    assert_eq!(ids(&fsm.getProperAncestors(4, 2)), Vec::<u32>::new());
    assert_eq!(ids(&fsm.getProperAncestors(4, 4)), Vec::<u32>::new());
    assert_eq!(ids(&fsm.getProperAncestors(2, 4)), Vec::<u32>::new());
    assert_eq!(ids(&fsm.getProperAncestors(1, 0)), Vec::<u32>::new());
}

#[test]
fn chart_kinds_of_states() {
    let fsm = chart();
    let g = global_with(&[1, 2, 4]);
    assert!(fsm.isCompoundState(2));
    assert!(!fsm.isCompoundState(3));
    assert!(!fsm.isCompoundState(4));
    assert!(!fsm.isCompoundState(0));
    assert!(fsm.isParallelState(3));
    assert!(!fsm.isParallelState(0));
    assert!(fsm.isSCXMLElement(1));
    assert!(fsm.isCompoundStateOrScxmlElement(1));
    assert!(fsm.isAtomicStateId(&4));
    assert!(fsm.isFinalStateId(6));
    assert!(!fsm.isHistoryState(4));
    assert!(fsm.isHistoryState(9));
    assert_eq!(list_ids(&fsm.getChildStates(2)), vec![4, 5]);
    assert!(!fsm.isInFinalState(&g, 2));
    let done = global_with(&[1, 6]);
    assert!(fsm.isInFinalState(&done, 1));
}

#[test]
fn chart_lcca_and_domain() {
    let fsm = chart();
    let g = global_with(&[1, 2, 4]);
    let mut l = List::new();
    l.push(4u32);
    l.push(5u32);
    assert_eq!(fsm.findLCCA(&l), 2);
    let mut l2 = List::new();
    l2.push(4u32);
    l2.push(3u32);
    assert_eq!(fsm.findLCCA(&l2), 1);
    assert_eq!(fsm.getTransitionDomain(&g, &fsm.transitions[0]), 1);
    assert_eq!(fsm.getTransitionDomain(&g, &fsm.transitions[1]), 2);
    assert_eq!(ids(&fsm.getEffectiveTargetStates(&g, &fsm.transitions[0])), vec![3]);
}

#[test]
fn chart_exit_set_and_conflicts() {
    let fsm = chart();
    let g = global_with(&[1, 2, 4]);
    let mut t = List::new();
    t.push(1u32);
    assert_eq!(ids(&fsm.computeExitSet(&g, &t)), vec![2, 4]);
    let mut t2 = List::new();
    t2.push(2u32);
    assert_eq!(ids(&fsm.computeExitSet(&g, &t2)), vec![4]);
    let mut enabled = OrderedSet::new();
    enabled.add(1u32);
    enabled.add(2u32);
    // both transitions exit state 4; the source of 2 (state 2) is not a descendant of the
    // source of 1 (state 4), so transition 2 is preempted.
    assert_eq!(ids(&fsm.removeConflictingTransitions(&g, &enabled)), vec![1]);
}

#[test]
fn chart_select_transitions() {
    let fsm = chart();
    let g = global_with(&[1, 2, 4]);
    let ev = Event::new("go", 0, &None);
    let mut name_go = Event::error("x");
    name_go.name = "go".to_string();
    assert_eq!(ev.name, "go0");
    let r = fsm.selectTransitions(&g, &name_go, &|_t: u32| true);
    assert_eq!(ids(&r), vec![1]);
    let r2 = fsm.selectTransitions(&g, &name_go, &|_t: u32| false);
    assert_eq!(ids(&r2), Vec::<u32>::new());
    let mut next = Event::error("x");
    next.name = "next".to_string();
    assert_eq!(ids(&fsm.selectTransitions(&g, &next, &|_t: u32| true)), vec![2]);
    let at_a2 = global_with(&[1, 2, 5]);
    assert_eq!(ids(&fsm.selectEventlessTransitions(&at_a2, &|_t: u32| true)), vec![4]);
    assert_eq!(ids(&fsm.selectEventlessTransitions(&g, &|_t: u32| true)), Vec::<u32>::new());
}

#[test]
fn chart_exit_states() {
    let fsm = chart();
    let mut g = global_with(&[1, 2, 4]);
    g.statesToInvoke.add(4);
    let mut t = List::new();
    t.push(1u32);
    let ran = RefCell::new(Vec::new());
    let mut executed = Vec::new();
    let exited = fsm.exitStates(
        &mut g,
        &t,
        &|c: u32| {
            ran.borrow_mut().push(c);
            true
        },
        &mut executed,
    );
    assert!(executed.is_empty());
    assert_eq!(list_ids(&exited), vec![2, 4]);
    assert_eq!(ids(&g.configuration), vec![1]);
    assert!(g.statesToInvoke.isEmpty());
    assert!(ran.borrow().is_empty());
    // the deep history of A records its active atomic descendants
    assert!(g.historyValue.has(9));
    assert_eq!(ids(g.historyValue.get(9)), vec![4]);
}

#[test]
fn chart_entry_set_through_history() {
    let fsm = chart();
    let mut t = List::new();
    t.push(6u32);
    // without a recorded history the default transition of the history state is taken
    let g = global_with(&[1, 3, 7, 8]);
    let mut enter = OrderedSet::new();
    let mut default_entry = OrderedSet::new();
    let mut content: HashTable<u32, u32> = HashTable::new();
    fsm.computeEntrySet(&g, &t, &mut enter, &mut default_entry, &mut content);
    assert_eq!(ids(&enter), vec![5, 2]);
    assert!(default_entry.isEmpty());
    assert_eq!(*content.get(2), 7);
    // with a recorded history its value is entered
    let mut h = global_with(&[1, 3, 7, 8]);
    let mut value = OrderedSet::new();
    value.add(4u32);
    h.historyValue.put(9, &value);
    let mut enter2 = OrderedSet::new();
    let mut default_entry2 = OrderedSet::new();
    let mut content2: HashTable<u32, u32> = HashTable::new();
    fsm.computeEntrySet(&h, &t, &mut enter2, &mut default_entry2, &mut content2);
    assert_eq!(ids(&enter2), vec![4, 2]);
    assert!(!content2.has(2));
}

#[test]
fn chart_entering_a_compound_state_enters_its_initial_state() {
    let fsm = chart();
    let g = global_with(&[1]);
    let mut enter = OrderedSet::new();
    let mut default_entry = OrderedSet::new();
    let mut content: HashTable<u32, u32> = HashTable::new();
    fsm.addDescendantStatesToEnter(&g, 2, &mut enter, &mut default_entry, &mut content);
    assert_eq!(ids(&enter), vec![2, 4]);
    assert_eq!(ids(&default_entry), vec![2]);
    let mut enter2 = OrderedSet::new();
    fsm.addAncestorStatesToEnter(&g, 7, 1, &mut enter2, &mut default_entry, &mut content);
    assert_eq!(ids(&enter2), vec![3, 7, 8]);
}

#[test]
fn chart_microstep_into_parallel_state() {
    let fsm = chart();
    let mut g = global_with(&[1, 2, 4]);
    g.running = true;
    let mut queue: Queue<Event> = Queue::new();
    let mut t = List::new();
    t.push(1u32);
    let ran = RefCell::new(Vec::new());
    let mut executed = Vec::new();
    fsm.microstep(
        &mut g,
        &t,
        &mut queue,
        &|c: u32| {
            ran.borrow_mut().push(c);
            c != 3
        },
        &mut executed,
    );
    assert_eq!(ids(&g.configuration), vec![1, 3, 7, 8]);
    assert_eq!(*ran.borrow(), vec![1, 3]);
    assert_eq!(executed, vec![(1, true), (3, false)]);
    assert!(queue.isEmpty());
    assert!(g.running);
}

#[test]
fn chart_reaching_a_top_level_final_state_stops() {
    let fsm = chart();
    let mut g = global_with(&[1, 2, 5]);
    g.running = true;
    let mut queue: Queue<Event> = Queue::new();
    let mut t = List::new();
    t.push(4u32);
    let mut executed = Vec::new();
    fsm.microstep(&mut g, &t, &mut queue, &|_c: u32| true, &mut executed);
    assert_eq!(ids(&g.configuration), vec![1, 6]);
    assert!(!g.running);
    let done = fsm.exitInterpreter(&mut g, &|_c: u32| true, &mut executed);
    assert!(g.configuration.isEmpty());
    assert_eq!(done.len(), 1);
}


#[test]
fn chart_names() {
    let fsm = chart();
    let events = vec!["a".to_string(), "go".to_string()];
    assert!(fsm.nameMatch(&events, &"go".to_string()));
    assert!(!fsm.nameMatch(&events, &"g".to_string()));
    let mut ev = Event::error("x");
    ev.name = "invoke.cancel".to_string();
    assert!(fsm.isCancelEvent(&ev));
    ev.name = "cancel".to_string();
    assert!(!fsm.isCancelEvent(&ev));
}

#[test]
fn history_and_transition_type_names() {
    assert_eq!(map_history_type(&"deep".to_string()), HistoryType::Deep);
    assert_eq!(map_history_type(&"Shallow".to_string()), HistoryType::Shallow);
    assert_eq!(map_history_type(&"".to_string()), HistoryType::Unset);
    assert_eq!(map_transition_type(&"INTERNAL".to_string()), TransitionType::Internal);
    assert_eq!(map_transition_type(&"external".to_string()), TransitionType::External);
    assert_eq!(map_transition_type(&"".to_string()), TransitionType::External);
}

#[test]
fn events_are_named() {
    let ev = Event::new("done.state.", 17, &None);
    assert_eq!(ev.name, "done.state.17");
    assert_eq!(ev.etype, EventType::external);
    let err = Event::error("execution");
    assert_eq!(err.name, "error.execution");
    assert_eq!(err.etype, EventType::platform);
    assert!(err.data.is_none());
    let copy = err.get_copy();
    assert_eq!(copy.name, "error.execution");
}

#[test]
fn global_data_starts_empty() {
    let g = GlobalData::new();
    assert!(g.configuration.isEmpty());
    assert!(!g.running);
    assert_eq!(g.version, "1.0");
}

#[test]
fn states_are_found_by_name_and_checked() {
    let mut fsm = chart();
    assert_eq!(fsm.get_state_by_name(&"s5".to_string()).id, 5);
    assert_eq!(fsm.get_state_by_name(&"s1".to_string()).doc_id, 1);
    assert!(fsm.valid());
    fsm.states[3].doc_id = 0;
    assert!(!fsm.valid());
}

fn named(name: &str) -> Event {
    let mut e = Event::error("x");
    e.name = name.to_string();
    e
}

#[test]
fn macrostep_takes_eventless_transitions_first() {
    let fsm = chart();
    let mut g = global_with(&[1, 2, 5]);
    g.running = true;
    let mut queue: Queue<Event> = Queue::new();
    queue.enqueue(named("go"));
    let mut executed = Vec::new();
    let done = fsm.macrostep_round(&mut g, &mut queue, &|_t: u32| true, &|_c: u32| true, &mut executed);
    assert!(!done);
    assert_eq!(ids(&g.configuration), vec![1, 6]);
    assert!(!g.running);
    assert!(!queue.isEmpty());
    let done = fsm.macrostep_round(&mut g, &mut queue, &|_t: u32| true, &|_c: u32| true, &mut executed);
    assert!(done);
    assert!(!queue.isEmpty());
}

#[test]
fn macrostep_handles_internal_events_until_done() {
    let fsm = chart();
    let mut g = global_with(&[1, 2, 4]);
    g.running = true;
    let mut queue: Queue<Event> = Queue::new();
    queue.enqueue(named("go"));
    let mut executed = Vec::new();
    let done = fsm.macrostep_round(&mut g, &mut queue, &|_t: u32| true, &|_c: u32| true, &mut executed);
    assert!(!done);
    assert!(queue.isEmpty());
    assert_eq!(ids(&g.configuration), vec![1, 3, 7, 8]);
    assert_eq!(executed, vec![(1, true), (3, true)]);
    let done = fsm.macrostep_round(&mut g, &mut queue, &|_t: u32| true, &|_c: u32| true, &mut executed);
    assert!(done);
    assert_eq!(ids(&g.configuration), vec![1, 3, 7, 8]);
}

#[test]
fn macrostep_of_a_stopped_session_is_done() {
    let fsm = chart();
    let mut g = global_with(&[1, 2, 5]);
    let mut queue: Queue<Event> = Queue::new();
    let mut executed = Vec::new();
    assert!(fsm.macrostep_round(&mut g, &mut queue, &|_t: u32| true, &|_c: u32| true, &mut executed));
    assert_eq!(ids(&g.configuration), vec![1, 2, 5]);
    assert!(executed.is_empty());
}

#[test]
fn external_cancel_event_stops_the_session() {
    let fsm = chart();
    let mut g = global_with(&[1, 2, 4]);
    g.running = true;
    let mut queue: Queue<Event> = Queue::new();
    let mut executed = Vec::new();
    let cancelled = fsm.external_step(
        &mut g,
        &mut queue,
        &named("session.cancel"),
        &|_t: u32| true,
        &|_c: u32| true,
        &mut executed,
    );
    assert!(cancelled);
    assert!(!g.running);
    assert_eq!(ids(&g.configuration), vec![1, 2, 4]);
}

#[test]
fn external_event_takes_its_transitions() {
    let fsm = chart();
    let mut g = global_with(&[1, 2, 4]);
    g.running = true;
    let mut queue: Queue<Event> = Queue::new();
    let mut executed = Vec::new();
    let cancelled =
        fsm.external_step(&mut g, &mut queue, &named("next"), &|_t: u32| true, &|_c: u32| true, &mut executed);
    assert!(!cancelled);
    assert_eq!(ids(&g.configuration), vec![1, 2, 5]);
    assert!(g.running);
    let unknown =
        fsm.external_step(&mut g, &mut queue, &named("nothing"), &|_t: u32| true, &|_c: u32| true, &mut executed);
    assert!(!unknown);
    assert_eq!(ids(&g.configuration), vec![1, 2, 5]);
}

fn invoke(id: u32, invokeid: u32, autoforward: bool) -> Invoke {
    Invoke { doc_id: id, id, name: format!("i{}", id), invokeid, autoforward }
}

#[test]
fn invokes_of_the_configuration_and_of_entered_states() {
    let mut fsm = chart();
    fsm.states[1].invoke = vec![invoke(5, 7, true), invoke(3, 8, false)];
    fsm.states[3].invoke = vec![invoke(9, 7, false)];
    let mut g = global_with(&[1, 2, 4]);
    let mut ev = named("x");
    ev.invokeid = 7;
    let (finalize, forward) = fsm.event_invokes(&g, &ev);
    assert_eq!(finalize, vec![5, 9]);
    assert_eq!(forward, vec![5]);
    g.statesToInvoke.add(4);
    g.statesToInvoke.add(2);
    assert_eq!(fsm.invokes_to_start(&mut g), vec![3, 5, 9]);
    assert!(g.statesToInvoke.isEmpty());
    assert_eq!(ids(&g.configuration), vec![1, 2, 4]);
}
