use rufsm::fsm::{HistoryType, TransitionType};
use rufsm::model_builder::ModelBuilder;
use rufsm::reader::{ReaderError, ReaderState};

fn attrs(pairs: &[(&str, &str)]) -> Vec<(String, String)> {
    pairs.iter().map(|(k, v)| (k.to_string(), v.to_string())).collect()
}

fn s(t: &str) -> String {
    t.to_string()
}

#[test]
fn reads_a_well_formed_document() {
    let mut r = ReaderState::new();
    let none = attrs(&[]);
    assert_eq!(
        r.start_element("scxml", &attrs(&[("name", "machine"), ("datamodel", "ecmascript"), ("version", "1.0")])),
        Ok(())
    );
    assert_eq!(r.name, "machine");
    assert_eq!(r.datamodel, "ecmascript");
    assert_eq!(r.version, "1.0");
    assert_eq!(r.start_element("state", &attrs(&[("id", "a")])), Ok(()));
    assert_eq!(r.start_element("onentry", &none), Ok(()));
    assert_eq!(r.start_element("send", &attrs(&[("event", "go"), ("target", "#_parent")])), Ok(()));
    assert_eq!(r.start_element("param", &attrs(&[("name", "x")])), Ok(()));
    assert_eq!(r.end_element("param"), Ok(()));
    assert_eq!(r.end_element("send"), Ok(()));
    assert_eq!(r.end_element("onentry"), Ok(()));
    assert_eq!(r.start_element("transition", &attrs(&[("event", "go"), ("target", "b")])), Ok(()));
    assert_eq!(r.start_element("cancel", &attrs(&[("sendid", "s1")])), Ok(()));
    assert_eq!(r.end_element("cancel"), Ok(()));
    assert_eq!(r.end_element("transition"), Ok(()));
    assert_eq!(r.end_element("state"), Ok(()));
    assert_eq!(r.start_element("final", &attrs(&[("id", "b")])), Ok(()));
    assert_eq!(r.end_element("final"), Ok(()));
    assert_eq!(r.end_element("scxml"), Ok(()));
    assert!(r.tags.is_empty());
    assert!(r.in_scxml);
}

#[test]
fn elements_must_stand_in_their_parents() {
    let mut r = ReaderState::new();
    let none = attrs(&[]);
    assert_eq!(r.start_element("state", &none), Err(ReaderError::WrongParent(s("state"), s(""))));
    let mut r = ReaderState::new();
    assert_eq!(r.start_element("scxml", &none), Ok(()));
    assert_eq!(r.start_element("transition", &none), Err(ReaderError::WrongParent(s("transition"), s("scxml"))));
    assert_eq!(r.tags, vec![s("scxml"), s("transition")]);
    let mut r = ReaderState::new();
    assert_eq!(r.start_element("scxml", &none), Ok(()));
    assert_eq!(r.start_element("state", &none), Ok(()));
    assert_eq!(r.start_element("else", &none), Err(ReaderError::WrongParent(s("else"), s("state"))));
}

#[test]
fn only_one_scxml_element() {
    let mut r = ReaderState::new();
    let none = attrs(&[]);
    assert_eq!(r.start_element("scxml", &none), Ok(()));
    assert_eq!(r.start_element("scxml", &none), Err(ReaderError::SecondScxml));
}

#[test]
fn send_and_cancel_attribute_rules() {
    let mut r = ReaderState::new();
    let none = attrs(&[]);
    r.start_element("scxml", &none).unwrap();
    r.start_element("state", &none).unwrap();
    r.start_element("onexit", &none).unwrap();
    assert_eq!(
        r.start_element("send", &attrs(&[("event", "a"), ("eventexpr", "b")])),
        Err(ReaderError::ConflictingAttributes(s("send"), s("event"), s("eventexpr")))
    );
    r.end_element("send").unwrap();
    assert_eq!(
        r.start_element("send", &attrs(&[("delay", "1s"), ("type", "_internal")])),
        Err(ReaderError::NotSupported(s("send"), s("delay")))
    );
    r.end_element("send").unwrap();
    assert_eq!(r.start_element("send", &attrs(&[("delay", ""), ("type", "_internal")])), Ok(()));
    r.end_element("send").unwrap();
    assert_eq!(
        r.start_element("cancel", &none),
        Err(ReaderError::MissingEither(s("cancel"), s("sendid"), s("sendidexpr")))
    );
    r.end_element("cancel").unwrap();
    assert_eq!(
        r.start_element("cancel", &attrs(&[("sendid", "a"), ("sendidexpr", "b")])),
        Err(ReaderError::ConflictingAttributes(s("cancel"), s("sendid"), s("sendidexpr")))
    );
}

#[test]
fn include_rules_and_unknown_elements() {
    let mut r = ReaderState::new();
    let none = attrs(&[]);
    r.start_element("scxml", &none).unwrap();
    assert_eq!(
        r.start_element("include", &none),
        Err(ReaderError::MissingAttribute(s("include"), s("href")))
    );
    assert_eq!(
        r.start_element("include", &attrs(&[("href", "x.xml")])),
        Err(ReaderError::NotSupported(s("include"), s("parse")))
    );
    assert_eq!(
        r.start_element("include", &attrs(&[("href", "x.xml"), ("parse", "text"), ("xpointer", "p")])),
        Err(ReaderError::NotSupported(s("include"), s("xpointer")))
    );
    assert_eq!(r.start_element("include", &attrs(&[("href", "x.xml"), ("parse", "text")])), Ok(()));
    assert_eq!(r.tags, vec![s("scxml")]);
    assert_eq!(r.start_element("anything", &none), Ok(()));
    assert_eq!(r.end_element("anything"), Ok(()));
}

#[test]
fn end_tags_must_match() {
    let mut r = ReaderState::new();
    let none = attrs(&[]);
    r.start_element("scxml", &none).unwrap();
    r.start_element("state", &none).unwrap();
    assert_eq!(r.end_element("final"), Err(ReaderError::IllegalEndTag(s("final"), s("state"))));
    assert_eq!(r.end_element("state"), Ok(()));
    r.start_element("state", &none).unwrap();
    r.start_element("invoke", &none).unwrap();
    assert_eq!(
        r.start_element("finalize", &none),
        Err(ReaderError::NotSupported(s("finalize"), s("")))
    );
}

#[test]
fn reader_initial_attribute() {
    let _r = rufsm::reader::read_from_xml("<scxml initial='Main'><state id='Main' initial='A'></state></scxml>".to_string());
}

#[test]
fn reader_wrong_end_tag_should_panic() {
    let r = rufsm::reader::read_from_xml("<scxml initial='Main'><state id='Main' initial='A'></parallel></scxml>".to_string());
    assert!(r.is_err(), "Shall result in error");
}

#[test]
fn tests_initial_attribute() {
    let _r = rufsm::reader::read_from_xml("<scxml initial='Main'><state id='Main' initial='A'></state></scxml>".to_string());
}

#[test]
fn transition_type_internal() {
    let _r = rufsm::reader::read_from_xml(
        "<scxml><state><transition type='internal'></transition></state></scxml>".to_string());
}

#[test]
fn transition_type_external() {
    let _r = rufsm::reader::read_from_xml(
        "<scxml><state><transition type='external'></transition></state></scxml>".to_string());
}

#[test]
fn reading_xml_applies_the_structure_rules() {
    let r = rufsm::reader::read_from_xml(
        "<scxml name='m' datamodel='rfsm-expression' version='1.0'><state id='a'><transition type='Internal' event='go'/></state><!-- c --><final id='f'/></scxml>"
            .to_string(),
    );
    let fsm = r.unwrap();
    assert_eq!(fsm.pseudo_root, 1);
    assert_eq!(fsm.states.len(), 3);
    assert_eq!(fsm.states[0].name, "__id1");
    assert_eq!(fsm.states[0].states, vec![2, 3]);
    assert_eq!(fsm.states[1].name, "a");
    assert_eq!(fsm.states[1].parent, 1);
    assert_eq!(fsm.states[1].transitions, vec![1]);
    assert_eq!(fsm.states[2].name, "f");
    assert!(fsm.states[2].is_final);
    assert_eq!(fsm.states[2].parent, 1);
    assert_eq!(fsm.transitions.len(), 1);
    assert_eq!(fsm.transitions[0].events, vec![s("go")]);
    assert_eq!(fsm.transitions[0].transition_type, TransitionType::Internal);
    assert_eq!(fsm.transitions[0].source, 2);
    assert!(fsm.transitions[0].target.is_empty());
    assert_eq!(
        rufsm::reader::read_from_xml("<scxml><state><transition type='bla'></transition></state></scxml>".to_string())
            .err(),
        Some(ReaderError::NotSupported(s("transition"), s("type")))
    );
    assert_eq!(
        rufsm::reader::read_from_xml("<scxml><transition/></scxml>".to_string()).err(),
        Some(ReaderError::WrongParent(s("transition"), s("scxml")))
    );
    assert_eq!(
        rufsm::reader::read_from_xml("<scxml><state><include href='x.xml' parse='xml'/></state></scxml>".to_string())
            .err(),
        Some(ReaderError::NotSupported(s("include"), s("parse")))
    );
    match rufsm::reader::read_from_xml("<scxml><state></scxml>".to_string()) {
        Err(ReaderError::Xml(_)) | Err(ReaderError::IllegalEndTag(_, _)) => {}
        other => panic!("unexpected {:?}", other.err()),
    }
}

#[test]
fn reading_builds_states_and_initial_transitions() {
    let fsm = rufsm::reader::read_from_xml(
        "<scxml initial='Main'><state id='Main' initial='A'></state></scxml>".to_string(),
    )
    .unwrap();
    assert_eq!(fsm.pseudo_root, 1);
    let names: Vec<&str> = fsm.states.iter().map(|s| s.name.as_str()).collect();
    assert_eq!(names, vec!["__id1", "Main", "A"]);
    assert_eq!(fsm.states[0].initial, 1);
    assert_eq!(fsm.states[0].states, vec![2]);
    assert_eq!(fsm.states[0].doc_id, 2);
    assert_eq!(fsm.states[1].parent, 1);
    assert_eq!(fsm.states[1].initial, 2);
    assert_eq!(fsm.states[1].doc_id, 4);
    assert_eq!(fsm.states[2].parent, 0);
    assert_eq!(fsm.transitions.len(), 2);
    assert_eq!(fsm.transitions[0].source, 1);
    assert_eq!(fsm.transitions[0].target, vec![2]);
    assert_eq!(fsm.transitions[0].doc_id, 1);
    assert_eq!(fsm.transitions[0].transition_type, TransitionType::Internal);
    assert_eq!(fsm.transitions[1].source, 2);
    assert_eq!(fsm.transitions[1].target, vec![3]);
    assert_eq!(fsm.transitions[1].doc_id, 3);
}

#[test]
fn reading_transitions_targets_and_history() {
    let fsm = rufsm::reader::read_from_xml(
        "<scxml><state id='s'><history id='h' type='deep'/><transition event='a  b' cond='x' target='t u'/></state><parallel id='t'/></scxml>"
            .to_string(),
    )
    .unwrap();
    let names: Vec<&str> = fsm.states.iter().map(|s| s.name.as_str()).collect();
    assert_eq!(names, vec!["__id1", "s", "h", "t", "u"]);
    assert_eq!(fsm.states[1].history, vec![3]);
    assert_eq!(fsm.states[2].parent, 2);
    assert_eq!(fsm.states[2].history_type, HistoryType::Deep);
    assert_eq!(fsm.states[1].transitions, vec![1]);
    let t = &fsm.transitions[0];
    assert_eq!(t.events, vec![s("a"), s("b")]);
    assert_eq!(t.cond, Some(s("x")));
    assert_eq!(t.target, vec![4, 5]);
    assert_eq!(t.transition_type, TransitionType::External);
    assert!(fsm.states[3].is_parallel);
    assert_eq!(fsm.states[3].parent, 1);
    assert_eq!(fsm.states[4].parent, 0);
}

#[test]
fn reading_initial_elements() {
    let fsm = rufsm::reader::read_from_xml(
        "<scxml><state id='s'><initial><transition target='a'/></initial><state id='a'/></state></scxml>".to_string(),
    )
    .unwrap();
    assert_eq!(fsm.states[1].initial, 1);
    assert!(fsm.states[1].transitions.is_empty());
    assert_eq!(fsm.transitions[0].target, vec![3]);
    assert_eq!(fsm.states[2].parent, 2);
    assert_eq!(
        rufsm::reader::read_from_xml(
            "<scxml><state id='s' initial='a'><initial><transition target='a'/></initial></state></scxml>".to_string()
        )
        .err(),
        Some(ReaderError::InitialTwice)
    );
    assert_eq!(
        rufsm::reader::read_from_xml("<scxml><state><history type='flat'/></state></scxml>".to_string()).err(),
        Some(ReaderError::NotSupported(s("history"), s("type")))
    );
}

#[test]
fn builder_steps_open_and_close_states() {
    let mut b = ModelBuilder::new();
    assert_eq!(b.start_element("", "scxml", &attrs(&[("id", "top")])), Ok(()));
    assert_eq!(b.start_element("scxml", "state", &attrs(&[("id", "x")])), Ok(()));
    assert_eq!(b.stack, vec![1, 2]);
    b.end_element();
    assert_eq!(b.stack, vec![1]);
    b.end_element();
    b.end_element();
    assert!(b.stack.is_empty());
    assert_eq!(b.start_element("", "transition", &attrs(&[])), Err(ReaderError::NoState));
    assert_eq!(b.fsm.states[1].parent, 1);
}

#[test]
fn reader_initial_attribute_should_panic() {
    let r = rufsm::reader::read_from_xml(
        "<scxml initial='Main'><state id='Main' initial='A'><initial><transition></transition></initial></state></scxml>"
            .to_string(),
    );
    assert_eq!(r.err(), Some(ReaderError::InitialTwice));
}

#[test]
fn tests_initial_attribute_should_panic() {
    let r = rufsm::reader::read_from_xml(
        "<scxml initial='Main'><state id='Main' initial='A'><initial><transition></transition></initial></state></scxml>"
            .to_string(),
    );
    assert!(r.is_err());
}

#[test]
fn read_models_are_checked_for_well_formedness() {
    let fsm = rufsm::reader::read_from_xml(
        "<scxml initial='Main'><state id='Main' initial='A'><state id='A'/></state></scxml>".to_string(),
    )
    .unwrap();
    assert!(fsm.is_well_formed());
    let looped = rufsm::reader::read_from_xml("<scxml><state id='a'><state id='a'/></state></scxml>".to_string())
        .unwrap();
    assert_eq!(looped.states[1].parent, 2);
    assert!(!looped.is_well_formed());
    let undeclared = rufsm::reader::read_from_xml("<scxml><state id='a'/></scxml>".to_string()).unwrap();
    assert!(undeclared.is_well_formed());
}
