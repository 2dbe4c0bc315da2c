use rufsm::fsm::{Event, EventType};
use rufsm::scxml_event_io_processor::{
    parse_session_id, send_target, EventIOProcessorHandle, ScxmlEventIOProcessor, SendAction,
    SendTarget,
};

#[test]
fn send_targets_are_classified() {
    assert_eq!(send_target(""), SendTarget::External);
    assert_eq!(send_target("#_internal"), SendTarget::Internal);
    assert_eq!(send_target("#_parent"), SendTarget::Parent);
    assert_eq!(send_target("#_scxml_42"), SendTarget::Session(42));
    assert_eq!(send_target("#_scxml_x"), SendTarget::BadSession);
    assert_eq!(send_target("#_child1"), SendTarget::Invoked("child1".to_string()));
    assert_eq!(send_target("#_internalx"), SendTarget::Invoked("internalx".to_string()));
    assert_eq!(send_target("http://x"), SendTarget::Malformed);
}

#[test]
fn session_ids_parse_as_u32() {
    assert_eq!(parse_session_id("12"), Some(12));
    assert_eq!(parse_session_id("+7"), Some(7));
    assert_eq!(parse_session_id("4294967295"), Some(u32::MAX));
    assert_eq!(parse_session_id("4294967296"), None);
    assert_eq!(parse_session_id(""), None);
    assert_eq!(parse_session_id("+"), None);
    assert_eq!(parse_session_id("-1"), None);
    assert_eq!(parse_session_id("1a"), None);
}

#[test]
fn processor_location() {
    let p = ScxmlEventIOProcessor::new();
    assert_eq!(p.location, "#_scxml_");
    assert_eq!(p.get_location(5), "#_scxml_5");
    assert_eq!(send_target(&p.get_location(5)), SendTarget::Session(5));
}

#[test]
fn send_stamps_and_routes_events() {
    let p = ScxmlEventIOProcessor::new();
    let children = vec![("inv1".to_string(), 9u32)];
    match p.send(3, Some(1), &children, "", Event::new("go", 1, &None)) {
        SendAction::EnqueueExternal(e) => {
            assert_eq!(e.name, "go1");
            assert_eq!(e.origintype, "scxml");
            assert_eq!(e.origin, "#_scxml_3");
        }
        other => panic!("unexpected {:?}", other),
    }
    match p.send(3, None, &children, "#_internal", Event::new("go", 2, &None)) {
        SendAction::EnqueueInternal(e) => {
            assert_eq!(e.name, "go2");
            assert_eq!(e.etype, EventType::internal);
        }
        other => panic!("unexpected {:?}", other),
    }
    let mut from_elsewhere = Event::new("go", 3, &None);
    from_elsewhere.origin = "there".to_string();
    match p.send(3, Some(1), &children, "#_parent", from_elsewhere) {
        SendAction::SendToSession(to, e) => {
            assert_eq!(to, 1);
            assert_eq!(e.origin, "there");
        }
        other => panic!("unexpected {:?}", other),
    }
    match p.send(3, None, &children, "#_scxml_17", Event::new("go", 4, &None)) {
        SendAction::SendToSession(to, _) => assert_eq!(to, 17),
        other => panic!("unexpected {:?}", other),
    }
    match p.send(3, None, &children, "#_inv1", Event::new("go", 5, &None)) {
        SendAction::SendToSession(to, _) => assert_eq!(to, 9),
        other => panic!("unexpected {:?}", other),
    }
    let mut lost = Event::new("go", 6, &None);
    lost.sendid = 44;
    lost.invokeid = 5;
    match p.send(3, None, &children, "#_inv2", lost) {
        SendAction::EnqueueInternal(e) => {
            assert_eq!(e.name, "error.communication");
            assert_eq!(e.etype, EventType::platform);
            assert_eq!(e.sendid, 44);
            assert_eq!(e.invokeid, 5);
        }
        other => panic!("unexpected {:?}", other),
    }
    match p.send(3, None, &children, "#_scxml_x", Event::new("go", 8, &None)) {
        SendAction::EnqueueInternal(e) => assert_eq!(e.name, "error.communication"),
        other => panic!("unexpected {:?}", other),
    }
    match p.send(3, None, &children, "elsewhere", Event::new("go", 7, &None)) {
        SendAction::EnqueueInternal(e) => assert_eq!(e.name, "error.execution"),
        other => panic!("unexpected {:?}", other),
    }
}

#[test]
fn handle_shutdown_cancels_each_session() {
    let mut h = EventIOProcessorHandle::new();
    assert!(h.shutdown().is_empty());
    h.add_fsm(4);
    h.add_fsm(2);
    h.add_fsm(4);
    let sent = h.shutdown();
    assert_eq!(sent.iter().map(|(id, _)| *id).collect::<Vec<u32>>(), vec![4, 2]);
    for (_, e) in &sent {
        assert_eq!(e.name, "session.cancel");
        assert_eq!(e.etype, EventType::external);
    }
    assert_eq!(h.fsms, vec![4, 2]);
}
