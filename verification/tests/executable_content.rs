use rufsm::collections::Queue;
use rufsm::executable_content::{
    execute_send, parse_duration_to_milliseconds, send_id, send_plan, Raise, SendOutcome, SendPlan,
};
use rufsm::scxml_event_io_processor::ScxmlEventIOProcessor;
use rufsm::fsm::{Event, EventType};

#[test]
fn delay_parse() {
    assert_eq!(parse_duration_to_milliseconds("6.7s"), 6700);
    assert_eq!(parse_duration_to_milliseconds("0.5d"), 12 * 60 * 60 * 1000);
    assert_eq!(parse_duration_to_milliseconds("1m"), 60 * 1000);
    assert_eq!(parse_duration_to_milliseconds("0.001s"), 1);
    assert_eq!(parse_duration_to_milliseconds("6.7S"), 6700);
    assert_eq!(parse_duration_to_milliseconds("0.5D"), 12 * 60 * 60 * 1000);
    assert_eq!(parse_duration_to_milliseconds("1M"), 60 * 1000);
    assert_eq!(parse_duration_to_milliseconds("0.001S"), 1);

    assert_eq!(parse_duration_to_milliseconds("x1S"), -1);
    assert_eq!(parse_duration_to_milliseconds("1Sx"), -1);
}

#[test]
fn duration_edge_cases() {
    assert_eq!(parse_duration_to_milliseconds(""), 0);
    assert_eq!(parse_duration_to_milliseconds("5"), 0);
    assert_eq!(parse_duration_to_milliseconds("2ms"), 2);
    assert_eq!(parse_duration_to_milliseconds("2MS"), 2);
    assert_eq!(parse_duration_to_milliseconds("1.5ms"), 2);
    assert_eq!(parse_duration_to_milliseconds("1.4ms"), 1);
    assert_eq!(parse_duration_to_milliseconds(".5s"), 500);
    assert_eq!(parse_duration_to_milliseconds("2h"), 2 * 60 * 60 * 1000);
    assert_eq!(parse_duration_to_milliseconds("1.s"), -1);
    assert_eq!(parse_duration_to_milliseconds("s"), -1);
    assert_eq!(parse_duration_to_milliseconds("3w"), -1);
    assert_eq!(parse_duration_to_milliseconds("99999999999999999999d"), i64::MAX);
}

#[test]
fn raise_puts_internal_event_last() {
    let mut q: Queue<Event> = Queue::new();
    q.enqueue(Event::new("first", 1, &None));
    let mut r = Raise::new();
    assert_eq!(r.event, "");
    r.event = "go".to_string();
    assert!(r.execute(&mut q));
    let first = q.dequeue();
    assert_eq!(first.name, "first1");
    let raised = q.dequeue();
    assert_eq!(raised.name, "go");
    assert_eq!(raised.etype, EventType::internal);
    assert!(q.isEmpty());
}

#[test]
fn send_plans() {
    let scxml = "http://www.w3.org/TR/scxml/#SCXMLEventProcessor".to_string();
    assert_eq!(send_plan(0, None, "", ""), SendPlan::Immediate(scxml.clone()));
    assert_eq!(send_plan(500, None, "", "scxml"), SendPlan::Delayed(500, "scxml".to_string()));
    assert_eq!(send_plan(0, Some("1.5s"), "#_parent", ""), SendPlan::Delayed(1500, scxml.clone()));
    assert_eq!(send_plan(0, Some("1.5s"), "#_internal", ""), SendPlan::ErrorExecution);
    assert_eq!(send_plan(0, Some("later"), "", ""), SendPlan::ErrorExecution);
    assert_eq!(send_plan(0, None, "#_internal", ""), SendPlan::Immediate(scxml));
    assert_eq!(send_plan(u64::MAX, None, "", "x"), SendPlan::ErrorExecution);
}

#[test]
fn send_ids() {
    assert_eq!(send_id("", "", "s1", 7), None);
    assert_eq!(send_id("", "id1", "s1", 7), Some("id1".to_string()));
    assert_eq!(send_id("loc", "id1", "s1", 7), Some("s1.7".to_string()));
}

#[test]
fn sends_are_carried_out() {
    let p = ScxmlEventIOProcessor::new();
    let children = vec![("inv".to_string(), 8u32)];
    let mut q: Queue<Event> = Queue::new();
    let mut ev = Event::new("go", 1, &None);
    ev.sendid = 12;
    match execute_send(&p, 3, None, &children, 0, Some("-"), "", "", ev, &mut q) {
        SendOutcome::Failed => {}
        other => panic!("unexpected {:?}", other),
    }
    let err = q.dequeue();
    assert_eq!(err.name, "error.execution");
    assert_eq!(err.sendid, 12);
    assert_eq!(err.etype, EventType::platform);
    match execute_send(&p, 3, None, &children, 0, None, "", "http://other", Event::new("go", 2, &None), &mut q) {
        SendOutcome::Failed => assert_eq!(q.dequeue().name, "error.execution"),
        other => panic!("unexpected {:?}", other),
    }
    match execute_send(&p, 3, None, &children, 200, None, "", "scxml", Event::new("go", 3, &None), &mut q) {
        SendOutcome::Scheduled(ms, e) => {
            assert_eq!(ms, 200);
            assert_eq!(e.name, "go3");
        }
        other => panic!("unexpected {:?}", other),
    }
    assert!(q.isEmpty());
    match execute_send(&p, 3, None, &children, 0, None, "#_internal", "", Event::new("go", 4, &None), &mut q) {
        SendOutcome::Raised => {
            let e = q.dequeue();
            assert_eq!(e.name, "go4");
            assert_eq!(e.etype, EventType::internal);
        }
        other => panic!("unexpected {:?}", other),
    }
    match execute_send(&p, 3, None, &children, 0, None, "#_inv", "", Event::new("go", 5, &None), &mut q) {
        SendOutcome::Delivered(to, e) => {
            assert_eq!(to, 8);
            assert_eq!(e.origin, "#_scxml_3");
        }
        other => panic!("unexpected {:?}", other),
    }
    match execute_send(&p, 3, None, &children, 0, None, "", "", Event::new("go", 6, &None), &mut q) {
        SendOutcome::External(e) => assert_eq!(e.name, "go6"),
        other => panic!("unexpected {:?}", other),
    }
    assert!(q.isEmpty());
    let mut lost = Event::new("go", 7, &None);
    lost.sendid = 21;
    match execute_send(&p, 3, None, &children, 0, None, "#_nobody", "", lost, &mut q) {
        SendOutcome::Failed => {
            assert_eq!(q.dequeue().name, "error.communication");
            let e = q.dequeue();
            assert_eq!(e.name, "error.execution");
            assert_eq!(e.sendid, 21);
        }
        other => panic!("unexpected {:?}", other),
    }
    assert!(q.isEmpty());
}
