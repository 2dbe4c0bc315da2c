use rufsm::console::{console_command, handle_trace, ConsoleCommand};
use rufsm::fsm::EventType;
use rufsm::tracer::{DefaultTracer, TraceMode, TraceRequest};

#[test]
fn console_trace_commands() {
    assert_eq!(console_command("tron all"), Some(ConsoleCommand::Trace("all".to_string(), true)));
    assert_eq!(console_command("TRON ALL"), Some(ConsoleCommand::Trace("all".to_string(), true)));
    assert_eq!(
        console_command("Troff Events"),
        Some(ConsoleCommand::Trace("events".to_string(), false))
    );
    assert_eq!(console_command("tron x"), Some(ConsoleCommand::Trace("x".to_string(), true)));
}

#[test]
fn console_help_and_events() {
    assert_eq!(console_command("help"), Some(ConsoleCommand::Help));
    assert_eq!(console_command("HELP"), Some(ConsoleCommand::Help));
    assert_eq!(console_command(""), Some(ConsoleCommand::Help));
    assert_eq!(console_command("Go"), Some(ConsoleCommand::Event("Go".to_string())));
    assert_eq!(console_command("tron"), Some(ConsoleCommand::Event("tron".to_string())));
    assert_eq!(console_command("troff"), Some(ConsoleCommand::Event("troff".to_string())));
}

#[test]
fn console_refuses_a_cut_inside_a_character() {
    assert_eq!(console_command("tron\u{e4}\u{e4}"), None);
}

#[test]
fn trace_command_reaches_the_tracer() {
    let on = handle_trace("Events", true).unwrap();
    assert_eq!(on.name, "trace.Events.on");
    assert_eq!(on.etype, EventType::platform);
    let mut t = DefaultTracer::new();
    assert_eq!(t.event_external_received(&on.name), TraceRequest::Enable(TraceMode::EVENTS));
    assert!(t.is_trace(TraceMode::EVENTS));
    let off = handle_trace("events", false).unwrap();
    assert_eq!(off.name, "trace.events.off");
    assert_eq!(t.event_external_received(&off.name), TraceRequest::Disable(TraceMode::EVENTS));
    assert!(!t.is_trace(TraceMode::EVENTS));
    assert!(handle_trace("nothing", true).is_none());
}
