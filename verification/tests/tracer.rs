use rufsm::tracer::{DefaultTracer, DefaultTracerFactory, TraceMode, TraceRequest};

#[test]
fn trace_mode_from_name_ignores_case() {
    assert_eq!(TraceMode::from_name("methods"), Some(TraceMode::METHODS));
    assert_eq!(TraceMode::from_name("States"), Some(TraceMode::STATES));
    assert_eq!(TraceMode::from_name("EVENTS"), Some(TraceMode::EVENTS));
    assert_eq!(TraceMode::from_name("arguments"), Some(TraceMode::ARGUMENTS));
    assert_eq!(TraceMode::from_name("Results"), Some(TraceMode::RESULTS));
    assert_eq!(TraceMode::from_name("all"), Some(TraceMode::ALL));
    assert_eq!(TraceMode::from_name("none"), None);
    assert_eq!(TraceMode::from_name("state"), None);
    assert_eq!("events".parse::<TraceMode>(), Ok(TraceMode::EVENTS));
    assert_eq!("x".parse::<TraceMode>(), Err(()));
}

#[test]
fn trace_mode_from_arguments() {
    let none: Vec<(&'static str, String)> = vec![("includePaths", "a".to_string())];
    assert_eq!(TraceMode::from_arguments(&none), TraceMode::STATES);
    let given: Vec<(&'static str, String)> =
        vec![("includePaths", "a".to_string()), ("trace", "Events".to_string())];
    assert_eq!(TraceMode::from_arguments(&given), TraceMode::EVENTS);
}

#[test]
fn tracer_flags_on_and_off() {
    let mut t = DefaultTracer::new();
    assert_eq!(t.trace_mode(), TraceMode::NONE);
    assert!(!t.is_trace(TraceMode::STATES));
    t.enable_trace(TraceMode::STATES);
    assert!(t.is_trace(TraceMode::STATES));
    assert!(!t.is_trace(TraceMode::EVENTS));
    assert_eq!(t.trace_mode(), TraceMode::STATES);
    t.enable_trace(TraceMode::EVENTS);
    assert_eq!(t.trace_mode(), TraceMode::EVENTS);
    t.enable_trace(TraceMode::ALL);
    assert!(t.is_trace(TraceMode::RESULTS));
    assert_eq!(t.trace_mode(), TraceMode::ALL);
    t.disable_trace(TraceMode::ALL);
    t.disable_trace(TraceMode::EVENTS);
    assert_eq!(t.trace_mode(), TraceMode::STATES);
    t.disable_trace(TraceMode::STATES);
    assert_eq!(t.trace_mode(), TraceMode::NONE);
}

#[test]
fn trace_control_events() {
    let mut t = DefaultTracerFactory::new().create();
    assert_eq!(t.event_external_received("trace.events.on"), TraceRequest::Enable(TraceMode::EVENTS));
    assert!(t.is_trace(TraceMode::EVENTS));
    assert_eq!(t.event_external_received("trace.Methods.ON"), TraceRequest::Enable(TraceMode::METHODS));
    assert!(t.is_trace(TraceMode::METHODS));
    assert_eq!(t.event_external_received("trace.events.Off"), TraceRequest::Disable(TraceMode::EVENTS));
    assert!(!t.is_trace(TraceMode::EVENTS));
    assert_eq!(t.event_external_received("trace.events.maybe"), TraceRequest::IllegalFlag);
    assert_eq!(t.event_external_received("trace.nothing.on"), TraceRequest::UnknownMode);
    assert_eq!(t.event_external_received("trace.a.b.c"), TraceRequest::NoRequest);
    assert_eq!(t.event_external_received("go"), TraceRequest::NoRequest);
    assert!(t.is_trace(TraceMode::METHODS));
    assert!(!t.is_trace(TraceMode::EVENTS));
}
