use rufsm::fsm::State;
use rufsm::test_tracer::TestTracer;
use rufsm::tracer::TraceMode;

fn names(v: &[&str]) -> Vec<String> {
    v.iter().map(|s| s.to_string()).collect()
}

#[test]
fn test_tracer_keeps_active_states() {
    let mut t = TestTracer::new();
    assert!(t.get_fsm_config().is_empty());
    let a = State::new(&"a".to_string());
    let b = State::new(&"b".to_string());
    t.trace_enter_state(&a);
    t.trace_enter_state(&b);
    t.trace_enter_state(&a);
    let mut cfg = t.get_fsm_config();
    cfg.sort();
    assert_eq!(cfg, names(&["a", "b"]));
    t.trace_exit_state(&a);
    assert_eq!(t.get_fsm_config(), names(&["b"]));
    t.trace_exit_state(&a);
    assert_eq!(t.get_fsm_config(), names(&["b"]));
}

#[test]
fn final_configuration_is_verified() {
    let config = names(&["s1", "s2", "pass"]);
    assert_eq!(
        TestTracer::verify_final_configuration(&names(&["pass", "s1"]), &config),
        Ok("pass,s1".to_string())
    );
    assert_eq!(
        TestTracer::verify_final_configuration(&names(&["s1", "fail", "s3"]), &config),
        Err("fail".to_string())
    );
    assert_eq!(TestTracer::verify_final_configuration(&names(&[]), &config), Ok(String::new()));
}

#[test]
fn test_tracer_trace_modes() {
    let mut t = TestTracer::new();
    assert!(!t.is_trace(TraceMode::EVENTS));
    t.enable_trace(TraceMode::ALL);
    assert!(t.is_trace(TraceMode::EVENTS));
    t.disable_trace(TraceMode::ALL);
    assert!(!t.is_trace(TraceMode::EVENTS));
}
