use stake_tracker::debug::{CallTracer, CallType, Traces, Tracer};

const X: [u8; 20] = [1; 20];
const Y: [u8; 20] = [2; 20];
const Z: [u8; 20] = [3; 20];

#[test]
fn disabled_tracer_has_no_traces() {
    let mut t = Tracer::default();
    t.enter_child_span(&X, &Y, false, false, &[0; 4], &[1, 2], 100);
    t.exit_child_span(&[9], 5);
    assert_eq!(t.traces(), Traces::CallTraces(Vec::new()));
    assert!(Tracer::Disabled.as_call_tracer().is_none());
}

#[test]
fn nested_calls_fold_into_parent() {
    let mut t = Tracer::new_call_tracer();
    t.enter_child_span(&X, &Y, false, false, &[7, 0, 0, 0], &[1, 2], 1000);
    t.enter_child_span(&Y, &Z, true, false, &[0; 4], &[3], 500);
    t.exit_child_span(&[4, 5], 40);
    t.enter_child_span(&Y, &X, true, true, &[0; 4], &[], 400);
    t.exit_child_span(&[], 30);
    t.exit_child_span(&[6], 200);
    let Traces::CallTraces(traces) = t.traces();
    assert_eq!(traces.len(), 1);
    let root = &traces[0];
    assert_eq!(root.from, X);
    assert_eq!(root.to, Y);
    assert_eq!(root.value, [7, 0, 0, 0]);
    assert_eq!(root.call_type, CallType::Call);
    assert_eq!(root.input, vec![1, 2]);
    assert_eq!(root.output, vec![6]);
    assert_eq!(root.gas, 1000);
    assert_eq!(root.gas_used, 200);
    assert_eq!(root.calls.len(), 2);
    assert_eq!(root.calls[0].call_type, CallType::DelegateCall);
    assert_eq!(root.calls[0].output, vec![4, 5]);
    assert_eq!(root.calls[0].gas_used, 40);
    assert_eq!(root.calls[1].call_type, CallType::StaticCall);
    assert_eq!(root.calls[1].to, X);
}

#[test]
fn sibling_top_level_calls_stay_apart() {
    let mut c = CallTracer::new();
    c.enter_child_span(&X, &Y, false, false, &[0; 4], &[], 10);
    c.exit_child_span(&[1], 1);
    c.enter_child_span(&X, &Z, false, false, &[0; 4], &[], 20);
    c.exit_child_span(&[2], 2);
    assert_eq!(c.traces.len(), 2);
    assert_eq!(c.traces[1].to, Z);
    let t = Tracer::CallTracer(c);
    assert_eq!(t.as_call_tracer().map(|c| c.traces.len()), Some(2));
}
