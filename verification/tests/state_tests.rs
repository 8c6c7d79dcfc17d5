use flowstorm::is_coord_in_scope;
use flowstorm::state::BindTrace;
use flowstorm::state::DebuggerState;
use flowstorm::state::ExprTrace;
use flowstorm::state::FnCallTrace;
use flowstorm::state::Form;
use flowstorm::state::FlowExecution;

#[test]
fn is_coord_in_scope_test() {
    assert!(is_coord_in_scope(&vec![], &vec![1, 2]));
    assert!(is_coord_in_scope(&vec![1, 2], &vec![1, 2]));
    assert!(is_coord_in_scope(&vec![1, 2], &vec![1, 2, 3]));
    assert!(!is_coord_in_scope(&vec![1, 2, 3], &vec![1, 2]));
}

fn state_with_form(flow_id: i64, form_id: i64, src: &str) -> DebuggerState {
    let mut state = DebuggerState::new();
    let form = Form::new(form_id, "test-ns".to_string(), src.to_string(), 1).unwrap();
    state.add_flow_form(flow_id, form_id, form, 1);
    state
}

#[test]
fn scenario_hot_and_executing_coords_test() {
    let mut state = state_with_form(7, 1, "(if (zero? n) 1 n)");
    state.add_exec_trace(7, 0, ExprTrace::new(1, "5".to_string(), vec![1, 1], false, 10));
    state.add_exec_trace(7, 0, ExprTrace::new(1, "false".to_string(), vec![1], false, 11));
    state.add_exec_trace(7, 0, ExprTrace::new(1, "5".to_string(), vec![3], true, 12));
    let thread = &state.flows[0].threads[0];
    assert!(thread.is_coord_hot(1, &vec![1, 1]));
    assert!(!thread.is_coord_hot(1, &vec![2]));
    // cursor starts at index 0; jump to the last event to inspect it
    let mut state2 = state;
    {
        let fl = &mut state2.flows[0];
        let th = &mut fl.threads[0];
        th.jump_to(&2);
    }
    let th = &state2.flows[0].threads[0];
    assert!(th.execution.is_current_coord_executing(1, &[3]));
    assert!(!th.execution.is_current_coord_executing(1, &[1, 1]));
}

#[test]
fn scenario_call_stack_shape_test() {
    let mut state = state_with_form(7, 1, "(f (g))");
    state.add_fn_call_trace(7, 0, FnCallTrace::new(1, "ns".to_string(), "f".to_string(), "[]".to_string(), 1));
    state.add_fn_call_trace(7, 0, FnCallTrace::new(1, "ns".to_string(), "g".to_string(), "[]".to_string(), 2));
    state.add_exec_trace(7, 0, ExprTrace::new(1, "1".to_string(), vec![1], true, 3));
    state.add_exec_trace(7, 0, ExprTrace::new(1, "1".to_string(), vec![], true, 4));
    let thread = &state.flows[0].threads[0];
    let tree = thread.call_stack_tree.as_ref().unwrap();
    assert_eq!(tree.root, 0);
    assert_eq!(tree.nodes.len(), 2);
    assert_eq!(tree.nodes[tree.root].childs, vec![1]);
    assert_eq!(tree.nodes[1].childs.len(), 0);
    assert_eq!(tree.stack.len(), 0);
}

#[test]
fn scenario_current_locals_last_bind_wins_test() {
    let mut state = state_with_form(7, 1, "(let [n 1] (let [n 2] n))");
    state.add_bind_trace(7, 0, BindTrace::new(1, "n".to_string(), "outer".to_string(), vec![], 10));
    state.add_bind_trace(
        7,
        0,
        BindTrace::new(1, "n".to_string(), "inner".to_string(), vec![3, 3, 2, 1], 20),
    );
    state.add_exec_trace(
        7,
        0,
        ExprTrace::new(1, "2".to_string(), vec![3, 3, 2, 1, 1], false, 25),
    );
    let thread = &state.flows[0].threads[0];
    let locals = thread.current_locals().0;
    assert_eq!(locals.len(), 1);
    assert_eq!(locals[0].0, "n".to_string());
    assert_eq!(locals[0].1, "inner".to_string());
}

#[test]
fn idempotent_registration_test() {
    let mut state = state_with_form(7, 1, "(a b)");
    let other = Form::new(1, "other-ns".to_string(), "(c d)".to_string(), 9).unwrap();
    state.add_flow_form(7, 1, other, 9);
    let form = state.flows[0].forms.get(&1).unwrap();
    assert_eq!(form.ns, "test-ns".to_string());
    assert_eq!(form.timestamp, 1);
}

#[test]
fn unknown_flow_event_is_dropped_test() {
    let mut state = DebuggerState::new();
    state.add_exec_trace(99, 0, ExprTrace::new(1, "5".to_string(), vec![], false, 1));
    assert_eq!(state.flows_ids().len(), 0);
}

#[test]
fn unparseable_form_is_parse_error_test() {
    assert!(Form::new(1, "ns".to_string(), "(a b".to_string(), 1).is_none());
}

#[test]
fn cursor_bounds_test() {
    let mut ex = FlowExecution::new();
    assert!(ex.executing_trace().is_none());
    ex.step_next();
    assert_eq!(ex.curr_trace_idx, 0);
    ex.step_back();
    assert_eq!(ex.curr_trace_idx, 0);
    ex.add_expr_trace(ExprTrace::new(1, "a".to_string(), vec![], false, 1));
    ex.add_expr_trace(ExprTrace::new(1, "b".to_string(), vec![], false, 2));
    ex.step_next();
    ex.step_next();
    assert_eq!(ex.curr_trace_idx, 1);
    ex.step_back();
    ex.step_back();
    assert_eq!(ex.curr_trace_idx, 0);
}

#[test]
fn hot_set_monotonic_test() {
    let mut state = state_with_form(7, 1, "(a b)");
    state.add_exec_trace(7, 0, ExprTrace::new(1, "1".to_string(), vec![1], false, 1));
    assert!(state.flows[0].threads[0].is_coord_hot(1, &vec![1]));
    state.add_exec_trace(7, 0, ExprTrace::new(1, "2".to_string(), vec![2], false, 2));
    state.add_bind_trace(7, 0, BindTrace::new(1, "x".to_string(), "1".to_string(), vec![], 3));
    state.add_fn_call_trace(7, 0, FnCallTrace::new(1, "n".to_string(), "f".to_string(), "[]".to_string(), 4));
    assert!(state.flows[0].threads[0].is_coord_hot(1, &vec![1]));
}

#[test]
fn flow_and_thread_listing_test() {
    let mut state = state_with_form(7, 1, "(a b)");
    state.add_exec_trace(7, 3, ExprTrace::new(1, "1".to_string(), vec![1], false, 1));
    state.add_exec_trace(7, 5, ExprTrace::new(1, "1".to_string(), vec![1], false, 2));
    assert_eq!(state.flows_ids(), vec![7]);
    assert_eq!(state.flows[0].thread_ids(), vec![3, 5]);
    assert_eq!(state.flows[0].selected_thread_id, Some(5));
    assert_eq!(state.selected_flow_id, Some(7));
    state.select_flow(9);
    assert_eq!(state.selected_flow_id, Some(9));
    assert!(state.selected_flow().is_none());
}

#[test]
fn traces_for_coord_test() {
    let mut ex = FlowExecution::new();
    ex.add_expr_trace(ExprTrace::new(1, "a".to_string(), vec![2], false, 1));
    ex.add_fn_call_trace(FnCallTrace::new(1, "n".to_string(), "f".to_string(), "[]".to_string(), 2));
    ex.add_expr_trace(ExprTrace::new(1, "b".to_string(), vec![2], false, 3));
    ex.add_expr_trace(ExprTrace::new(1, "c".to_string(), vec![3], false, 4));
    let hits = ex.traces_for_coord(1, &[2]);
    assert_eq!(hits.len(), 2);
    assert_eq!(hits[0].0, 0);
    assert_eq!(hits[1].0, 2);
    assert_eq!(hits[0].1.result, "a".to_string());
    assert_eq!(hits[1].1.result, "b".to_string());
}

#[test]
fn value_inspector_follows_cursor_test() {
    let mut state = state_with_form(7, 1, "(a b)");
    state.add_exec_trace(7, 0, ExprTrace::new(1, "(1 2)".to_string(), vec![1], false, 1));
    state.add_exec_trace(7, 0, ExprTrace::new(1, "(3 4)".to_string(), vec![2], false, 2));
    let th = &mut state.flows[0].threads[0];
    th.step_next();
    let insp = th.value_inspector.as_ref().unwrap();
    assert_eq!(insp.to_string(), "(3 4)".to_string());
    th.step_back();
    let insp = th.value_inspector.as_ref().unwrap();
    assert_eq!(insp.to_string(), "(1 2)".to_string());
}
