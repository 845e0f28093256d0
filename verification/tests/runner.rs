//! The run orchestrator: outcome classification, record assembly, log
//! aggregation, and stored-runner lookup.

use workflow_engine::exec::{FuncBindingReturnValue, OutputStream};
use workflow_engine::ids::{
    FuncBindingId, FuncId, WorkflowPrototypeId, WorkflowResolverId, WorkflowRunnerId,
    WorkflowRunnerPk, WorkflowRunnerStateId,
};
use workflow_engine::workflow::{FunctionFailure, WorkflowError};
use workflow_engine::workflow_runner::{
    process_successful_workflow_run, WorkflowPrototype, WorkflowRunner, WorkflowRunnerContext,
    WorkflowRunnerError, WorkflowRunnerState, WorkflowRunnerStatus,
};
use workflow_engine::ws_event::{WsEvent, WsPayload};

#[test]
fn context_builder() {
    let mut c = WorkflowRunnerContext::new();
    c.set_component_id(15.into());
    assert_eq!(c.component_id(), 15.into());
}

fn prototype(id: u64, name: &str) -> WorkflowPrototype {
    let mut context = WorkflowRunnerContext::new();
    context.set_component_id(40.into());
    context.set_schema_id(41.into());
    WorkflowPrototype { id: WorkflowPrototypeId(id), workflow_name: name.to_string(), context }
}

fn result_value(id: u64, success: &str) -> FuncBindingReturnValue {
    FuncBindingReturnValue {
        func_binding_id: FuncBindingId(id),
        success: Some(success.to_string()),
        failure: None,
        output: Vec::new(),
    }
}

fn run_ids() -> (WorkflowRunnerPk, WorkflowRunnerId, WorkflowRunnerStateId) {
    (WorkflowRunnerPk(100), WorkflowRunnerId(101), WorkflowRunnerStateId(102))
}

#[test]
fn successful_run_yields_success_state_and_results() {
    let prototypes = vec![prototype(1, "deploy")];
    let (pk, id, state_id) = run_ids();
    let values = vec![result_value(7, "ok")];
    let (runner, state, returned) = WorkflowRunner::run(
        &prototypes,
        WorkflowPrototypeId(1),
        WorkflowResolverId(5),
        Ok(values),
        Some((FuncId(50), FuncBindingId(51))),
        pk,
        id,
        state_id,
    )
    .expect("classifies as success");
    assert_eq!(runner.workflow_prototype_id, WorkflowPrototypeId(1));
    assert_eq!(runner.workflow_resolver_id, WorkflowResolverId(5));
    assert_eq!(runner.func_id, FuncId(50));
    assert_eq!(runner.func_binding_id, FuncBindingId(51));
    assert_eq!(runner.context.component_id(), 40.into());
    assert!(matches!(state.status, WorkflowRunnerStatus::Success));
    assert_eq!(state.execution_id, None);
    assert_eq!(state.error_kind, None);
    assert_eq!(state.error_message, None);
    assert_eq!(state.workflow_runner_id, id);
    assert_eq!(returned.len(), 1);
    assert_eq!(returned[0].func_binding_id, FuncBindingId(7));
}

#[test]
fn modeled_failure_is_absorbed_into_failure_state() {
    let prototypes = vec![prototype(1, "deploy")];
    let (pk, id, state_id) = run_ids();
    let failure = FunctionFailure {
        execution_id: "exec-9".to_string(),
        error_kind: "commandFailed".to_string(),
        error_message: "exit status 2".to_string(),
    };
    let (runner, state, returned) = WorkflowRunner::run(
        &prototypes,
        WorkflowPrototypeId(1),
        WorkflowResolverId(5),
        Err(WorkflowError::CommandFailure(failure)),
        Some((FuncId(50), FuncBindingId(51))),
        pk,
        id,
        state_id,
    )
    .expect("a modeled failure is absorbed");
    assert_eq!(runner.func_binding_id, FuncBindingId(0));
    assert!(matches!(state.status, WorkflowRunnerStatus::Failure));
    assert_eq!(state.execution_id.as_deref(), Some("exec-9"));
    assert_eq!(state.error_kind.as_deref(), Some("commandFailed"));
    assert_eq!(state.error_message.as_deref(), Some("exit status 2"));
    assert!(returned.is_empty());
}

#[test]
fn other_errors_propagate_without_a_record() {
    let prototypes = vec![prototype(1, "deploy")];
    let (pk, id, state_id) = run_ids();
    let err = WorkflowRunner::run(
        &prototypes,
        WorkflowPrototypeId(1),
        WorkflowResolverId(5),
        Err(WorkflowError::MissingWorkflow("gone".to_string())),
        Some((FuncId(50), FuncBindingId(51))),
        pk,
        id,
        state_id,
    )
    .unwrap_err();
    match err {
        WorkflowRunnerError::Workflow(WorkflowError::MissingWorkflow(name)) => {
            assert_eq!(name, "gone")
        }
        other => panic!("expected the workflow error to propagate, got {other:?}"),
    }
}

#[test]
fn unknown_prototype_is_reported() {
    let prototypes = vec![prototype(1, "deploy")];
    let (pk, id, state_id) = run_ids();
    let err = WorkflowRunner::run(
        &prototypes,
        WorkflowPrototypeId(77),
        WorkflowResolverId(5),
        Ok(Vec::new()),
        Some((FuncId(50), FuncBindingId(51))),
        pk,
        id,
        state_id,
    )
    .unwrap_err();
    match err {
        WorkflowRunnerError::PrototypeNotFound(p) => assert_eq!(p, WorkflowPrototypeId(77)),
        other => panic!("expected prototype-not-found, got {other:?}"),
    }
}

#[test]
fn missing_identity_function_is_reported() {
    let prototypes = vec![prototype(1, "deploy")];
    let (pk, id, state_id) = run_ids();
    let err = WorkflowRunner::run(
        &prototypes,
        WorkflowPrototypeId(1),
        WorkflowResolverId(5),
        Ok(Vec::new()),
        None,
        pk,
        id,
        state_id,
    )
    .unwrap_err();
    match err {
        WorkflowRunnerError::MissingWorkflow(name) => assert_eq!(name, "si:identity"),
        other => panic!("expected the identity lookup to fail, got {other:?}"),
    }
}

#[test]
fn aggregated_logs_are_sorted_by_timestamp() {
    let mut early = result_value(1, "a");
    early.output = vec![
        OutputStream { timestamp: 30, message: "third".to_string() },
        OutputStream { timestamp: 10, message: "first".to_string() },
    ];
    let mut late = result_value(2, "b");
    late.output = vec![OutputStream { timestamp: 20, message: "second".to_string() }];
    let values = vec![early, late];
    let ((func_id, binding_id), logs) =
        process_successful_workflow_run(&values, Some((FuncId(8), FuncBindingId(9))))
            .expect("identity available");
    assert_eq!(func_id, FuncId(8));
    assert_eq!(binding_id, FuncBindingId(9));
    let messages: Vec<&str> = logs.iter().map(|l| l.message.as_str()).collect();
    assert_eq!(messages, vec!["first", "second", "third"]);
    let timestamps: Vec<u64> = logs.iter().map(|l| l.timestamp).collect();
    assert_eq!(timestamps, vec![10, 20, 30]);
}

#[test]
fn aggregation_without_identity_fails() {
    let err = process_successful_workflow_run(&Vec::new(), None).unwrap_err();
    assert!(matches!(err, WorkflowRunnerError::MissingWorkflow(_)));
}

#[test]
fn find_for_prototype_filters_by_prototype_and_context() {
    let mut context_a = WorkflowRunnerContext::new();
    context_a.set_component_id(1.into());
    let mut context_b = WorkflowRunnerContext::new();
    context_b.set_component_id(2.into());
    let make = |pk: u64, proto: u64, context: WorkflowRunnerContext| {
        WorkflowRunner::new(
            WorkflowRunnerPk(pk),
            WorkflowRunnerId(pk),
            WorkflowPrototypeId(proto),
            WorkflowResolverId(0),
            FuncId(0),
            FuncBindingId(0),
            context,
        )
    };
    let runners = vec![
        make(1, 10, context_a),
        make(2, 10, context_b),
        make(3, 11, context_a),
        make(4, 10, context_a),
    ];
    let found = WorkflowRunner::find_for_prototype(&runners, WorkflowPrototypeId(10), context_a);
    let pks: Vec<u64> = found.iter().map(|r| r.pk.0).collect();
    assert_eq!(pks, vec![1, 4]);
}

#[test]
fn state_record_keeps_its_fields() {
    let state = WorkflowRunnerState::new(
        WorkflowRunnerStateId(3),
        WorkflowRunnerId(4),
        WorkflowRunnerStatus::Failure,
        Some("x".to_string()),
        Some("k".to_string()),
        Some("m".to_string()),
    );
    assert_eq!(state.id, WorkflowRunnerStateId(3));
    assert_eq!(state.workflow_runner_id, WorkflowRunnerId(4));
    assert!(matches!(state.status, WorkflowRunnerStatus::Failure));
    assert_eq!(state.execution_id.as_deref(), Some("x"));
}

#[test]
fn command_output_event_carries_its_text() {
    let event = WsEvent::command_output("deploying".to_string());
    match event.payload {
        WsPayload::CommandOutput(c) => assert_eq!(c.output, "deploying"),
    }
}
