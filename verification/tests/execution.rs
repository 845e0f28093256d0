//! The execution protocol: preparation, scheduling under both kind
//! semantics, completion-order independence, and postprocessing.

use workflow_engine::exec::{CommandOutcome, CommandState, Executor, OutputStream};
use workflow_engine::ids::{FuncBindingId, FuncId};
use workflow_engine::workflow::{
    FuncBinding, WorkflowError, WorkflowKind, WorkflowTree, WorkflowTreeStep,
};

fn leaf(id: u64, name: &str) -> WorkflowTreeStep {
    WorkflowTreeStep::Command {
        func_binding: FuncBinding {
            id: FuncBindingId(id),
            func_id: FuncId(id),
            name: name.to_string(),
            args: "[]".to_string(),
        },
    }
}

fn outcome(success: &str) -> CommandOutcome {
    CommandOutcome { success: Some(success.to_string()), failure: None, output: Vec::new() }
}

/// The scenario tree: Conditional[build, Parallel[slack, email]].
fn deploy_tree() -> WorkflowTree {
    WorkflowTree {
        name: "deploy".to_string(),
        kind: WorkflowKind::Conditional,
        steps: vec![
            leaf(1, "build"),
            WorkflowTreeStep::Workflow(WorkflowTree {
                name: "notify".to_string(),
                kind: WorkflowKind::Parallel,
                steps: vec![leaf(2, "slack"), leaf(3, "email")],
            }),
        ],
    }
}

#[test]
fn prepare_indexes_leaves_in_preorder() {
    let tree = deploy_tree();
    let records = tree.prepare();
    assert_eq!(records.len(), 3);
    let ids: Vec<u64> = records.iter().map(|r| r.func_binding.id.0).collect();
    assert_eq!(ids, vec![1, 2, 3]);
    let indices: Vec<usize> = records.iter().map(|r| r.index).collect();
    assert_eq!(indices, vec![1, 2, 3]);
    assert!(records.iter().all(|r| matches!(r.state, CommandState::NotStarted)));
}

#[test]
fn run_returns_one_result_per_leaf_in_declared_order() {
    let tree = deploy_tree();
    let prepared = tree.prepare();
    let outcomes = vec![outcome("built"), outcome("slacked"), outcome("emailed")];
    assert_eq!(outcomes.len(), prepared.len());
    let values = tree.run(&outcomes).expect("runs");
    assert_eq!(values.len(), prepared.len());
    let ids: Vec<u64> = values.iter().map(|v| v.func_binding_id.0).collect();
    assert_eq!(ids, vec![1, 2, 3]);
    assert_eq!(values[0].success.as_deref(), Some("built"));
    assert_eq!(values[1].success.as_deref(), Some("slacked"));
    assert_eq!(values[2].success.as_deref(), Some("emailed"));
}

#[test]
fn exceptional_kind_is_unsupported() {
    let tree = WorkflowTree {
        name: "odd".to_string(),
        kind: WorkflowKind::Exceptional,
        steps: vec![leaf(1, "noop")],
    };
    let outcomes = vec![outcome("unused")];
    let err = tree.run(&outcomes).unwrap_err();
    assert!(matches!(err, WorkflowError::UnsupportedKind));
    assert!(matches!(Executor::new(tree), Err(WorkflowError::UnsupportedKind)));
}

#[test]
fn nested_exceptional_kind_is_unsupported() {
    let tree = WorkflowTree {
        name: "outer".to_string(),
        kind: WorkflowKind::Conditional,
        steps: vec![WorkflowTreeStep::Workflow(WorkflowTree {
            name: "inner".to_string(),
            kind: WorkflowKind::Exceptional,
            steps: vec![leaf(1, "noop")],
        })],
    };
    assert!(matches!(Executor::new(tree), Err(WorkflowError::UnsupportedKind)));
}

#[test]
fn conditional_admits_leaves_strictly_in_order() {
    // A Conditional tree of leaves that "append to a shared observable
    // sequence": driving the scheduler records exactly the declared order.
    let tree = WorkflowTree {
        name: "ordered".to_string(),
        kind: WorkflowKind::Conditional,
        steps: vec![leaf(1, "first"), leaf(2, "second"), leaf(3, "third")],
    };
    let mut ex = Executor::new(tree).expect("supported kinds");
    let mut observed: Vec<usize> = Vec::new();
    loop {
        let ready = ex.ready();
        if ready.is_empty() {
            break;
        }
        // Strict sequencing: never more than one leaf admitted at a time.
        assert_eq!(ready.len(), 1);
        let pos = ready[0];
        ex.start(pos);
        assert!(ex.ready().is_empty(), "a running leaf blocks its successors");
        observed.push(pos);
        ex.complete(pos, Some("done".to_string()), None);
    }
    assert_eq!(observed, vec![0, 1, 2]);
}

#[test]
fn parallel_admits_all_leaves_at_once() {
    let tree = WorkflowTree {
        name: "fanout".to_string(),
        kind: WorkflowKind::Parallel,
        steps: vec![leaf(1, "a"), leaf(2, "b"), leaf(3, "c"), leaf(4, "d")],
    };
    let mut ex = Executor::new(tree).expect("supported kinds");
    let ready = ex.ready();
    assert_eq!(ready, vec![0, 1, 2, 3]);
    for pos in ready {
        ex.start(pos);
    }
    assert!(ex.ready().is_empty());
}

#[test]
fn deploy_scenario_schedules_build_before_notify() {
    // Only after `build` completes do `slack` and `email` become startable,
    // and then both at once.
    let mut ex = Executor::new(deploy_tree()).expect("supported kinds");
    assert_eq!(ex.ready(), vec![0]);
    ex.start(0);
    assert!(ex.ready().is_empty());
    ex.complete(0, Some("built".to_string()), None);
    assert_eq!(ex.ready(), vec![1, 2]);
}

#[test]
fn results_follow_declared_order_not_completion_order() {
    // Complete the leaves backwards; the reported order is still index order.
    let tree = WorkflowTree {
        name: "fanout".to_string(),
        kind: WorkflowKind::Parallel,
        steps: vec![leaf(10, "a"), leaf(11, "b"), leaf(12, "c")],
    };
    let mut ex = Executor::new(tree).expect("supported kinds");
    for pos in ex.ready() {
        ex.start(pos);
    }
    for pos in [2, 0, 1] {
        ex.complete(pos, Some(format!("value-{pos}")), None);
    }
    let logs = vec![Some(Vec::new()), Some(Vec::new()), Some(Vec::new())];
    let values = ex.postprocess(logs).expect("all logs collected");
    let ids: Vec<u64> = values.iter().map(|v| v.func_binding_id.0).collect();
    assert_eq!(ids, vec![10, 11, 12]);
    assert_eq!(values[0].success.as_deref(), Some("value-0"));
    assert_eq!(values[2].success.as_deref(), Some("value-2"));
}

#[test]
fn postprocess_requires_a_log_per_leaf() {
    let tree = WorkflowTree {
        name: "pair".to_string(),
        kind: WorkflowKind::Parallel,
        steps: vec![leaf(21, "a"), leaf(22, "b")],
    };
    let mut ex = Executor::new(tree).expect("supported kinds");
    for pos in ex.ready() {
        ex.start(pos);
        ex.complete(pos, Some("ok".to_string()), None);
    }
    let logs = vec![Some(Vec::new()), None];
    let err = ex.postprocess(logs).unwrap_err();
    match err {
        WorkflowError::CommandNotPrepared(id) => assert_eq!(id, FuncBindingId(22)),
        other => panic!("expected an internal consistency error, got {other:?}"),
    }
}

#[test]
fn postprocess_pairs_logs_with_leaves() {
    let tree = WorkflowTree {
        name: "single".to_string(),
        kind: WorkflowKind::Conditional,
        steps: vec![leaf(31, "talk")],
    };
    let mut ex = Executor::new(tree).expect("supported kinds");
    ex.start(0);
    ex.complete(0, None, Some("broke".to_string()));
    let logs = vec![Some(vec![
        OutputStream { timestamp: 5, message: "starting".to_string() },
        OutputStream { timestamp: 9, message: "broke".to_string() },
    ])];
    let values = ex.postprocess(logs).expect("log collected");
    assert_eq!(values.len(), 1);
    assert_eq!(values[0].failure.as_deref(), Some("broke"));
    assert_eq!(values[0].success, None);
    assert_eq!(values[0].output.len(), 2);
    assert_eq!(values[0].output[0].message, "starting");
}
