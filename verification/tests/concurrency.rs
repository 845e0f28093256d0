//! Driving the scheduler with a real task runtime: wall-time evidence that
//! `Parallel` leaves overlap, task-fault folding, and the full scenario run
//! with out-of-order completions.

use std::time::{Duration, Instant};

use workflow_engine::exec::Executor;
use workflow_engine::ids::{FuncBindingId, FuncId};
use workflow_engine::tasks::join_task;
use workflow_engine::workflow::{
    FuncBinding, WorkflowError, WorkflowKind, WorkflowTree, WorkflowTreeStep,
};

fn leaf(id: u64, name: &str) -> WorkflowTreeStep {
    WorkflowTreeStep::Command {
        func_binding: FuncBinding {
            id: FuncBindingId(id),
            func_id: FuncId(id),
            name: name.to_string(),
            args: "[]".to_string(),
        },
    }
}

fn runtime() -> tokio::runtime::Runtime {
    tokio::runtime::Builder::new_multi_thread()
        .worker_threads(4)
        .enable_time()
        .build()
        .expect("task runtime builds")
}

/// Runs every currently ready leaf as one concurrent wave, sleeping
/// `delay_ms[pos]` per leaf, until the executor has nothing left to admit.
fn drive_with_sleeps(ex: &mut Executor, delay_ms: &[u64]) {
    let rt = runtime();
    loop {
        let wave = ex.ready();
        if wave.is_empty() {
            break;
        }
        for &pos in &wave {
            ex.start(pos);
        }
        let finished: Vec<usize> = rt.block_on(async {
            let mut join_set = tokio::task::JoinSet::new();
            for &pos in &wave {
                let delay = delay_ms[pos];
                join_set.spawn(async move {
                    tokio::time::sleep(Duration::from_millis(delay)).await;
                    pos
                });
            }
            let mut done = Vec::new();
            while let Some(res) = join_set.join_next().await {
                done.push(join_task(res).expect("task completes"));
            }
            done
        });
        for pos in finished {
            ex.complete(pos, Some(format!("leaf-{pos}")), None);
        }
    }
}

#[test]
fn parallel_leaves_run_concurrently() {
    // N independent leaves each taking T finish in about T, well below N x T.
    let tree = WorkflowTree {
        name: "fanout".to_string(),
        kind: WorkflowKind::Parallel,
        steps: vec![leaf(1, "a"), leaf(2, "b"), leaf(3, "c"), leaf(4, "d")],
    };
    let mut ex = Executor::new(tree).expect("supported kinds");
    let started = Instant::now();
    drive_with_sleeps(&mut ex, &[150, 150, 150, 150]);
    let elapsed = started.elapsed();
    assert!(
        elapsed < Duration::from_millis(450),
        "four 150ms leaves should overlap, took {elapsed:?}"
    );
}

#[test]
fn slow_first_leaf_does_not_reorder_results() {
    // The first declared leaf is artificially slower than the last; reported
    // order is still declared order.
    let tree = WorkflowTree {
        name: "fanout".to_string(),
        kind: WorkflowKind::Parallel,
        steps: vec![leaf(1, "slowest"), leaf(2, "middle"), leaf(3, "fastest")],
    };
    let mut ex = Executor::new(tree).expect("supported kinds");
    drive_with_sleeps(&mut ex, &[120, 60, 5]);
    let logs = vec![Some(Vec::new()), Some(Vec::new()), Some(Vec::new())];
    let values = ex.postprocess(logs).expect("all logs collected");
    let ids: Vec<u64> = values.iter().map(|v| v.func_binding_id.0).collect();
    assert_eq!(ids, vec![1, 2, 3]);
}

#[test]
fn deploy_scenario_runs_build_then_notify_concurrently() {
    // Conditional[build, Parallel[slack, email]]: build runs alone first;
    // slack and email then overlap.
    let tree = WorkflowTree {
        name: "deploy".to_string(),
        kind: WorkflowKind::Conditional,
        steps: vec![
            leaf(1, "build"),
            WorkflowTreeStep::Workflow(WorkflowTree {
                name: "notify".to_string(),
                kind: WorkflowKind::Parallel,
                steps: vec![leaf(2, "slack"), leaf(3, "email")],
            }),
        ],
    };
    let mut ex = Executor::new(tree).expect("supported kinds");
    assert_eq!(ex.ready(), vec![0], "only build may start first");
    let started = Instant::now();
    // slack is slower than email; completion order differs from declared.
    drive_with_sleeps(&mut ex, &[50, 120, 10]);
    let elapsed = started.elapsed();
    assert!(
        elapsed < Duration::from_millis(400),
        "build then one concurrent wave, took {elapsed:?}"
    );
    let logs = vec![Some(Vec::new()), Some(Vec::new()), Some(Vec::new())];
    let values = ex.postprocess(logs).expect("all logs collected");
    let ids: Vec<u64> = values.iter().map(|v| v.func_binding_id.0).collect();
    assert_eq!(ids, vec![1, 2, 3], "results follow declared preorder");
}

#[test]
fn task_fault_becomes_a_fatal_error() {
    let rt = runtime();
    let res: Result<(), tokio::task::JoinError> = rt.block_on(async {
        let mut join_set = tokio::task::JoinSet::new();
        join_set.spawn(async {
            panic!("task blew up");
        });
        join_set.join_next().await.expect("one task")
    });
    assert!(res.is_err());
    let folded = join_task(res);
    assert!(matches!(folded, Err(WorkflowError::TaskFault)));
}

#[test]
fn completed_task_passes_through() {
    let rt = runtime();
    let res: Result<u32, tokio::task::JoinError> = rt.block_on(async {
        let mut join_set = tokio::task::JoinSet::new();
        join_set.spawn(async { 42u32 });
        join_set.join_next().await.expect("one task")
    });
    assert_eq!(join_task(res).expect("task completed"), 42);
}
