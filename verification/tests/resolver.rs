//! Resolution: expansion, memoization, cycle detection, and argument
//! canonicalization.

use workflow_engine::ids::FuncId;
use workflow_engine::json::canonicalize_args;
use workflow_engine::workflow::{
    CommandDefinition, Definitions, WorkflowError, WorkflowKind, WorkflowStep, WorkflowTree,
    WorkflowTreeStep, WorkflowView,
};

fn command(name: &str) -> WorkflowStep {
    WorkflowStep::Command { command: name.to_string(), args: "[]".to_string() }
}

fn subworkflow(name: &str) -> WorkflowStep {
    WorkflowStep::Workflow { workflow: name.to_string(), args: "[]".to_string() }
}

fn command_defs(names: &[(&str, u64)]) -> Vec<CommandDefinition> {
    names
        .iter()
        .map(|(n, id)| CommandDefinition { name: n.to_string(), func_id: FuncId(*id) })
        .collect()
}

/// The scenario definitions: `deploy` runs `build`, then the `notify`
/// sub-workflow, which runs `slack` and `email` concurrently.
fn deploy_defs() -> Definitions {
    Definitions {
        workflows: vec![
            WorkflowView::new(
                "deploy".to_string(),
                WorkflowKind::Conditional,
                vec![command("build"), subworkflow("notify")],
                None,
            ),
            WorkflowView::new(
                "notify".to_string(),
                WorkflowKind::Parallel,
                vec![command("slack"), command("email")],
                None,
            ),
        ],
        commands: command_defs(&[("build", 1), ("slack", 2), ("email", 3)]),
    }
}

fn leaf_names(tree: &WorkflowTree) -> Vec<String> {
    let mut names = Vec::new();
    collect_leaf_names(tree, &mut names);
    names
}

fn collect_leaf_names(tree: &WorkflowTree, out: &mut Vec<String>) {
    for step in &tree.steps {
        match step {
            WorkflowTreeStep::Command { func_binding } => out.push(func_binding.name.clone()),
            WorkflowTreeStep::Workflow(sub) => collect_leaf_names(sub, out),
        }
    }
}

#[test]
fn resolves_deploy_scenario_tree() {
    let defs = deploy_defs();
    let res = WorkflowView::resolve(&defs, &"deploy".to_string()).expect("resolves");
    let tree = &res.tree;
    assert_eq!(tree.name, "deploy");
    assert!(matches!(tree.kind, WorkflowKind::Conditional));
    assert_eq!(tree.steps.len(), 2);
    match &tree.steps[0] {
        WorkflowTreeStep::Command { func_binding } => {
            assert_eq!(func_binding.name, "build");
            assert_eq!(func_binding.func_id, FuncId(1));
            assert_eq!(func_binding.args, "[]");
        }
        _ => panic!("first step should be the build command"),
    }
    match &tree.steps[1] {
        WorkflowTreeStep::Workflow(sub) => {
            assert_eq!(sub.name, "notify");
            assert!(matches!(sub.kind, WorkflowKind::Parallel));
            assert_eq!(sub.steps.len(), 2);
        }
        _ => panic!("second step should be the notify sub-workflow"),
    }
    assert_eq!(leaf_names(tree), vec!["build", "slack", "email"]);
}

#[test]
fn missing_workflow_is_reported() {
    let defs = deploy_defs();
    let err = WorkflowView::resolve(&defs, &"absent".to_string()).unwrap_err();
    match err {
        WorkflowError::MissingWorkflow(name) => assert_eq!(name, "absent"),
        other => panic!("expected a missing workflow error, got {other:?}"),
    }
}

#[test]
fn missing_command_is_reported() {
    let defs = Definitions {
        workflows: vec![WorkflowView::new(
            "top".to_string(),
            WorkflowKind::Conditional,
            vec![command("ghost")],
            None,
        )],
        commands: command_defs(&[]),
    };
    let err = WorkflowView::resolve(&defs, &"top".to_string()).unwrap_err();
    match err {
        WorkflowError::MissingCommand(name) => assert_eq!(name, "ghost"),
        other => panic!("expected a missing command error, got {other:?}"),
    }
}

#[test]
fn direct_self_reference_is_a_cycle_error() {
    let defs = Definitions {
        workflows: vec![WorkflowView::new(
            "loop_forever".to_string(),
            WorkflowKind::Conditional,
            vec![subworkflow("loop_forever")],
            None,
        )],
        commands: command_defs(&[]),
    };
    let err = WorkflowView::resolve(&defs, &"loop_forever".to_string()).unwrap_err();
    match err {
        WorkflowError::CyclicWorkflow(name) => assert_eq!(name, "loop_forever"),
        other => panic!("expected a cycle error, got {other:?}"),
    }
}

#[test]
fn transitive_self_reference_is_a_cycle_error() {
    let defs = Definitions {
        workflows: vec![
            WorkflowView::new(
                "alpha".to_string(),
                WorkflowKind::Conditional,
                vec![subworkflow("beta")],
                None,
            ),
            WorkflowView::new(
                "beta".to_string(),
                WorkflowKind::Conditional,
                vec![subworkflow("alpha")],
                None,
            ),
        ],
        commands: command_defs(&[]),
    };
    let err = WorkflowView::resolve(&defs, &"alpha".to_string()).unwrap_err();
    match err {
        WorkflowError::CyclicWorkflow(name) => assert_eq!(name, "alpha"),
        other => panic!("expected a cycle error, got {other:?}"),
    }
}

#[test]
fn repeated_reference_fetches_once() {
    // Two sibling references to the same `(name, args)` sub-workflow cause
    // exactly one definition-source invocation for it.
    let defs = Definitions {
        workflows: vec![
            WorkflowView::new(
                "top".to_string(),
                WorkflowKind::Conditional,
                vec![subworkflow("shared"), subworkflow("shared")],
                None,
            ),
            WorkflowView::new(
                "shared".to_string(),
                WorkflowKind::Conditional,
                vec![command("work")],
                None,
            ),
        ],
        commands: command_defs(&[("work", 9)]),
    };
    let res = WorkflowView::resolve(&defs, &"top".to_string()).expect("resolves");
    let shared_fetches = res
        .fetched
        .iter()
        .filter(|key| key.name == "shared")
        .count();
    assert_eq!(shared_fetches, 1);
    assert_eq!(res.fetched.len(), 2);
    // Both siblings resolved to the same cached subtree instance, shared
    // bindings included.
    match (&res.tree.steps[0], &res.tree.steps[1]) {
        (WorkflowTreeStep::Workflow(a), WorkflowTreeStep::Workflow(b)) => {
            assert_eq!(a.name, b.name);
            assert_eq!(a.steps.len(), b.steps.len());
            match (&a.steps[0], &b.steps[0]) {
                (
                    WorkflowTreeStep::Command { func_binding: fa },
                    WorkflowTreeStep::Command { func_binding: fb },
                ) => {
                    assert_eq!(fa.id, fb.id);
                    assert_eq!(fa.name, fb.name);
                }
                _ => panic!("the shared sub-workflow should hold one command"),
            }
        }
        _ => panic!("both steps should be resolved sub-workflows"),
    }
}

#[test]
fn repeated_commands_share_a_binding() {
    let defs = Definitions {
        workflows: vec![WorkflowView::new(
            "twice".to_string(),
            WorkflowKind::Conditional,
            vec![command("ping"), command("ping")],
            None,
        )],
        commands: command_defs(&[("ping", 4)]),
    };
    let res = WorkflowView::resolve(&defs, &"twice".to_string()).expect("resolves");
    assert_eq!(res.bindings.len(), 1);
    match (&res.tree.steps[0], &res.tree.steps[1]) {
        (
            WorkflowTreeStep::Command { func_binding: a },
            WorkflowTreeStep::Command { func_binding: b },
        ) => assert_eq!(a.id, b.id),
        _ => panic!("both steps should be commands"),
    }
}

#[test]
fn arguments_are_canonicalized_for_keys() {
    // The same argument value written with different spacing keys the same
    // binding: the canonicalizer reserializes the text.
    let defs = Definitions {
        workflows: vec![WorkflowView::new(
            "spaced".to_string(),
            WorkflowKind::Conditional,
            vec![
                WorkflowStep::Command { command: "run".to_string(), args: "[1, 2]".to_string() },
                WorkflowStep::Command { command: "run".to_string(), args: "[1,2]".to_string() },
            ],
            None,
        )],
        commands: command_defs(&[("run", 7)]),
    };
    let res = WorkflowView::resolve(&defs, &"spaced".to_string()).expect("resolves");
    assert_eq!(res.bindings.len(), 1);
    assert_eq!(res.bindings[0].args, "[1,2]");
}

#[test]
fn canonicalize_args_normalizes_text() {
    let canon = canonicalize_args(&"{\"b\": 1, \"a\": [1, 2]}".to_string()).expect("valid json");
    assert_eq!(canon, "{\"a\":[1,2],\"b\":1}");
}

#[test]
fn canonicalize_args_rejects_invalid_text() {
    let err = canonicalize_args(&"not json".to_string()).unwrap_err();
    assert!(matches!(err, WorkflowError::Serde(_)));
}

#[test]
fn invalid_step_arguments_are_a_serde_error() {
    let defs = Definitions {
        workflows: vec![WorkflowView::new(
            "odd".to_string(),
            WorkflowKind::Conditional,
            vec![WorkflowStep::Command { command: "run".to_string(), args: "not json".to_string() }],
            None,
        )],
        commands: command_defs(&[("run", 5)]),
    };
    let err = WorkflowView::resolve(&defs, &"odd".to_string()).unwrap_err();
    assert!(matches!(err, WorkflowError::Serde(_)));
}

#[test]
fn memoized_entries_are_fetched_exactly_once() {
    let defs = Definitions {
        workflows: vec![
            WorkflowView::new(
                "top".to_string(),
                WorkflowKind::Conditional,
                vec![subworkflow("shared"), subworkflow("shared"), subworkflow("other")],
                None,
            ),
            WorkflowView::new(
                "shared".to_string(),
                WorkflowKind::Conditional,
                vec![command("work")],
                None,
            ),
            WorkflowView::new(
                "other".to_string(),
                WorkflowKind::Conditional,
                vec![command("work")],
                None,
            ),
        ],
        commands: command_defs(&[("work", 9)]),
    };
    let res = WorkflowView::resolve(&defs, &"top".to_string()).expect("resolves");
    // One memoized entry per distinct reference key, each fetched exactly once,
    // with the root fetched first.
    assert_eq!(res.cache.len(), 2);
    assert_eq!(res.fetched.len(), 3);
    assert_eq!(res.fetched[0].name, "top");
    for entry in &res.cache {
        let fetches = res.fetched.iter().filter(|key| key.name == entry.name).count();
        assert_eq!(fetches, 1);
    }
    // The repeated command shares one deduplicated binding.
    assert_eq!(res.bindings.len(), 1);
}
