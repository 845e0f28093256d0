//! The display projection of a resolved tree.

use workflow_engine::ids::{FuncBindingId, FuncId};
use workflow_engine::tree_view::{WorkflowTreeStepView, WorkflowTreeView};
use workflow_engine::workflow::{FuncBinding, WorkflowKind, WorkflowTree, WorkflowTreeStep};

#[test]
fn tree_view_mirrors_tree_shape() {
    let tree = WorkflowTree {
        name: "deploy".to_string(),
        kind: WorkflowKind::Conditional,
        steps: vec![
            WorkflowTreeStep::Command {
                func_binding: FuncBinding {
                    id: FuncBindingId(1),
                    func_id: FuncId(1),
                    name: "build".to_string(),
                    args: "[\"fast\"]".to_string(),
                },
            },
            WorkflowTreeStep::Workflow(WorkflowTree {
                name: "notify".to_string(),
                kind: WorkflowKind::Parallel,
                steps: vec![WorkflowTreeStep::Command {
                    func_binding: FuncBinding {
                        id: FuncBindingId(2),
                        func_id: FuncId(2),
                        name: "slack".to_string(),
                        args: "[]".to_string(),
                    },
                }],
            }),
        ],
    };
    let view = WorkflowTreeView::new(&tree);
    assert_eq!(view.name, "deploy");
    assert!(matches!(view.kind, WorkflowKind::Conditional));
    assert_eq!(view.steps.len(), 2);
    match &view.steps[0] {
        WorkflowTreeStepView::Command { command, args } => {
            assert_eq!(command, "build");
            assert_eq!(args, "[\"fast\"]");
        }
        _ => panic!("first step should display as a command"),
    }
    match &view.steps[1] {
        WorkflowTreeStepView::Workflow(sub) => {
            assert_eq!(sub.name, "notify");
            assert!(matches!(sub.kind, WorkflowKind::Parallel));
            assert_eq!(sub.steps.len(), 1);
        }
        _ => panic!("second step should display as a nested workflow"),
    }
}
