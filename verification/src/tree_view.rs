//! A display-oriented projection of a resolved tree.
//!
//! The view replaces each leaf's binding with the command name and argument
//! text a reader cares about, keeping the tree shape and declared order.

use vstd::prelude::*;

use crate::workflow::{
    tree_step_spec, tree_steps_spec, lemma_tree_steps_spec, TreeSpec, TreeStepSpec, WorkflowKind,
    WorkflowTree, WorkflowTreeStep,
};

verus! {

/// A resolved child, projected for display.
#[derive(Debug)]
pub enum WorkflowTreeStepView {
    /// A nested workflow's view.
    Workflow(WorkflowTreeView),
    /// A leaf command: its name and canonical argument text.
    Command { command: String, args: String },
}

/// A resolved tree, projected for display.
#[derive(Debug)]
pub struct WorkflowTreeView {
    /// Name of the definition the node was resolved from.
    pub name: String,
    /// Execution discipline of the node.
    pub kind: WorkflowKind,
    /// Projected children, in declared order.
    pub steps: Vec<WorkflowTreeStepView>,
}

/// Mathematical value of a [`WorkflowTreeStepView`].
pub ghost enum TreeStepViewSpec {
    Workflow(TreeViewSpec),
    Command { command: Seq<char>, args: Seq<char> },
}

/// Mathematical value of a [`WorkflowTreeView`].
pub ghost struct TreeViewSpec {
    pub name: Seq<char>,
    pub kind: WorkflowKind,
    pub steps: Seq<TreeStepViewSpec>,
}

/// Mathematical value of a projected tree.
pub open spec fn tree_view_spec(t: WorkflowTreeView) -> TreeViewSpec
    decreases t,
{
    TreeViewSpec { name: t.name@, kind: t.kind, steps: tree_view_steps_spec(t.steps@) }
}

/// Mathematical values of a projected child list, in order.
pub open spec fn tree_view_steps_spec(ss: Seq<WorkflowTreeStepView>) -> Seq<TreeStepViewSpec>
    decreases ss,
{
    if ss.len() == 0 {
        Seq::empty()
    } else {
        seq![tree_view_step_spec(ss[0])] + tree_view_steps_spec(ss.drop_first())
    }
}

/// Mathematical value of a projected child.
pub open spec fn tree_view_step_spec(s: WorkflowTreeStepView) -> TreeStepViewSpec
    decreases s,
{
    match s {
        WorkflowTreeStepView::Workflow(sub) => TreeStepViewSpec::Workflow(tree_view_spec(sub)),
        WorkflowTreeStepView::Command { command, args } => (TreeStepViewSpec::Command {
            command: command@,
            args: args@,
        }),
    }
}

impl View for WorkflowTreeView {
    type V = TreeViewSpec;

    open spec fn view(&self) -> TreeViewSpec {
        tree_view_spec(*self)
    }
}

/// The value of a projected child list is the pointwise value of its
/// children.
pub proof fn lemma_tree_view_steps_spec(ss: Seq<WorkflowTreeStepView>)
    ensures
        tree_view_steps_spec(ss).len() == ss.len(),
        forall|i: int|
            0 <= i < ss.len() ==> tree_view_steps_spec(ss)[i] == tree_view_step_spec(
                #[trigger] ss[i],
            ),
    decreases ss,
{
    if ss.len() > 0 {
        lemma_tree_view_steps_spec(ss.drop_first());
        assert forall|i: int| 0 <= i < ss.len() implies tree_view_steps_spec(ss)[i]
            == tree_view_step_spec(#[trigger] ss[i]) by {
            if i > 0 {
                assert(ss.drop_first()[i - 1] == ss[i]);
                assert(tree_view_steps_spec(ss)[i] == tree_view_steps_spec(ss.drop_first())[i - 1]);
            }
        }
    }
}

/// The projection a resolved node's value displays as: leaves show their
/// binding's command name and argument text, nested workflows recurse.
pub open spec fn projected(t: TreeSpec) -> TreeViewSpec
    decreases t,
{
    TreeViewSpec { name: t.name, kind: t.kind, steps: projected_steps(t.steps) }
}

/// The projection of a resolved child list.
pub open spec fn projected_steps(ss: Seq<TreeStepSpec>) -> Seq<TreeStepViewSpec>
    decreases ss,
{
    if ss.len() == 0 {
        Seq::empty()
    } else {
        seq![projected_step(ss[0])] + projected_steps(ss.drop_first())
    }
}

/// The projection of one resolved child.
pub open spec fn projected_step(s: TreeStepSpec) -> TreeStepViewSpec
    decreases s,
{
    match s {
        TreeStepSpec::Workflow(sub) => TreeStepViewSpec::Workflow(projected(sub)),
        TreeStepSpec::Command(b) => (TreeStepViewSpec::Command { command: b.name, args: b.args }),
    }
}

/// The projection of a child list is the pointwise projection.
pub proof fn lemma_projected_steps(ss: Seq<TreeStepSpec>)
    ensures
        projected_steps(ss).len() == ss.len(),
        forall|i: int|
            0 <= i < ss.len() ==> projected_steps(ss)[i] == projected_step(#[trigger] ss[i]),
    decreases ss,
{
    if ss.len() > 0 {
        lemma_projected_steps(ss.drop_first());
        assert forall|i: int| 0 <= i < ss.len() implies projected_steps(ss)[i] == projected_step(
            #[trigger] ss[i],
        ) by {
            if i > 0 {
                assert(ss.drop_first()[i - 1] == ss[i]);
                assert(projected_steps(ss)[i] == projected_steps(ss.drop_first())[i - 1]);
            }
        }
    }
}

impl WorkflowTreeView {
    /// Projects a resolved tree for display, keeping the tree shape and
    /// declared order and showing each leaf's command name and arguments.
    pub fn new(tree: &WorkflowTree) -> (r: Self)
        ensures
            r@ == projected(tree@),
        decreases *tree,
    {
        let mut steps: Vec<WorkflowTreeStepView> = Vec::new();
        let mut i: usize = 0;
        while i < tree.steps.len()
            invariant
                i == steps@.len() <= tree.steps@.len(),
                forall|j: int|
                    0 <= j < i ==> tree_view_step_spec(#[trigger] steps@[j]) == projected_step(
                        tree_step_spec(tree.steps@[j]),
                    ),
            decreases tree.steps@.len() - i,
        {
            let step = match &tree.steps[i] {
                WorkflowTreeStep::Workflow(sub) => WorkflowTreeStepView::Workflow(Self::new(sub)),
                WorkflowTreeStep::Command { func_binding } => (WorkflowTreeStepView::Command {
                    command: func_binding.name.clone(),
                    args: func_binding.args.clone(),
                }),
            };
            steps.push(step);
            i += 1;
        }
        let r = WorkflowTreeView { name: tree.name.clone(), kind: tree.kind, steps };
        proof {
            lemma_tree_view_steps_spec(r.steps@);
            lemma_projected_steps(tree_steps_spec(tree.steps@));
            lemma_tree_steps_spec(tree.steps@);
            assert forall|j: int| 0 <= j < r.steps@.len() implies tree_view_steps_spec(r.steps@)[j]
                == projected_steps(tree_steps_spec(tree.steps@))[j] by {
                assert(tree_view_step_spec(r.steps@[j]) == projected_step(
                    tree_step_spec(tree.steps@[j]),
                ));
            }
            assert(tree_view_steps_spec(r.steps@) =~= projected_steps(
                tree_steps_spec(tree.steps@),
            ));
        }
        r
    }
}

} // verus!
