//! The workflow data model and the resolver.
//!
//! A workflow definition names an execution kind and an ordered list of
//! steps; each step is either a nested workflow reference or a command
//! reference. Resolution expands a named definition into a concrete
//! [`WorkflowTree`], rejecting cyclic references and memoizing repeated
//! `(name, args)` sub-workflow references so each is expanded once.

use vstd::prelude::*;

use crate::ids::{FuncBindingId, FuncId};
use crate::json::{canon_of, canonicalize_args, json_ok};

verus! {

/// Execution discipline for a workflow's steps.
#[derive(Clone, Copy, PartialEq, Eq, Structural, Debug)]
pub enum WorkflowKind {
    /// Steps run strictly in declared order; each finishes before the next starts.
    Conditional,
    /// Reserved kind with no defined semantics; trees of this kind are rejected.
    Exceptional,
    /// Steps run concurrently; only reported result order is guaranteed.
    Parallel,
}

/// A failure reported by the function backend for one command execution.
#[derive(Clone, Debug)]
pub struct FunctionFailure {
    /// Backend identifier of the failed execution.
    pub execution_id: String,
    /// Machine-readable failure kind.
    pub error_kind: String,
    /// Human-readable failure message.
    pub error_message: String,
}

/// An error raised while resolving or executing a workflow.
#[derive(Debug)]
pub enum WorkflowError {
    /// A referenced workflow name has no stored definition.
    MissingWorkflow(String),
    /// A referenced command name has no stored definition.
    MissingCommand(String),
    /// Internal consistency fault: a leaf reached execution bookkeeping
    /// without a prepared record.
    CommandNotPrepared(FuncBindingId),
    /// A workflow references itself, directly or transitively.
    CyclicWorkflow(String),
    /// A tree node declares the `Exceptional` kind, which has no semantics.
    UnsupportedKind,
    /// Step arguments could not be canonicalized as JSON.
    Serde(String),
    /// The function backend reported a failure for a command execution.
    CommandFailure(FunctionFailure),
    /// A spawned execution task failed for a reason other than a modeled
    /// function failure; this aborts the whole run.
    TaskFault,
}

/// One declared step of a raw workflow definition.
#[derive(Debug)]
pub enum WorkflowStep {
    /// A reference to a nested workflow, by name, with arguments given as
    /// canonical JSON array text.
    Workflow { workflow: String, args: String },
    /// A reference to a leaf command, by name, with arguments given as
    /// canonical JSON array text.
    Command { command: String, args: String },
}

/// Mathematical value of a [`WorkflowStep`].
pub ghost enum StepSpec {
    Workflow { workflow: Seq<char>, args: Seq<char> },
    Command { command: Seq<char>, args: Seq<char> },
}

impl View for WorkflowStep {
    type V = StepSpec;

    open spec fn view(&self) -> StepSpec {
        match self {
            WorkflowStep::Workflow { workflow, args } => (StepSpec::Workflow {
                workflow: workflow@,
                args: args@,
            }),
            WorkflowStep::Command { command, args } => (StepSpec::Command {
                command: command@,
                args: args@,
            }),
        }
    }
}

/// One raw, unresolved workflow definition.
#[derive(Debug)]
pub struct WorkflowView {
    /// Name the definition is stored under.
    pub name: String,
    /// Execution discipline for the steps.
    pub kind: WorkflowKind,
    /// Declared steps, in order.
    pub steps: Vec<WorkflowStep>,
    /// Default arguments of the definition, as canonical JSON array text.
    pub args: String,
}

/// Mathematical value of a [`WorkflowView`].
pub ghost struct ViewSpec {
    pub name: Seq<char>,
    pub kind: WorkflowKind,
    pub steps: Seq<StepSpec>,
    pub args: Seq<char>,
}

impl View for WorkflowView {
    type V = ViewSpec;

    open spec fn view(&self) -> ViewSpec {
        ViewSpec {
            name: self.name@,
            kind: self.kind,
            steps: self.steps@.map_values(|s: WorkflowStep| s@),
            args: self.args@,
        }
    }
}

impl WorkflowView {
    /// Builds a raw definition; absent default arguments become the empty
    /// argument list.
    pub fn new(name: String, kind: WorkflowKind, steps: Vec<WorkflowStep>, args: Option<
        String,
    >) -> (r: Self)
        ensures
            r@.name == name@,
            r@.kind == kind,
            r@.steps == steps@.map_values(|s: WorkflowStep| s@),
            (match args {
                Some(a) => r@.args == a@,
                None => r@.args == "[]"@,
            }),
    {
        Self {
            name,
            kind,
            steps,
            args: match args {
                Some(a) => a,
                None => "[]".to_owned(),
            },
        }
    }
}

/// Identity plus arguments for one invocable unit of code. The engine drives
/// such bindings but does not implement them; this record holds the plain
/// values the engine reads.
#[derive(Debug)]
pub struct FuncBinding {
    /// Identity of the binding; the join key for leaf bookkeeping.
    pub id: FuncBindingId,
    /// The stored function the binding invokes.
    pub func_id: FuncId,
    /// Name of the command the binding was created for.
    pub name: String,
    /// Arguments of the invocation, as canonical JSON array text.
    pub args: String,
}

/// Mathematical value of a [`FuncBinding`].
pub ghost struct BindingSpec {
    pub id: FuncBindingId,
    pub func_id: FuncId,
    pub name: Seq<char>,
    pub args: Seq<char>,
}

impl View for FuncBinding {
    type V = BindingSpec;

    open spec fn view(&self) -> BindingSpec {
        BindingSpec { id: self.id, func_id: self.func_id, name: self.name@, args: self.args@ }
    }
}

impl FuncBinding {
    /// Returns a copy whose value equals this binding's.
    pub fn duplicate(&self) -> (r: Self)
        ensures
            r@ == self@,
    {
        FuncBinding {
            id: self.id,
            func_id: self.func_id,
            name: self.name.clone(),
            args: self.args.clone(),
        }
    }
}

/// A resolved child of a workflow tree node.
#[derive(Debug)]
pub enum WorkflowTreeStep {
    /// A fully resolved nested workflow.
    Workflow(WorkflowTree),
    /// A leaf command, resolved to its function binding.
    Command { func_binding: FuncBinding },
}

/// A fully resolved, executable workflow node.
#[derive(Debug)]
pub struct WorkflowTree {
    /// Name of the definition this node was resolved from.
    pub name: String,
    /// Execution discipline for the children.
    pub kind: WorkflowKind,
    /// Resolved children, in declared order.
    pub steps: Vec<WorkflowTreeStep>,
}

/// Mathematical value of a [`WorkflowTreeStep`].
pub ghost enum TreeStepSpec {
    Workflow(TreeSpec),
    Command(BindingSpec),
}

/// Mathematical value of a [`WorkflowTree`].
pub ghost struct TreeSpec {
    pub name: Seq<char>,
    pub kind: WorkflowKind,
    pub steps: Seq<TreeStepSpec>,
}

/// Mathematical value of a resolved tree node.
pub open spec fn tree_spec(t: WorkflowTree) -> TreeSpec
    decreases t,
{
    TreeSpec { name: t.name@, kind: t.kind, steps: tree_steps_spec(t.steps@) }
}

/// Mathematical values of a list of resolved children, in order.
pub open spec fn tree_steps_spec(ss: Seq<WorkflowTreeStep>) -> Seq<TreeStepSpec>
    decreases ss,
{
    if ss.len() == 0 {
        Seq::empty()
    } else {
        seq![tree_step_spec(ss[0])] + tree_steps_spec(ss.drop_first())
    }
}

/// Mathematical value of a resolved child.
pub open spec fn tree_step_spec(s: WorkflowTreeStep) -> TreeStepSpec
    decreases s,
{
    match s {
        WorkflowTreeStep::Workflow(sub) => TreeStepSpec::Workflow(tree_spec(sub)),
        WorkflowTreeStep::Command { func_binding } => TreeStepSpec::Command(func_binding@),
    }
}

/// The value of a child list is the pointwise value of its children.
pub proof fn lemma_tree_steps_spec(ss: Seq<WorkflowTreeStep>)
    ensures
        tree_steps_spec(ss).len() == ss.len(),
        forall|i: int|
            0 <= i < ss.len() ==> tree_steps_spec(ss)[i] == tree_step_spec(#[trigger] ss[i]),
    decreases ss,
{
    if ss.len() > 0 {
        lemma_tree_steps_spec(ss.drop_first());
        assert forall|i: int| 0 <= i < ss.len() implies tree_steps_spec(ss)[i] == tree_step_spec(
            #[trigger] ss[i],
        ) by {
            if i > 0 {
                assert(ss.drop_first()[i - 1] == ss[i]);
                assert(tree_steps_spec(ss)[i] == tree_steps_spec(ss.drop_first())[i - 1]);
            }
        }
    }
}

impl View for WorkflowTree {
    type V = TreeSpec;

    open spec fn view(&self) -> TreeSpec {
        tree_spec(*self)
    }
}

impl View for WorkflowTreeStep {
    type V = TreeStepSpec;

    open spec fn view(&self) -> TreeStepSpec {
        tree_step_spec(*self)
    }
}

/// The command leaves of a tree, in declared preorder.
pub open spec fn tree_leaves(t: TreeSpec) -> Seq<BindingSpec>
    decreases t,
{
    steps_leaves(t.steps)
}

/// The command leaves of a list of children, in declared preorder.
pub open spec fn steps_leaves(ss: Seq<TreeStepSpec>) -> Seq<BindingSpec>
    decreases ss,
{
    if ss.len() == 0 {
        Seq::empty()
    } else {
        step_leaves(ss[0]) + steps_leaves(ss.drop_first())
    }
}

/// The command leaves under one child.
pub open spec fn step_leaves(s: TreeStepSpec) -> Seq<BindingSpec>
    decreases s,
{
    match s {
        TreeStepSpec::Workflow(sub) => tree_leaves(sub),
        TreeStepSpec::Command(b) => seq![b],
    }
}

impl WorkflowTree {
    /// Returns a copy whose value equals this tree's.
    pub fn duplicate(&self) -> (r: Self)
        ensures
            r@ == self@,
        decreases *self,
    {
        let mut steps: Vec<WorkflowTreeStep> = Vec::new();
        let mut i: usize = 0;
        while i < self.steps.len()
            invariant
                i == steps@.len() <= self.steps@.len(),
                forall|j: int|
                    0 <= j < i ==> tree_step_spec(#[trigger] steps@[j]) == tree_step_spec(
                        self.steps@[j],
                    ),
            decreases self.steps@.len() - i,
        {
            let step = &self.steps[i];
            let copy = match step {
                WorkflowTreeStep::Workflow(sub) => WorkflowTreeStep::Workflow(sub.duplicate()),
                WorkflowTreeStep::Command { func_binding } => (WorkflowTreeStep::Command {
                    func_binding: func_binding.duplicate(),
                }),
            };
            steps.push(copy);
            i += 1;
        }
        proof {
            lemma_tree_steps_spec(steps@);
            lemma_tree_steps_spec(self.steps@);
            assert forall|j: int| 0 <= j < steps@.len() implies tree_steps_spec(steps@)[j]
                == tree_steps_spec(self.steps@)[j] by {
                assert(tree_step_spec(steps@[j]) == tree_step_spec(self.steps@[j]));
            }
            assert(tree_steps_spec(steps@) =~= tree_steps_spec(self.steps@));
        }
        WorkflowTree { name: self.name.clone(), kind: self.kind, steps }
    }
}

/// A stored command definition: the function a command name invokes.
#[derive(Debug)]
pub struct CommandDefinition {
    /// The command name steps refer to.
    pub name: String,
    /// The stored function the command invokes.
    pub func_id: FuncId,
}

/// Mathematical value of a [`CommandDefinition`].
pub ghost struct CommandDefSpec {
    pub name: Seq<char>,
    pub func_id: FuncId,
}

impl View for CommandDefinition {
    type V = CommandDefSpec;

    open spec fn view(&self) -> CommandDefSpec {
        CommandDefSpec { name: self.name@, func_id: self.func_id }
    }
}

/// The stored definitions a resolution runs against: the workflow definition
/// source and the command catalog, gathered into plain values.
#[derive(Debug)]
pub struct Definitions {
    /// Stored workflow definitions.
    pub workflows: Vec<WorkflowView>,
    /// Stored command definitions.
    pub commands: Vec<CommandDefinition>,
}

/// Mathematical value of a [`Definitions`].
pub ghost struct DefsSpec {
    pub workflows: Seq<ViewSpec>,
    pub commands: Seq<CommandDefSpec>,
}

impl View for Definitions {
    type V = DefsSpec;

    open spec fn view(&self) -> DefsSpec {
        DefsSpec {
            workflows: self.workflows@.map_values(|w: WorkflowView| w@),
            commands: self.commands@.map_values(|c: CommandDefinition| c@),
        }
    }
}

/// The first stored workflow definition under a name, if any.
pub open spec fn find_workflow(ws: Seq<ViewSpec>, name: Seq<char>) -> Option<ViewSpec>
    decreases ws,
{
    if ws.len() == 0 {
        None
    } else if ws[0].name == name {
        Some(ws[0])
    } else {
        find_workflow(ws.drop_first(), name)
    }
}

/// Whether a workflow definition is stored under a name.
pub open spec fn has_workflow(defs: DefsSpec, name: Seq<char>) -> bool {
    find_workflow(defs.workflows, name) is Some
}

/// The first stored command definition under a name, if any.
pub open spec fn find_command(cs: Seq<CommandDefSpec>, name: Seq<char>) -> Option<CommandDefSpec>
    decreases cs,
{
    if cs.len() == 0 {
        None
    } else if cs[0].name == name {
        Some(cs[0])
    } else {
        find_command(cs.drop_first(), name)
    }
}

/// Whether a command definition is stored under a name.
pub open spec fn has_command(defs: DefsSpec, name: Seq<char>) -> bool {
    find_command(defs.commands, name) is Some
}

/// A scan that saw no match in a prefix finds whatever the rest finds.
proof fn lemma_find_workflow_skip(ws: Seq<ViewSpec>, name: Seq<char>, i: int)
    requires
        0 <= i <= ws.len(),
        forall|j: int| 0 <= j < i ==> (#[trigger] ws[j]).name != name,
    ensures
        find_workflow(ws, name) == find_workflow(ws.skip(i), name),
    decreases i,
{
    if i > 0 {
        assert(ws[0].name != name);
        assert forall|j: int| 0 <= j < i - 1 implies (#[trigger] ws.drop_first()[j]).name
            != name by {
            assert(ws.drop_first()[j] == ws[j + 1]);
        }
        lemma_find_workflow_skip(ws.drop_first(), name, i - 1);
        assert(ws.drop_first().skip(i - 1) =~= ws.skip(i));
    } else {
        assert(ws.skip(0) =~= ws);
    }
}

/// A scan that saw no match in a prefix finds whatever the rest finds.
proof fn lemma_find_command_skip(cs: Seq<CommandDefSpec>, name: Seq<char>, i: int)
    requires
        0 <= i <= cs.len(),
        forall|j: int| 0 <= j < i ==> (#[trigger] cs[j]).name != name,
    ensures
        find_command(cs, name) == find_command(cs.skip(i), name),
    decreases i,
{
    if i > 0 {
        assert(cs[0].name != name);
        assert forall|j: int| 0 <= j < i - 1 implies (#[trigger] cs.drop_first()[j]).name
            != name by {
            assert(cs.drop_first()[j] == cs[j + 1]);
        }
        lemma_find_command_skip(cs.drop_first(), name, i - 1);
        assert(cs.drop_first().skip(i - 1) =~= cs.skip(i));
    } else {
        assert(cs.skip(0) =~= cs);
    }
}

impl Definitions {
    /// Looks up the workflow definition stored under `name`: the
    /// definition-source contract of the engine.
    pub fn get_workflow(&self, name: &String) -> (r: Option<&WorkflowView>)
        ensures
            (match r {
                Some(v) => find_workflow(self@.workflows, name@) == Some(v@),
                None => !has_workflow(self@, name@),
            }),
    {
        let ghost ws = self@.workflows;
        let mut i: usize = 0;
        while i < self.workflows.len()
            invariant
                i <= self.workflows@.len(),
                ws == self@.workflows,
                ws.len() == self.workflows@.len(),
                forall|j: int| 0 <= j < ws.len() ==> #[trigger] ws[j] == self.workflows@[j]@,
                forall|j: int| 0 <= j < i ==> (#[trigger] ws[j]).name != name@,
            decreases self.workflows@.len() - i,
        {
            if self.workflows[i].name == *name {
                proof {
                    lemma_find_workflow_skip(ws, name@, i as int);
                    assert(ws.skip(i as int)[0] == ws[i as int]);
                }
                return Some(&self.workflows[i]);
            }
            i += 1;
        }
        proof {
            lemma_find_workflow_skip(ws, name@, ws.len() as int);
            assert(ws.skip(ws.len() as int) =~= Seq::<ViewSpec>::empty());
        }
        None
    }

    /// Looks up the command definition stored under `name`.
    pub fn get_command(&self, name: &String) -> (r: Option<&CommandDefinition>)
        ensures
            (match r {
                Some(c) => find_command(self@.commands, name@) == Some(c@),
                None => !has_command(self@, name@),
            }),
    {
        let ghost cs = self@.commands;
        let mut i: usize = 0;
        while i < self.commands.len()
            invariant
                i <= self.commands@.len(),
                cs == self@.commands,
                cs.len() == self.commands@.len(),
                forall|j: int| 0 <= j < cs.len() ==> #[trigger] cs[j] == self.commands@[j]@,
                forall|j: int| 0 <= j < i ==> (#[trigger] cs[j]).name != name@,
            decreases self.commands@.len() - i,
        {
            if self.commands[i].name == *name {
                proof {
                    lemma_find_command_skip(cs, name@, i as int);
                    assert(cs.skip(i as int)[0] == cs[i as int]);
                }
                return Some(&self.commands[i]);
            }
            i += 1;
        }
        proof {
            lemma_find_command_skip(cs, name@, cs.len() as int);
            assert(cs.skip(cs.len() as int) =~= Seq::<CommandDefSpec>::empty());
        }
        None
    }
}

/// Whether a resolved tree conforms to the stored definitions: every node was
/// resolved from the definition stored under its name, with children matching
/// the declared steps in order, and every leaf binding carrying the declared
/// command's function and canonical arguments.
pub open spec fn tree_matches(defs: DefsSpec, t: TreeSpec) -> bool
    decreases t,
{
    match find_workflow(defs.workflows, t.name) {
        Some(v) => {
            &&& t.kind == v.kind
            &&& t.steps.len() == v.steps.len()
            &&& forall|i: int|
                0 <= i < t.steps.len() ==> step_matches(defs, v.steps[i], #[trigger] t.steps[i])
        },
        None => false,
    }
}

/// Whether a resolved child conforms to a declared step.
pub open spec fn step_matches(defs: DefsSpec, s: StepSpec, ts: TreeStepSpec) -> bool
    decreases ts,
{
    match s {
        StepSpec::Workflow { workflow, args } => {
            &&& ts matches TreeStepSpec::Workflow(sub)
            &&& sub.name == workflow
            &&& tree_matches(defs, sub)
        },
        StepSpec::Command { command, args } => {
            &&& ts matches TreeStepSpec::Command(b)
            &&& b.name == command
            &&& b.args == canon_of(args)
            &&& find_command(defs.commands, command) matches Some(cd) && b.func_id == cd.func_id
        },
    }
}

/// One recorded invocation of the workflow definition source.
#[derive(Debug)]
pub struct FetchKey {
    /// The workflow name that was fetched.
    pub name: String,
    /// The canonical argument text of the fetched reference.
    pub args: String,
}

/// Mathematical value of a [`FetchKey`].
pub ghost struct KeySpec {
    pub name: Seq<char>,
    pub args: Seq<char>,
}

impl View for FetchKey {
    type V = KeySpec;

    open spec fn view(&self) -> KeySpec {
        KeySpec { name: self.name@, args: self.args@ }
    }
}

/// Whether no two recorded fetches share a `(name, args)` key.
pub open spec fn fetched_distinct(ks: Seq<KeySpec>) -> bool {
    forall|i: int, j: int|
        0 <= i < j < ks.len() ==> !(#[trigger] ks[i].name == #[trigger] ks[j].name && ks[i].args
            == ks[j].args)
}

/// One memoized resolution: the tree a `(name, args)` reference resolved to.
#[derive(Debug)]
pub struct CacheEntry {
    /// The referenced workflow name.
    pub name: String,
    /// The canonical argument text of the reference.
    pub args: String,
    /// The tree the reference resolved to.
    pub tree: WorkflowTree,
}

/// Mathematical value of a [`CacheEntry`].
pub ghost struct CacheEntrySpec {
    pub name: Seq<char>,
    pub args: Seq<char>,
    pub tree: TreeSpec,
}

impl View for CacheEntry {
    type V = CacheEntrySpec;

    open spec fn view(&self) -> CacheEntrySpec {
        CacheEntrySpec { name: self.name@, args: self.args@, tree: self.tree@ }
    }
}

/// The resolution cache, keyed by `(name, canonical args)`.
#[derive(Debug)]
pub struct ResolutionCache {
    /// Memoized resolutions, in insertion order.
    pub entries: Vec<CacheEntry>,
}

impl View for ResolutionCache {
    type V = Seq<CacheEntrySpec>;

    open spec fn view(&self) -> Seq<CacheEntrySpec> {
        self.entries@.map_values(|e: CacheEntry| e@)
    }
}

/// Whether the cache holds an entry under a key.
pub open spec fn cache_has(c: Seq<CacheEntrySpec>, name: Seq<char>, args: Seq<char>) -> bool {
    exists|i: int| 0 <= i < c.len() && (#[trigger] c[i]).name == name && c[i].args == args
}

/// Whether every cached tree conforms to the definitions and is named after
/// its key.
pub open spec fn cache_wf(c: Seq<CacheEntrySpec>, defs: DefsSpec) -> bool {
    forall|i: int|
        0 <= i < c.len() ==> tree_matches(defs, (#[trigger] c[i]).tree) && c[i].tree.name == c[
            i
        ].name
}

/// The tree memoized under a key, if any.
pub open spec fn find_cached(c: Seq<CacheEntrySpec>, name: Seq<char>, args: Seq<char>) -> Option<
    TreeSpec,
>
    decreases c,
{
    if c.len() == 0 {
        None
    } else if c[0].name == name && c[0].args == args {
        Some(c[0].tree)
    } else {
        find_cached(c.drop_first(), name, args)
    }
}

/// Whether no two memoized entries share a `(name, args)` key.
pub open spec fn cache_keys_distinct(c: Seq<CacheEntrySpec>) -> bool {
    forall|i: int, j: int|
        0 <= i < j < c.len() ==> !((#[trigger] c[i]).name == (#[trigger] c[j]).name && c[i].args
            == c[j].args)
}

/// Growing the cache never changes what an already-present key finds.
proof fn lemma_find_cached_prefix(
    c1: Seq<CacheEntrySpec>,
    c2: Seq<CacheEntrySpec>,
    name: Seq<char>,
    args: Seq<char>,
)
    requires
        c1.is_prefix_of(c2),
        find_cached(c1, name, args) is Some,
    ensures
        find_cached(c2, name, args) == find_cached(c1, name, args),
    decreases c1,
{
    assert(c1.len() > 0);
    assert(c2[0] == c1[0]);
    if !(c1[0].name == name && c1[0].args == args) {
        assert(c1.drop_first().is_prefix_of(c2.drop_first())) by {
            assert(c1.drop_first() =~= c2.drop_first().subrange(0, c1.drop_first().len() as int));
        }
        lemma_find_cached_prefix(c1.drop_first(), c2.drop_first(), name, args);
    }
}

/// Memoizing a fresh key makes exactly that key found, as the new tree.
proof fn lemma_find_cached_absent_push(c: Seq<CacheEntrySpec>, e: CacheEntrySpec)
    requires
        !cache_has(c, e.name, e.args),
    ensures
        find_cached(c.push(e), e.name, e.args) == Some(e.tree),
    decreases c,
{
    if c.len() == 0 {
        assert(c.push(e)[0] == e);
    } else {
        assert(c.push(e)[0] == c[0]);
        assert(!(c[0].name == e.name && c[0].args == e.args));
        assert(!cache_has(c.drop_first(), e.name, e.args)) by {
            if cache_has(c.drop_first(), e.name, e.args) {
                let i = choose|i: int|
                    0 <= i < c.drop_first().len() && (#[trigger] c.drop_first()[i]).name == e.name
                        && c.drop_first()[i].args == e.args;
                assert(c[i + 1].name == e.name && c[i + 1].args == e.args);
            }
        }
        assert(c.push(e).drop_first() =~= c.drop_first().push(e));
        lemma_find_cached_absent_push(c.drop_first(), e);
    }
}

/// Under distinct keys, any matching entry is the one a lookup finds.
proof fn lemma_find_cached_unique(c: Seq<CacheEntrySpec>, gi: int)
    requires
        cache_keys_distinct(c),
        0 <= gi < c.len(),
    ensures
        find_cached(c, c[gi].name, c[gi].args) == Some(c[gi].tree),
    decreases c,
{
    if gi == 0 {
    } else {
        assert(!(c[0].name == c[gi].name && c[0].args == c[gi].args));
        assert forall|i: int, j: int| 0 <= i < j < c.drop_first().len() implies !((
        #[trigger] c.drop_first()[i]).name == (#[trigger] c.drop_first()[j]).name
            && c.drop_first()[i].args == c.drop_first()[j].args) by {
            assert(c.drop_first()[i] == c[i + 1] && c.drop_first()[j] == c[j + 1]);
        }
        assert(c.drop_first()[gi - 1] == c[gi]);
        lemma_find_cached_unique(c.drop_first(), gi - 1);
    }
}

/// Whether no two created bindings share a `(function, name, args)` key.
pub open spec fn bindings_distinct(bs: Seq<BindingSpec>) -> bool {
    forall|i: int, j: int|
        0 <= i < j < bs.len() ==> !((#[trigger] bs[i]).func_id == (#[trigger] bs[j]).func_id
            && bs[i].name == bs[j].name && bs[i].args == bs[j].args)
}

/// Growing the table never changes what an already-present key finds.
proof fn lemma_find_binding_prefix(
    b1: Seq<BindingSpec>,
    b2: Seq<BindingSpec>,
    func_id: FuncId,
    name: Seq<char>,
    args: Seq<char>,
)
    requires
        b1.is_prefix_of(b2),
        find_binding(b1, func_id, name, args) is Some,
    ensures
        find_binding(b2, func_id, name, args) == find_binding(b1, func_id, name, args),
    decreases b1,
{
    assert(b1.len() > 0);
    assert(b2[0] == b1[0]);
    if !(b1[0].func_id == func_id && b1[0].name == name && b1[0].args == args) {
        assert(b1.drop_first().is_prefix_of(b2.drop_first())) by {
            assert(b1.drop_first() =~= b2.drop_first().subrange(0, b1.drop_first().len() as int));
        }
        lemma_find_binding_prefix(b1.drop_first(), b2.drop_first(), func_id, name, args);
    }
}

/// Creating a fresh binding makes exactly its key found, as that binding.
proof fn lemma_find_binding_absent_push(bs: Seq<BindingSpec>, b: BindingSpec)
    requires
        find_binding(bs, b.func_id, b.name, b.args) is None,
    ensures
        find_binding(bs.push(b), b.func_id, b.name, b.args) == Some(b),
    decreases bs,
{
    if bs.len() == 0 {
        assert(bs.push(b)[0] == b);
    } else {
        assert(bs.push(b)[0] == bs[0]);
        assert(bs.push(b).drop_first() =~= bs.drop_first().push(b));
        lemma_find_binding_absent_push(bs.drop_first(), b);
    }
}

/// A found key has a matching entry; an unfound key has none.
proof fn lemma_find_binding_exists(bs: Seq<BindingSpec>, func_id: FuncId, name: Seq<char>, args: Seq<char>)
    ensures
        (find_binding(bs, func_id, name, args) is Some) <==> (exists|i: int|
            0 <= i < bs.len() && (#[trigger] bs[i]).func_id == func_id && bs[i].name == name
                && bs[i].args == args),
    decreases bs,
{
    if bs.len() > 0 {
        lemma_find_binding_exists(bs.drop_first(), func_id, name, args);
        if bs[0].func_id == func_id && bs[0].name == name && bs[0].args == args {
        } else {
            if exists|i: int|
                0 <= i < bs.len() && (#[trigger] bs[i]).func_id == func_id && bs[i].name == name
                    && bs[i].args == args {
                let i = choose|i: int|
                    0 <= i < bs.len() && (#[trigger] bs[i]).func_id == func_id && bs[i].name == name
                        && bs[i].args == args;
                assert(bs.drop_first()[i - 1] == bs[i]);
            }
            if find_binding(bs.drop_first(), func_id, name, args) is Some {
                let i = choose|i: int|
                    0 <= i < bs.drop_first().len() && (#[trigger] bs.drop_first()[i]).func_id
                        == func_id && bs.drop_first()[i].name == name && bs.drop_first()[i].args
                        == args;
                assert(bs[i + 1] == bs.drop_first()[i]);
            }
        }
    }
}

/// Whether a fetch log holds a `(name, args)` key.
pub open spec fn keys_contains(ks: Seq<KeySpec>, name: Seq<char>, args: Seq<char>) -> bool {
    exists|m: int| 0 <= m < ks.len() && (#[trigger] ks[m]).name == name && ks[m].args == args
}

/// Whether one resolved node's references are all served from the shared
/// tables: each workflow child is the tree memoized under its `(name,
/// canonical args)` key, and each command child's binding is the table's
/// binding for its key. Identical references therefore share one instance.
pub open spec fn children_linked(
    defs: DefsSpec,
    t: TreeSpec,
    c: Seq<CacheEntrySpec>,
    bs: Seq<BindingSpec>,
) -> bool {
    match find_workflow(defs.workflows, t.name) {
        Some(v) => {
            &&& t.steps.len() == v.steps.len()
            &&& forall|i: int|
                0 <= i < v.steps.len() ==> step_linked(defs, #[trigger] v.steps[i], t.steps[i], c, bs)
        },
        None => false,
    }
}

/// Whether one resolved child is served from the shared tables.
pub open spec fn step_linked(
    defs: DefsSpec,
    s: StepSpec,
    ts: TreeStepSpec,
    c: Seq<CacheEntrySpec>,
    bs: Seq<BindingSpec>,
) -> bool {
    match s {
        StepSpec::Workflow { workflow, args } => {
            &&& ts matches TreeStepSpec::Workflow(sub)
            &&& find_cached(c, workflow, canon_of(args)) == Some(sub)
        },
        StepSpec::Command { command, args } => {
            &&& ts matches TreeStepSpec::Command(b)
            &&& find_command(defs.commands, command) matches Some(cd) && find_binding(
                bs,
                cd.func_id,
                command,
                canon_of(args),
            ) == Some(b)
        },
    }
}

/// Whether every memoized tree's references are themselves served from the
/// shared tables.
pub open spec fn cache_linked(defs: DefsSpec, c: Seq<CacheEntrySpec>, bs: Seq<BindingSpec>) -> bool {
    forall|i: int| 0 <= i < c.len() ==> children_linked(defs, (#[trigger] c[i]).tree, c, bs)
}

/// Linkage survives growth of the shared tables.
proof fn lemma_children_linked_grow(
    defs: DefsSpec,
    t: TreeSpec,
    c1: Seq<CacheEntrySpec>,
    c2: Seq<CacheEntrySpec>,
    b1: Seq<BindingSpec>,
    b2: Seq<BindingSpec>,
)
    requires
        children_linked(defs, t, c1, b1),
        c1.is_prefix_of(c2),
        b1.is_prefix_of(b2),
    ensures
        children_linked(defs, t, c2, b2),
{
    let v = find_workflow(defs.workflows, t.name)->0;
    assert forall|i: int| 0 <= i < v.steps.len() implies step_linked(
        defs,
        #[trigger] v.steps[i],
        t.steps[i],
        c2,
        b2,
    ) by {
        assert(step_linked(defs, v.steps[i], t.steps[i], c1, b1));
        match v.steps[i] {
            StepSpec::Workflow { workflow, args } => {
                lemma_find_cached_prefix(c1, c2, workflow, canon_of(args));
            },
            StepSpec::Command { command, args } => {
                let cd = find_command(defs.commands, command)->0;
                lemma_find_binding_prefix(b1, b2, cd.func_id, command, canon_of(args));
            },
        }
    }
}

/// Law: two references bearing the same `(name, canonical args)` key in one
/// resolved node are the same subtree: both equal the tree memoized under
/// the key, so the repeated sub-workflow was constructed once and shared.
pub proof fn lemma_identical_references_share_subtree(
    defs: DefsSpec,
    v: ViewSpec,
    t: TreeSpec,
    c: Seq<CacheEntrySpec>,
    bs: Seq<BindingSpec>,
    i: int,
    j: int,
)
    requires
        children_linked(defs, t, c, bs),
        find_workflow(defs.workflows, t.name) == Some(v),
        0 <= i < v.steps.len(),
        0 <= j < v.steps.len(),
        (v.steps[i] matches StepSpec::Workflow { workflow: w1, args: a1 } && (v.steps[j]
            matches StepSpec::Workflow { workflow: w2, args: a2 } && w1 == w2 && canon_of(a1)
            == canon_of(a2))),
    ensures
        t.steps[i] == t.steps[j],
{
    assert(step_linked(defs, v.steps[i], t.steps[i], c, bs));
    assert(step_linked(defs, v.steps[j], t.steps[j], c, bs));
}

/// A key found in a prefix is found in the whole.
proof fn lemma_cache_prefix_has(c1: Seq<CacheEntrySpec>, c2: Seq<CacheEntrySpec>)
    requires
        c1.is_prefix_of(c2),
    ensures
        forall|n: Seq<char>, a: Seq<char>| cache_has(c1, n, a) ==> #[trigger] cache_has(c2, n, a),
{
    assert forall|n: Seq<char>, a: Seq<char>| cache_has(c1, n, a) implies #[trigger] cache_has(
        c2,
        n,
        a,
    ) by {
        let i = choose|i: int| 0 <= i < c1.len() && (#[trigger] c1[i]).name == n && c1[i].args == a;
        assert(c2[i].name == n && c2[i].args == a);
    }
}

impl ResolutionCache {
    /// An empty cache.
    pub fn new() -> (r: Self)
        ensures
            r@ == Seq::<CacheEntrySpec>::empty(),
    {
        let r = ResolutionCache { entries: Vec::new() };
        proof {
            assert(r@ =~= Seq::<CacheEntrySpec>::empty());
        }
        r
    }

    /// Returns a copy of the tree memoized under a key, if any.
    pub fn get(&self, name: &String, args: &String) -> (r: Option<WorkflowTree>)
        ensures
            (match r {
                Some(t) => exists|i: int|
                    0 <= i < self@.len() && (#[trigger] self@[i]).name == name@ && self@[i].args
                        == args@ && t@ == self@[i].tree,
                None => !cache_has(self@, name@, args@),
            }),
    {
        let mut i: usize = 0;
        while i < self.entries.len()
            invariant
                i <= self.entries@.len(),
                self@.len() == self.entries@.len(),
                forall|j: int| 0 <= j < self@.len() ==> #[trigger] self@[j] == self.entries@[j]@,
                forall|j: int|
                    0 <= j < i ==> !((#[trigger] self@[j]).name == name@ && self@[j].args == args@),
            decreases self.entries@.len() - i,
        {
            let entry = &self.entries[i];
            if entry.name == *name && entry.args == *args {
                let t = entry.tree.duplicate();
                proof {
                    assert((self@[i as int]).name == name@ && self@[i as int].args == args@ && t@
                        == self@[i as int].tree);
                }
                return Some(t);
            }
            i += 1;
        }
        None
    }

    /// Memoizes a resolution under a key.
    pub fn insert(&mut self, name: String, args: String, tree: WorkflowTree)
        ensures
            final(self)@ == old(self)@.push(
                (CacheEntrySpec { name: name@, args: args@, tree: tree@ }),
            ),
    {
        let ghost before = self@;
        self.entries.push(CacheEntry { name, args, tree });
        proof {
            assert(self@ =~= before.push(self@[before.len() as int]));
        }
    }
}

/// The first binding in a table for a function, command name, and canonical
/// arguments, if any.
pub open spec fn find_binding(
    bs: Seq<BindingSpec>,
    func_id: FuncId,
    name: Seq<char>,
    args: Seq<char>,
) -> Option<BindingSpec>
    decreases bs,
{
    if bs.len() == 0 {
        None
    } else if bs[0].func_id == func_id && bs[0].name == name && bs[0].args == args {
        Some(bs[0])
    } else {
        find_binding(bs.drop_first(), func_id, name, args)
    }
}

/// A scan that saw no match in a prefix finds whatever the rest finds.
proof fn lemma_find_binding_skip(
    bs: Seq<BindingSpec>,
    func_id: FuncId,
    name: Seq<char>,
    args: Seq<char>,
    i: int,
)
    requires
        0 <= i <= bs.len(),
        forall|j: int|
            0 <= j < i ==> !((#[trigger] bs[j]).func_id == func_id && bs[j].name == name
                && bs[j].args == args),
    ensures
        find_binding(bs, func_id, name, args) == find_binding(bs.skip(i), func_id, name, args),
    decreases i,
{
    if i > 0 {
        assert forall|j: int|
            0 <= j < i - 1 implies !((#[trigger] bs.drop_first()[j]).func_id == func_id
            && bs.drop_first()[j].name == name && bs.drop_first()[j].args == args) by {
            assert(bs.drop_first()[j] == bs[j + 1]);
        }
        lemma_find_binding_skip(bs.drop_first(), func_id, name, args, i - 1);
        assert(bs.drop_first().skip(i - 1) =~= bs.skip(i));
    } else {
        assert(bs.skip(0) =~= bs);
    }
}

/// The table of function bindings created while resolving, deduplicated by
/// `(function, command name, canonical args)`: a repeated command reference
/// reuses the binding it created first.
#[derive(Debug)]
pub struct BindingTable {
    /// Created bindings, in creation order.
    pub entries: Vec<FuncBinding>,
    /// The identifier the next created binding receives.
    pub next_id: u64,
}

/// Mathematical value of a [`BindingTable`].
pub ghost struct BindingTableSpec {
    pub entries: Seq<BindingSpec>,
    pub next_id: u64,
}

impl View for BindingTable {
    type V = BindingTableSpec;

    open spec fn view(&self) -> BindingTableSpec {
        BindingTableSpec {
            entries: self.entries@.map_values(|b: FuncBinding| b@),
            next_id: self.next_id,
        }
    }
}

impl BindingTable {
    /// An empty table; created binding identifiers start at 1, leaving 0 as
    /// the "none" sentinel.
    pub fn new() -> (r: Self)
        ensures
            r@.entries == Seq::<BindingSpec>::empty(),
            r@.next_id == 1,
    {
        let r = BindingTable { entries: Vec::new(), next_id: 1 };
        proof {
            assert(r@.entries =~= Seq::<BindingSpec>::empty());
        }
        r
    }

    /// Returns the binding for a function, command name, and canonical
    /// arguments, creating and recording one if none exists yet.
    pub fn find_or_create(&mut self, func_id: FuncId, name: &String, args: String) -> (r:
        FuncBinding)
        ensures
            r@.func_id == func_id && r@.name == name@ && r@.args == args@,
            (match find_binding(old(self)@.entries, func_id, name@, args@) {
                Some(b) => r@ == b && final(self)@ == old(self)@,
                None => {
                    &&& r@.id == FuncBindingId(old(self)@.next_id)
                    &&& final(self)@.entries == old(self)@.entries.push(r@)
                    &&& final(self)@.next_id == (if old(self)@.next_id < u64::MAX {
                        (old(self)@.next_id + 1) as u64
                    } else {
                        u64::MAX
                    })
                },
            }),
    {
        let ghost bs = self@.entries;
        let mut i: usize = 0;
        while i < self.entries.len()
            invariant
                i <= self.entries@.len(),
                bs == self@.entries,
                bs.len() == self.entries@.len(),
                forall|j: int| 0 <= j < bs.len() ==> #[trigger] bs[j] == self.entries@[j]@,
                forall|j: int|
                    0 <= j < i ==> !((#[trigger] bs[j]).func_id == func_id && bs[j].name == name@
                        && bs[j].args == args@),
            decreases self.entries@.len() - i,
        {
            let entry = &self.entries[i];
            if entry.func_id == func_id && entry.name == *name && entry.args == args {
                proof {
                    lemma_find_binding_skip(bs, func_id, name@, args@, i as int);
                    assert(bs.skip(i as int)[0] == bs[i as int]);
                }
                return self.entries[i].duplicate();
            }
            i += 1;
        }
        proof {
            lemma_find_binding_skip(bs, func_id, name@, args@, bs.len() as int);
            assert(bs.skip(bs.len() as int) =~= Seq::<BindingSpec>::empty());
        }
        let binding = FuncBinding { id: FuncBindingId(self.next_id), func_id, name: name.clone(), args };
        let copy = binding.duplicate();
        self.entries.push(binding);
        self.next_id = if self.next_id < u64::MAX {
            self.next_id + 1
        } else {
            u64::MAX
        };
        proof {
            assert(self@.entries =~= bs.push(copy@));
        }
        copy
    }
}

/// Whether a name stands on the active expansion path.
pub open spec fn marker_has(m: Seq<String>, name: Seq<char>) -> bool {
    exists|i: int| 0 <= i < m.len() && (#[trigger] m[i])@ == name
}

/// Tests whether a name stands on the active expansion path.
fn marker_contains(m: &Vec<String>, name: &String) -> (r: bool)
    ensures
        r == marker_has(m@, name@),
{
    let mut i: usize = 0;
    while i < m.len()
        invariant
            i <= m@.len(),
            forall|j: int| 0 <= j < i ==> (#[trigger] m@[j])@ != name@,
        decreases m@.len() - i,
    {
        if m[i] == *name {
            proof {
                assert((m@[i as int])@ == name@);
            }
            return true;
        }
        i += 1;
    }
    false
}

/// Copies the active expansion path and appends one more name to it.
fn extend_marker(m: &Vec<String>, name: &String) -> (r: Vec<String>)
    ensures
        r@ == m@.push(*name),
{
    let mut r: Vec<String> = Vec::new();
    let mut i: usize = 0;
    while i < m.len()
        invariant
            i <= m@.len(),
            r@.len() == i,
            forall|j: int| 0 <= j < i ==> #[trigger] r@[j] == m@[j],
        decreases m@.len() - i,
    {
        r.push(m[i].clone());
        i += 1;
    }
    r.push(name.clone());
    proof {
        assert(r@ =~= m@.push(*name));
    }
    r
}

/// Adding a name to the path marks exactly that name in addition.
proof fn lemma_marker_push(m: Seq<String>, x: String)
    ensures
        forall|y: Seq<char>| #[trigger] marker_has(m.push(x), y) <==> (marker_has(m, y) || x@ == y),
{
    assert forall|y: Seq<char>| #[trigger] marker_has(m.push(x), y) <==> (marker_has(m, y) || x@
        == y) by {
        if marker_has(m.push(x), y) {
            let i = choose|i: int| 0 <= i < m.push(x).len() && (#[trigger] m.push(x)[i])@ == y;
            if i < m.len() {
                assert((m[i])@ == y);
            } else {
                assert(x@ == y);
            }
        }
        if marker_has(m, y) {
            let i = choose|i: int| 0 <= i < m.len() && (#[trigger] m[i])@ == y;
            assert((m.push(x)[i])@ == y);
        }
        if x@ == y {
            assert((m.push(x)[m.len() as int])@ == y);
        }
    }
}

/// How many stored workflow definitions are named off the active path. This
/// is the termination measure of resolution: expanding a definition moves its
/// name onto the path for the whole subtree below it.
pub open spec fn unmarked_count(ws: Seq<ViewSpec>, m: Seq<String>) -> nat
    decreases ws,
{
    if ws.len() == 0 {
        0
    } else {
        (if marker_has(m, ws[0].name) {
            0nat
        } else {
            1nat
        }) + unmarked_count(ws.drop_first(), m)
    }
}

/// Marking one more name never raises the measure; it lowers the measure
/// strictly when a definition bears the name and the name was off the path,
/// and keeps it exactly when no definition bears the name.
proof fn lemma_unmarked_push(ws: Seq<ViewSpec>, m: Seq<String>, x: String)
    ensures
        unmarked_count(ws, m.push(x)) <= unmarked_count(ws, m),
        ((exists|i: int| 0 <= i < ws.len() && (#[trigger] ws[i]).name == x@) && !marker_has(m, x@))
            ==> unmarked_count(ws, m.push(x)) < unmarked_count(ws, m),
        (forall|i: int| 0 <= i < ws.len() ==> (#[trigger] ws[i]).name != x@) ==> unmarked_count(
            ws,
            m.push(x),
        ) == unmarked_count(ws, m),
    decreases ws,
{
    lemma_marker_push(m, x);
    if ws.len() > 0 {
        lemma_unmarked_push(ws.drop_first(), m, x);
        if (exists|i: int| 0 <= i < ws.len() && (#[trigger] ws[i]).name == x@) && !marker_has(
            m,
            x@,
        ) {
            let i = choose|i: int| 0 <= i < ws.len() && (#[trigger] ws[i]).name == x@;
            if i == 0 {
                assert(marker_has(m.push(x), ws[0].name));
            } else {
                assert(ws.drop_first()[i - 1].name == x@);
            }
        }
        if forall|i: int| 0 <= i < ws.len() ==> (#[trigger] ws[i]).name != x@ {
            assert forall|j: int|
                0 <= j < ws.drop_first().len() implies (#[trigger] ws.drop_first()[j]).name
                != x@ by {
                assert(ws.drop_first()[j] == ws[j + 1]);
            }
            assert(ws[0].name != x@);
        }
    }
}

/// The mathematical values of recorded fetch keys, in order.
pub open spec fn keys_of(ks: Seq<FetchKey>) -> Seq<KeySpec> {
    ks.map_values(|k: FetchKey| k@)
}

/// Whether a fetch key is answered by the cache or stands on the active path.
pub open spec fn key_covered(k: KeySpec, c: Seq<CacheEntrySpec>, m: Seq<String>) -> bool {
    cache_has(c, k.name, k.args) || marker_has(m, k.name)
}

/// Every sequence is a prefix of itself.
proof fn lemma_prefix_reflexive<T>(s: Seq<T>)
    ensures
        s.is_prefix_of(s),
{
    assert(s =~= s.subrange(0, s.len() as int));
}

/// Prefixes compose.
proof fn lemma_prefix_trans<T>(a: Seq<T>, b: Seq<T>, c: Seq<T>)
    requires
        a.is_prefix_of(b),
        b.is_prefix_of(c),
    ensures
        a.is_prefix_of(c),
{
    assert(a =~= c.subrange(0, a.len() as int));
}

/// Appending extends a sequence to one it is a prefix of.
proof fn lemma_prefix_push<T>(a: Seq<T>, x: T)
    ensures
        a.is_prefix_of(a.push(x)),
{
    assert(a =~= a.push(x).subrange(0, a.len() as int));
}

/// A found definition bears the name it was found under.
proof fn lemma_find_workflow_name(ws: Seq<ViewSpec>, name: Seq<char>)
    ensures
        find_workflow(ws, name) matches Some(v) ==> v.name == name,
    decreases ws,
{
    if ws.len() > 0 && ws[0].name != name {
        lemma_find_workflow_name(ws.drop_first(), name);
    }
}

/// A name is found exactly when some definition bears it.
proof fn lemma_find_workflow_exists(ws: Seq<ViewSpec>, name: Seq<char>)
    ensures
        (find_workflow(ws, name) is Some) <==> (exists|i: int|
            0 <= i < ws.len() && (#[trigger] ws[i]).name == name),
    decreases ws,
{
    if ws.len() > 0 {
        lemma_find_workflow_exists(ws.drop_first(), name);
        if ws[0].name == name {
        } else {
            if exists|i: int| 0 <= i < ws.len() && (#[trigger] ws[i]).name == name {
                let i = choose|i: int| 0 <= i < ws.len() && (#[trigger] ws[i]).name == name;
                assert(ws.drop_first()[i - 1].name == name);
            }
            if find_workflow(ws.drop_first(), name) is Some {
                let i = choose|i: int|
                    0 <= i < ws.drop_first().len() && (#[trigger] ws.drop_first()[i]).name == name;
                assert(ws[i + 1].name == name);
            }
        }
    }
}

/// The product of one root resolution.
#[derive(Debug)]
pub struct Resolution {
    /// The fully resolved tree.
    pub tree: WorkflowTree,
    /// Every function binding created during resolution, deduplicated by
    /// `(function, command name, canonical args)`.
    pub bindings: Vec<FuncBinding>,
    /// The memoized sub-resolutions, one per distinct `(name, canonical
    /// args)` reference key; repeated references share the entry's tree.
    pub cache: Vec<CacheEntry>,
    /// Every invocation of the definition source, in order. No `(name, args)`
    /// key is fetched twice: repeated references are answered from the cache.
    pub fetched: Vec<FetchKey>,
}

impl WorkflowView {
    /// Resolves the workflow stored under `name` into an executable tree.
    ///
    /// On success the tree conforms to the stored definitions ([`tree_matches`]),
    /// and the definition source was invoked at most once per `(name, args)`
    /// key. Success is owed whenever the definitions admit a full expansion
    /// ([`resolvable`]): stored, closed, acyclic, with parseable argument
    /// text. Each error is tied to its cause: a name reported missing is
    /// indeed not stored and referenced, a cycle error names a real
    /// reference cycle, an argument error names a stored step whose text
    /// does not parse, and no other error kind is ever returned.
    pub fn resolve(defs: &Definitions, name: &String) -> (r: Result<Resolution, WorkflowError>)
        ensures
            r matches Ok(res) ==> tree_matches(defs@, res.tree@) && res.tree@.name == name@,
            r matches Ok(res) ==> fetched_distinct(keys_of(res.fetched@)),
            r matches Ok(res) ==> ({
                let cs = res.cache@.map_values(|e: CacheEntry| e@);
                let bs = res.bindings@.map_values(|b: FuncBinding| b@);
                &&& cache_keys_distinct(cs)
                &&& cache_linked(defs@, cs, bs)
                &&& children_linked(defs@, res.tree@, cs, bs)
                &&& bindings_distinct(bs)
                &&& res.fetched@.len() >= 1
                &&& keys_of(res.fetched@)[0] == (KeySpec { name: name@, args: "[]"@ })
                &&& forall|j: int|
                    0 <= j < cs.len() ==> keys_contains(
                        keys_of(res.fetched@),
                        (#[trigger] cs[j]).name,
                        cs[j].args,
                    )
            }),
            forall|f: nat| #[trigger] resolvable(defs@, name@, f) ==> r is Ok,
            r matches Err(e) ==> e is MissingWorkflow || e is MissingCommand || e is CyclicWorkflow
                || e is Serde,
            r matches Err(WorkflowError::Serde(_)) ==> some_step_args_bad(defs@),
            !has_workflow(defs@, name@) ==> (r matches Err(WorkflowError::MissingWorkflow(n))
                && n@ == name@),
            r matches Err(WorkflowError::MissingWorkflow(n)) ==> !has_workflow(defs@, n@) && (n@
                == name@ || some_view_references(defs@, n@)),
            r matches Err(WorkflowError::MissingCommand(c)) ==> !has_command(defs@, c@)
                && some_view_references_command(defs@, c@),
            r matches Err(WorkflowError::CyclicWorkflow(n)) ==> on_reference_cycle(defs@, n@),
            (find_workflow(defs@.workflows, name@) matches Some(v) && (exists|i: int|
                0 <= i < v.steps.len() && ((#[trigger] v.steps[i]) matches StepSpec::Workflow {
                    workflow,
                    ..
                } && workflow == name@))) ==> r is Err,
    {
        let marker: Vec<String> = Vec::new();
        let mut cache = ResolutionCache::new();
        let mut bindings = BindingTable::new();
        let mut fetched: Vec<FetchKey> = Vec::new();
        let args_key = root_args_key();
        proof {
            assert(keys_of(fetched@) =~= Seq::<KeySpec>::empty());
        }
        let tree = match Self::resolve_inner(
            defs,
            name,
            &args_key,
            &marker,
            &mut cache,
            &mut bindings,
            &mut fetched,
        ) {
            Ok(t) => t,
            Err(e) => {
                return Err(e);
            },
        };
        proof {
            assert(keys_of(fetched@)[0] == (KeySpec { name: name@, args: args_key@ }));
            assert(args_key@ == "[]"@);
        }
        Ok(Resolution { tree, bindings: bindings.entries, cache: cache.entries, fetched })
    }

    /// Expands one `(name, args)` reference against the definitions, with
    /// `marker` holding the names on the active expansion path, memoizing
    /// sub-resolutions in `cache`, deduplicating bindings in `bindings`, and
    /// recording definition-source invocations in `fetched`.
    ///
    /// Expansion terminates on every definition set, cyclic or not: the
    /// measure counts the stored definitions named off the active path, and
    /// every recursion moves one more stored name onto the path, so the
    /// recursion depth never exceeds the number of stored definitions.
    #[verifier::rlimit(100)]
    fn resolve_inner(
        defs: &Definitions,
        name: &String,
        args_key: &String,
        marker: &Vec<String>,
        cache: &mut ResolutionCache,
        bindings: &mut BindingTable,
        fetched: &mut Vec<FetchKey>,
    ) -> (r: Result<WorkflowTree, WorkflowError>)
        requires
            !marker_has(marker@, name@),
            marker_path(defs@, marker@),
            marker@.len() > 0 ==> refs(defs@, (marker@[marker@.len() - 1])@, name@),
            !cache_has(old(cache)@, name@, args_key@),
            cache_wf(old(cache)@, defs@),
            cache_keys_distinct(old(cache)@),
            cache_linked(defs@, old(cache)@, old(bindings)@.entries),
            bindings_distinct(old(bindings)@.entries),
            fetched_distinct(keys_of(old(fetched)@)),
            forall|j: int|
                0 <= j < old(fetched)@.len() ==> key_covered(
                    #[trigger] keys_of(old(fetched)@)[j],
                    old(cache)@,
                    marker@,
                ),
        ensures
            old(cache)@.is_prefix_of(final(cache)@),
            cache_wf(final(cache)@, defs@),
            old(fetched)@.is_prefix_of(final(fetched)@),
            fetched_distinct(keys_of(final(fetched)@)),
            forall|j: int|
                old(fetched)@.len() <= j < final(fetched)@.len() ==> !marker_has(
                    marker@,
                    (#[trigger] keys_of(final(fetched)@)[j]).name,
                ),
            r is Ok ==> forall|j: int|
                old(fetched)@.len() <= j < final(fetched)@.len() ==> cache_has(
                    final(cache)@,
                    (#[trigger] keys_of(final(fetched)@)[j]).name,
                    keys_of(final(fetched)@)[j].args,
                ) || (keys_of(final(fetched)@)[j] == (KeySpec {
                    name: name@,
                    args: args_key@,
                })),
            r matches Ok(t) ==> tree_matches(defs@, t@) && t@.name == name@,
            r is Ok ==> (find_workflow(defs@.workflows, name@) matches Some(v) && (forall|i: int|
                0 <= i < v.steps.len() ==> ((#[trigger] v.steps[i]) matches StepSpec::Workflow {
                    workflow,
                    ..
                } ==> !marker_has(marker@, workflow) && workflow != name@))),
            r matches Err(WorkflowError::MissingWorkflow(n)) ==> !has_workflow(defs@, n@) && (n@
                == name@ || some_view_references(defs@, n@)),
            r matches Err(WorkflowError::MissingCommand(c)) ==> !has_command(defs@, c@)
                && some_view_references_command(defs@, c@),
            r matches Err(WorkflowError::CyclicWorkflow(n)) ==> on_reference_cycle(defs@, n@),
            r matches Err(e) ==> e is MissingWorkflow || e is MissingCommand || e is CyclicWorkflow
                || e is Serde,
            r matches Err(WorkflowError::Serde(_)) ==> some_step_args_bad(defs@),
            !has_workflow(defs@, name@) ==> (r matches Err(WorkflowError::MissingWorkflow(n))
                && n@ == name@),
            r is Err ==> forall|f: nat| !resolvable(defs@, name@, f),
            cache_keys_distinct(final(cache)@),
            cache_linked(defs@, final(cache)@, final(bindings)@.entries),
            bindings_distinct(final(bindings)@.entries),
            old(bindings)@.entries.is_prefix_of(final(bindings)@.entries),
            forall|j: int|
                old(cache)@.len() <= j < final(cache)@.len() ==> !marker_has(
                    marker@,
                    (#[trigger] final(cache)@[j]).name,
                ) && (final(cache)@[j]).name != name@,
            r is Ok ==> final(fetched)@.len() > old(fetched)@.len() && keys_of(final(fetched)@)[old(
                fetched,
            )@.len() as int] == (KeySpec { name: name@, args: args_key@ }),
            r is Ok ==> forall|j: int|
                old(cache)@.len() <= j < final(cache)@.len() ==> keys_contains(
                    keys_of(final(fetched)@),
                    (#[trigger] final(cache)@[j]).name,
                    (final(cache)@[j]).args,
                ),
            r matches Ok(t) ==> children_linked(defs@, t@, final(cache)@, final(bindings)@.entries),
        decreases unmarked_count(defs@.workflows, marker@.push(*name)), (if has_workflow(
            defs@,
            name@,
        ) {
            1int
        } else {
            0int
        }),
    {
        let ghost own = KeySpec { name: name@, args: args_key@ };
        let view = match defs.get_workflow(name) {
            Some(v) => v,
            None => {
                proof {
                    lemma_prefix_reflexive(cache@);
                    lemma_prefix_reflexive(fetched@);
                    lemma_prefix_reflexive(bindings@.entries);
                    assert forall|f: nat| !resolvable(defs@, name@, f) by {
                        assert(!has_workflow(defs@, name@));
                    }
                }
                return Err(WorkflowError::MissingWorkflow(name.clone()));
            },
        };
        let ghost vs = view@;
        proof {
            lemma_find_workflow_name(defs@.workflows, name@);
        }
        let marker2 = extend_marker(marker, name);
        proof {
            lemma_marker_push(marker@, *name);
            assert forall|j: int| 0 <= j < marker2@.len() - 1 implies refs(
                defs@,
                (#[trigger] marker2@[j])@,
                (marker2@[j + 1])@,
            ) by {
                if j < marker@.len() - 1 {
                    assert(marker2@[j] == marker@[j] && marker2@[j + 1] == marker@[j + 1]);
                } else {
                    assert(marker2@[j] == marker@[marker@.len() - 1]);
                    assert(marker2@[j + 1] == *name);
                }
            }
            assert(marker_path(defs@, marker2@));
        }
        fetched.push(FetchKey { name: name.clone(), args: args_key.clone() });
        proof {
            assert(keys_of(fetched@) =~= keys_of(old(fetched)@).push(own));
            assert forall|j: int| 0 <= j < old(fetched)@.len() implies !(keys_of(fetched@)[j].name
                == own.name && keys_of(fetched@)[j].args == own.args) by {
                assert(key_covered(keys_of(old(fetched)@)[j], old(cache)@, marker@));
            }
            lemma_prefix_push(old(fetched)@, (FetchKey { name: *name, args: *args_key }));
            assert(old(fetched)@.is_prefix_of(fetched@));
            lemma_prefix_reflexive(bindings@.entries);
        }
        let mut steps: Vec<WorkflowTreeStep> = Vec::new();
        let mut i: usize = 0;
        while i < view.steps.len()
            invariant
                defs.workflows@.len() == defs@.workflows.len(),
                vs == view@,
                !marker_has(marker@, name@),
                find_workflow(defs@.workflows, name@) == Some(vs),
                has_workflow(defs@, name@),
                vs.steps.len() == view.steps@.len(),
                forall|j: int| 0 <= j < vs.steps.len() ==> vs.steps[j] == (#[trigger] view.steps@[j])@,
                i <= view.steps@.len(),
                steps@.len() == i,
                forall|j: int|
                    0 <= j < i ==> step_matches(defs@, vs.steps[j], tree_step_spec(
                        #[trigger] steps@[j],
                    )),
                forall|j: int|
                    0 <= j < i ==> ((#[trigger] vs.steps[j]) matches StepSpec::Workflow {
                        workflow,
                        ..
                    } ==> !marker_has(marker2@, workflow)),
                marker2@ == marker@.push(*name),
                marker_path(defs@, marker2@),
                cache_wf(cache@, defs@),
                cache_keys_distinct(cache@),
                cache_linked(defs@, cache@, bindings@.entries),
                bindings_distinct(bindings@.entries),
                old(bindings)@.entries.is_prefix_of(bindings@.entries),
                old(cache)@.is_prefix_of(cache@),
                keys_of(fetched@)[old(fetched)@.len() as int] == own,
                forall|j: int|
                    old(cache)@.len() <= j < cache@.len() ==> !marker_has(
                        marker@,
                        (#[trigger] cache@[j]).name,
                    ) && (cache@[j]).name != name@,
                forall|j: int|
                    old(cache)@.len() <= j < cache@.len() ==> keys_contains(
                        keys_of(fetched@),
                        (#[trigger] cache@[j]).name,
                        (cache@[j]).args,
                    ),
                forall|j: int|
                    0 <= j < i ==> step_linked(
                        defs@,
                        vs.steps[j],
                        tree_step_spec(#[trigger] steps@[j]),
                        cache@,
                        bindings@.entries,
                    ),
                old(fetched)@.is_prefix_of(fetched@),
                fetched@.len() > old(fetched)@.len(),
                fetched_distinct(keys_of(fetched@)),
                forall|j: int|
                    old(fetched)@.len() <= j < fetched@.len() ==> cache_has(
                        cache@,
                        (#[trigger] keys_of(fetched@)[j]).name,
                        keys_of(fetched@)[j].args,
                    ) || keys_of(fetched@)[j] == own,
                forall|j: int|
                    old(fetched)@.len() <= j < fetched@.len() ==> !marker_has(
                        marker@,
                        (#[trigger] keys_of(fetched@)[j]).name,
                    ),
                forall|j: int|
                    0 <= j < fetched@.len() ==> key_covered(
                        #[trigger] keys_of(fetched@)[j],
                        cache@,
                        marker2@,
                    ),
            decreases view.steps@.len() - i,
        {
            let step = &view.steps[i];
            match step {
                WorkflowStep::Workflow { workflow, args } => {
                    proof {
                        assert(vs.steps[i as int] matches StepSpec::Workflow { workflow: w2, .. }
                            && w2 == workflow@);
                        assert(refs(defs@, name@, workflow@));
                    }
                    if marker_contains(&marker2, workflow) {
                        proof {
                            let m2 = marker2@;
                            let idx = choose|idx: int|
                                0 <= idx < m2.len() && (#[trigger] m2[idx])@ == workflow@;
                            let c = Seq::new(
                                (m2.len() - idx + 1) as nat,
                                |j: int|
                                    if j < m2.len() - idx {
                                        (m2[idx + j])@
                                    } else {
                                        workflow@
                                    },
                            );
                            assert(c[0] == workflow@);
                            assert(c[c.len() - 1] == workflow@);
                            assert forall|j: int| 0 <= j < c.len() - 1 implies refs(
                                defs@,
                                #[trigger] c[j],
                                c[j + 1],
                            ) by {
                                if j < c.len() - 2 {
                                    assert(c[j] == (m2[idx + j])@ && c[j + 1] == (m2[idx + j
                                        + 1])@);
                                    assert(refs(defs@, (m2[idx + j])@, (m2[idx + j + 1])@));
                                } else {
                                    assert(c[j] == (m2[m2.len() - 1])@);
                                    assert((m2[m2.len() - 1])@ == name@);
                                }
                            }
                            assert(on_reference_cycle(defs@, workflow@));
                            let c2 = Seq::new(
                                (m2.len() - idx + 1) as nat,
                                |j: int|
                                    if j == 0 {
                                        name@
                                    } else {
                                        (m2[idx + j - 1])@
                                    },
                            );
                            assert(c2[0] == name@);
                            assert((m2[m2.len() - 1])@ == name@);
                            assert(c2[c2.len() - 1] == name@);
                            assert forall|j: int| 0 <= j < c2.len() - 1 implies refs(
                                defs@,
                                #[trigger] c2[j],
                                c2[j + 1],
                            ) by {
                                if j == 0 {
                                    assert(c2[1] == (m2[idx])@);
                                    assert((m2[idx])@ == workflow@);
                                } else {
                                    assert(c2[j] == (m2[idx + j - 1])@ && c2[j + 1] == (m2[idx
                                        + j])@);
                                    assert(refs(defs@, (m2[idx + j - 1])@, (m2[idx + j])@));
                                }
                            }
                            assert forall|f: nat| !resolvable(defs@, name@, f) by {
                                lemma_cycle_not_resolvable(defs@, c2, f);
                            }
                        }
                        return Err(WorkflowError::CyclicWorkflow(workflow.clone()));
                    }
                    let cargs = match canonicalize_args(args) {
                        Ok(c) => c,
                        Err(e) => {
                            proof {
                                lemma_find_workflow_mem(defs@.workflows, name@);
                                let k = choose|k: int|
                                    0 <= k < defs@.workflows.len() && #[trigger] defs@.workflows[k]
                                        == vs;
                                assert(!json_ok(step_args(defs@.workflows[k].steps[i as int])));
                                assert(some_step_args_bad(defs@));
                                assert forall|f: nat| !resolvable(defs@, name@, f) by {
                                    if resolvable(defs@, name@, f) {
                                        assert(step_resolvable(
                                            defs@,
                                            vs.steps[i as int],
                                            (f - 1) as nat,
                                        ));
                                    }
                                }
                            }
                            return Err(e);
                        },
                    };
                    match cache.get(workflow, &cargs) {
                        Some(t) => {
                            proof {
                                let gi = choose|gi: int|
                                    0 <= gi < cache@.len() && (#[trigger] cache@[gi]).name
                                        == workflow@ && cache@[gi].args == cargs@ && t@
                                        == cache@[gi].tree;
                                assert(tree_matches(defs@, t@) && t@.name == workflow@);
                                lemma_find_cached_unique(cache@, gi);
                                assert(find_cached(cache@, workflow@, cargs@) == Some(t@));
                            }
                            steps.push(WorkflowTreeStep::Workflow(t));
                            proof {
                                assert(step_linked(
                                    defs@,
                                    vs.steps[i as int],
                                    tree_step_spec(steps@[steps@.len() - 1]),
                                    cache@,
                                    bindings@.entries,
                                ));
                            }
                        },
                        None => {
                            let ghost cache_pre = cache@;
                            let ghost fetched_pre = fetched@;
                            let ghost bindings_pre = bindings@.entries;
                            proof {
                                lemma_unmarked_push(defs@.workflows, marker2@, *workflow);
                                lemma_find_workflow_exists(defs@.workflows, workflow@);
                                lemma_marker_push(marker2@, *workflow);
                                assert((marker2@[marker2@.len() - 1])@ == name@);
                            }
                            let sub = match Self::resolve_inner(
                                defs,
                                workflow,
                                &cargs,
                                &marker2,
                                cache,
                                bindings,
                                fetched,
                            ) {
                                Ok(t) => t,
                                Err(e) => {
                                    proof {
                                        lemma_marker_push(marker@, *name);
                                        lemma_find_workflow_mem(defs@.workflows, name@);
                                        let k = choose|k: int|
                                            0 <= k < defs@.workflows.len()
                                                && #[trigger] defs@.workflows[k] == vs;
                                        assert(defs@.workflows[k].steps[i as int]
                                            matches StepSpec::Workflow { workflow: w2, .. } && w2
                                            == workflow@);
                                        assert(some_view_references(defs@, workflow@));
                                        assert forall|f: nat| !resolvable(defs@, name@, f) by {
                                            if resolvable(defs@, name@, f) {
                                                assert(step_resolvable(
                                                    defs@,
                                                    vs.steps[i as int],
                                                    (f - 1) as nat,
                                                ));
                                                assert(resolvable(
                                                    defs@,
                                                    workflow@,
                                                    (f - 1) as nat,
                                                ));
                                            }
                                        }
                                        lemma_prefix_trans(old(cache)@, cache_pre, cache@);
                                        lemma_prefix_trans(old(fetched)@, fetched_pre, fetched@);
                                        lemma_prefix_trans(
                                            old(bindings)@.entries,
                                            bindings_pre,
                                            bindings@.entries,
                                        );
                                        assert(marker_has(marker2@, name@)) by {
                                            assert((marker2@[marker2@.len() - 1])@ == name@);
                                        }
                                        assert forall|j: int|
                                            old(cache)@.len() <= j < cache@.len() implies !marker_has(
                                            marker@,
                                            (#[trigger] cache@[j]).name,
                                        ) && (cache@[j]).name != name@ by {
                                            if j < cache_pre.len() {
                                                assert(cache@[j] == cache_pre[j]);
                                            } else {
                                                assert(!marker_has(marker2@, (cache@[j]).name));
                                            }
                                        }
                                        assert forall|j: int|
                                            old(fetched)@.len() <= j
                                                < fetched@.len() implies !marker_has(
                                            marker@,
                                            (#[trigger] keys_of(fetched@)[j]).name,
                                        ) by {
                                            if j < fetched_pre.len() {
                                                assert(keys_of(fetched_pre)[j] == keys_of(
                                                    fetched@,
                                                )[j]);
                                            } else {
                                                assert(!marker_has(
                                                    marker2@,
                                                    (keys_of(fetched@)[j]).name,
                                                ));
                                            }
                                        }
                                    }
                                    return Err(e);
                                },
                            };
                            let ghost cache_sub = cache@;
                            let ghost sub_key = KeySpec { name: workflow@, args: cargs@ };
                            let copy = sub.duplicate();
                            cache.insert(workflow.clone(), cargs, sub);
                            proof {
                                lemma_marker_push(marker@, *name);
                                assert(marker_has(marker2@, name@)) by {
                                    assert((marker2@[marker2@.len() - 1])@ == name@);
                                }
                                // the memoized key is fresh: it was absent before the
                                // sub-resolution, and the sub-resolution caches no key
                                // bearing a name on its own path
                                assert(!cache_has(cache_sub, sub_key.name, sub_key.args)) by {
                                    if cache_has(cache_sub, sub_key.name, sub_key.args) {
                                        let gj = choose|gj: int|
                                            0 <= gj < cache_sub.len() && (
                                            #[trigger] cache_sub[gj]).name == sub_key.name
                                                && cache_sub[gj].args == sub_key.args;
                                        if gj < cache_pre.len() {
                                            assert(cache_sub[gj] == cache_pre[gj]);
                                            assert(cache_has(
                                                cache_pre,
                                                sub_key.name,
                                                sub_key.args,
                                            ));
                                        } else {
                                            assert((cache_sub[gj]).name != workflow@);
                                        }
                                    }
                                }
                                lemma_prefix_push(
                                    cache_sub,
                                    (CacheEntrySpec {
                                        name: sub_key.name,
                                        args: sub_key.args,
                                        tree: sub@,
                                    }),
                                );
                                lemma_prefix_trans(old(cache)@, cache_pre, cache_sub);
                                lemma_prefix_trans(old(cache)@, cache_sub, cache@);
                                lemma_prefix_trans(old(fetched)@, fetched_pre, fetched@);
                                lemma_cache_prefix_has(cache_sub, cache@);
                                lemma_cache_prefix_has(cache_pre, cache@);
                                assert(cache_has(cache@, sub_key.name, sub_key.args)) by {
                                    assert((cache@[cache@.len() - 1]).name == sub_key.name);
                                }
                                assert forall|j: int|
                                    old(fetched)@.len() <= j < fetched@.len() implies cache_has(
                                    cache@,
                                    (#[trigger] keys_of(fetched@)[j]).name,
                                    keys_of(fetched@)[j].args,
                                ) || keys_of(fetched@)[j] == own by {
                                    if j < fetched_pre.len() {
                                        assert(keys_of(fetched_pre)[j] == keys_of(fetched@)[j]);
                                    } else {
                                        let k = keys_of(fetched@)[j];
                                        if !(k == sub_key) {
                                            assert(cache_has(cache_sub, k.name, k.args));
                                        }
                                    }
                                }
                                assert forall|j: int|
                                    old(fetched)@.len() <= j < fetched@.len() implies !marker_has(
                                    marker@,
                                    (#[trigger] keys_of(fetched@)[j]).name,
                                ) by {
                                    if j < fetched_pre.len() {
                                        assert(keys_of(fetched_pre)[j] == keys_of(fetched@)[j]);
                                    } else {
                                        assert(!marker_has(
                                            marker2@,
                                            (keys_of(fetched@)[j]).name,
                                        ));
                                    }
                                }
                                assert forall|j: int| 0 <= j < fetched@.len() implies key_covered(
                                    #[trigger] keys_of(fetched@)[j],
                                    cache@,
                                    marker2@,
                                ) by {
                                    if j < fetched_pre.len() {
                                        assert(key_covered(
                                            keys_of(fetched_pre)[j],
                                            cache_pre,
                                            marker2@,
                                        ));
                                        assert(keys_of(fetched_pre)[j] == keys_of(fetched@)[j]);
                                    } else {
                                        let k = keys_of(fetched@)[j];
                                        if !(k == sub_key) {
                                            assert(cache_has(cache_sub, k.name, k.args));
                                        }
                                    }
                                }
                                lemma_prefix_trans(
                                    old(bindings)@.entries,
                                    bindings_pre,
                                    bindings@.entries,
                                );
                                assert(keys_of(fetched@)[old(fetched)@.len() as int] == own) by {
                                    assert(fetched_pre[old(fetched)@.len() as int] == fetched@[old(
                                        fetched,
                                    )@.len() as int]);
                                }
                                assert forall|j: int, k: int|
                                    0 <= j < k < cache@.len() implies !((#[trigger] cache@[j]).name
                                    == (#[trigger] cache@[k]).name && cache@[j].args
                                    == cache@[k].args) by {
                                    if k < cache_sub.len() {
                                        assert(cache@[j] == cache_sub[j] && cache@[k]
                                            == cache_sub[k]);
                                    } else {
                                        assert(cache@[k] == (CacheEntrySpec {
                                            name: sub_key.name,
                                            args: sub_key.args,
                                            tree: sub@,
                                        }));
                                        assert(cache@[j] == cache_sub[j]);
                                        if cache@[j].name == sub_key.name && cache@[j].args
                                            == sub_key.args {
                                            assert(cache_has(
                                                cache_sub,
                                                sub_key.name,
                                                sub_key.args,
                                            ));
                                        }
                                    }
                                }
                                assert forall|j: int|
                                    old(cache)@.len() <= j < cache@.len() implies !marker_has(
                                    marker@,
                                    (#[trigger] cache@[j]).name,
                                ) && (cache@[j]).name != name@ by {
                                    if j < cache_pre.len() {
                                        assert(cache@[j] == cache_pre[j]);
                                    } else if j < cache_sub.len() {
                                        assert(cache@[j] == cache_sub[j]);
                                        assert(!marker_has(marker2@, (cache_sub[j]).name));
                                    } else {
                                        assert((cache@[j]).name == workflow@);
                                        assert(!marker_has(marker2@, workflow@));
                                    }
                                }
                                assert forall|j: int|
                                    old(cache)@.len() <= j < cache@.len() implies keys_contains(
                                    keys_of(fetched@),
                                    (#[trigger] cache@[j]).name,
                                    (cache@[j]).args,
                                ) by {
                                    if j < cache_pre.len() {
                                        assert(cache@[j] == cache_pre[j]);
                                        let m = choose|m: int|
                                            0 <= m < keys_of(fetched_pre).len() && (
                                            #[trigger] keys_of(fetched_pre)[m]).name == (
                                            cache_pre[j]).name && keys_of(fetched_pre)[m].args == (
                                            cache_pre[j]).args;
                                        assert(keys_of(fetched@)[m] == keys_of(fetched_pre)[m]);
                                    } else if j < cache_sub.len() {
                                        assert(cache@[j] == cache_sub[j]);
                                    } else {
                                        assert((cache@[j]).name == sub_key.name && (
                                        cache@[j]).args == sub_key.args);
                                        assert(keys_of(fetched@)[fetched_pre.len() as int]
                                            == sub_key);
                                    }
                                }
                                lemma_find_cached_absent_push(
                                    cache_sub,
                                    (CacheEntrySpec {
                                        name: sub_key.name,
                                        args: sub_key.args,
                                        tree: sub@,
                                    }),
                                );
                                assert(find_cached(cache@, workflow@, cargs@) == Some(sub@));
                                assert forall|j: int| 0 <= j < cache@.len() implies children_linked(
                                    defs@,
                                    (#[trigger] cache@[j]).tree,
                                    cache@,
                                    bindings@.entries,
                                ) by {
                                    lemma_prefix_reflexive(bindings@.entries);
                                    if j < cache_sub.len() {
                                        assert(cache@[j] == cache_sub[j]);
                                        assert(children_linked(
                                            defs@,
                                            cache_sub[j].tree,
                                            cache_sub,
                                            bindings@.entries,
                                        ));
                                        lemma_children_linked_grow(
                                            defs@,
                                            cache_sub[j].tree,
                                            cache_sub,
                                            cache@,
                                            bindings@.entries,
                                            bindings@.entries,
                                        );
                                    } else {
                                        assert((cache@[j]).tree == sub@);
                                        lemma_children_linked_grow(
                                            defs@,
                                            sub@,
                                            cache_sub,
                                            cache@,
                                            bindings@.entries,
                                            bindings@.entries,
                                        );
                                    }
                                }
                                assert forall|j: int|
                                    0 <= j < i implies step_linked(
                                    defs@,
                                    vs.steps[j],
                                    tree_step_spec(#[trigger] steps@[j]),
                                    cache@,
                                    bindings@.entries,
                                ) by {
                                    assert(step_linked(
                                        defs@,
                                        vs.steps[j],
                                        tree_step_spec(steps@[j]),
                                        cache_pre,
                                        bindings_pre,
                                    ));
                                    lemma_prefix_trans(cache_pre, cache_sub, cache@);
                                    match vs.steps[j] {
                                        StepSpec::Workflow { workflow: w2, args: a2 } => {
                                            lemma_find_cached_prefix(
                                                cache_pre,
                                                cache@,
                                                w2,
                                                canon_of(a2),
                                            );
                                        },
                                        StepSpec::Command { command: c2, args: a2 } => {
                                            let cd2 = find_command(defs@.commands, c2)->0;
                                            lemma_find_binding_prefix(
                                                bindings_pre,
                                                bindings@.entries,
                                                cd2.func_id,
                                                c2,
                                                canon_of(a2),
                                            );
                                        },
                                    }
                                }
                            }
                            steps.push(WorkflowTreeStep::Workflow(copy));
                            proof {
                                assert(step_linked(
                                    defs@,
                                    vs.steps[i as int],
                                    tree_step_spec(steps@[steps@.len() - 1]),
                                    cache@,
                                    bindings@.entries,
                                ));
                            }
                        },
                    }
                },
                WorkflowStep::Command { command, args } => {
                    let cargs = match canonicalize_args(args) {
                        Ok(c) => c,
                        Err(e) => {
                            proof {
                                lemma_find_workflow_mem(defs@.workflows, name@);
                                let k = choose|k: int|
                                    0 <= k < defs@.workflows.len() && #[trigger] defs@.workflows[k]
                                        == vs;
                                assert(!json_ok(step_args(defs@.workflows[k].steps[i as int])));
                                assert(some_step_args_bad(defs@));
                                assert forall|f: nat| !resolvable(defs@, name@, f) by {
                                    if resolvable(defs@, name@, f) {
                                        assert(step_resolvable(
                                            defs@,
                                            vs.steps[i as int],
                                            (f - 1) as nat,
                                        ));
                                    }
                                }
                            }
                            return Err(e);
                        },
                    };
                    let cd = match defs.get_command(command) {
                        Some(c) => c,
                        None => {
                            proof {
                                lemma_find_workflow_mem(defs@.workflows, name@);
                                let k = choose|k: int|
                                    0 <= k < defs@.workflows.len() && #[trigger] defs@.workflows[k]
                                        == vs;
                                assert(defs@.workflows[k].steps[i as int]
                                    matches StepSpec::Command { command: c2, .. } && c2
                                    == command@);
                                assert(some_view_references_command(defs@, command@));
                                assert forall|f: nat| !resolvable(defs@, name@, f) by {
                                    if resolvable(defs@, name@, f) {
                                        assert(step_resolvable(
                                            defs@,
                                            vs.steps[i as int],
                                            (f - 1) as nat,
                                        ));
                                    }
                                }
                            }
                            return Err(WorkflowError::MissingCommand(command.clone()));
                        },
                    };
                    let ghost bindings_pre = bindings@.entries;
                    let fb = bindings.find_or_create(cd.func_id, command, cargs);
                    steps.push(WorkflowTreeStep::Command { func_binding: fb });
                    proof {
                        lemma_find_binding_exists(bindings_pre, cd@.func_id, command@, cargs@);
                        if find_binding(bindings_pre, cd@.func_id, command@, cargs@) is Some {
                            lemma_prefix_reflexive(bindings@.entries);
                        } else {
                            lemma_find_binding_absent_push(bindings_pre, fb@);
                            lemma_prefix_push(bindings_pre, fb@);
                            lemma_prefix_trans(
                                old(bindings)@.entries,
                                bindings_pre,
                                bindings@.entries,
                            );
                            assert forall|j: int, k: int|
                                0 <= j < k < bindings@.entries.len() implies !((
                            #[trigger] bindings@.entries[j]).func_id == (
                            #[trigger] bindings@.entries[k]).func_id && bindings@.entries[j].name
                                == bindings@.entries[k].name && bindings@.entries[j].args
                                == bindings@.entries[k].args) by {
                                if k < bindings_pre.len() {
                                    assert(bindings@.entries[j] == bindings_pre[j]
                                        && bindings@.entries[k] == bindings_pre[k]);
                                } else {
                                    assert(bindings@.entries[k] == fb@);
                                    assert(bindings@.entries[j] == bindings_pre[j]);
                                }
                            }
                        }
                        assert(find_binding(bindings@.entries, cd@.func_id, command@, cargs@)
                            == Some(fb@));
                        assert(step_linked(
                            defs@,
                            vs.steps[i as int],
                            tree_step_spec(steps@[steps@.len() - 1]),
                            cache@,
                            bindings@.entries,
                        ));
                        assert forall|j: int|
                            0 <= j < i implies step_linked(
                            defs@,
                            vs.steps[j],
                            tree_step_spec(#[trigger] steps@[j]),
                            cache@,
                            bindings@.entries,
                        ) by {
                            assert(step_linked(
                                defs@,
                                vs.steps[j],
                                tree_step_spec(steps@[j]),
                                cache@,
                                bindings_pre,
                            ));
                            lemma_prefix_reflexive(cache@);
                            match vs.steps[j] {
                                StepSpec::Workflow { workflow: w2, args: a2 } => {},
                                StepSpec::Command { command: c2, args: a2 } => {
                                    let cd2 = find_command(defs@.commands, c2)->0;
                                    lemma_find_binding_prefix(
                                        bindings_pre,
                                        bindings@.entries,
                                        cd2.func_id,
                                        c2,
                                        canon_of(a2),
                                    );
                                },
                            }
                        }
                        assert forall|j: int| 0 <= j < cache@.len() implies children_linked(
                            defs@,
                            (#[trigger] cache@[j]).tree,
                            cache@,
                            bindings@.entries,
                        ) by {
                            lemma_prefix_reflexive(cache@);
                            assert(children_linked(
                                defs@,
                                cache@[j].tree,
                                cache@,
                                bindings_pre,
                            ));
                            lemma_children_linked_grow(
                                defs@,
                                cache@[j].tree,
                                cache@,
                                cache@,
                                bindings_pre,
                                bindings@.entries,
                            );
                        }
                    }
                },
            }
            i += 1;
        }
        let tree = WorkflowTree { name: name.clone(), kind: view.kind, steps };
        proof {
            lemma_tree_steps_spec(tree.steps@);
            assert(tree@.name == name@);
            assert(tree@.kind == vs.kind);
            assert(tree@.steps.len() == vs.steps.len());
            assert forall|j: int| 0 <= j < tree@.steps.len() implies step_matches(
                defs@,
                vs.steps[j],
                #[trigger] tree@.steps[j],
            ) by {
                assert(tree@.steps[j] == tree_step_spec(tree.steps@[j]));
            }
            assert(tree_matches(defs@, tree@));
            assert forall|j: int| 0 <= j < vs.steps.len() implies step_linked(
                defs@,
                #[trigger] vs.steps[j],
                tree@.steps[j],
                cache@,
                bindings@.entries,
            ) by {
                assert(tree@.steps[j] == tree_step_spec(tree.steps@[j]));
            }
            assert(children_linked(defs@, tree@, cache@, bindings@.entries));
        }
        Ok(tree)
    }
}

/// Whether the definition stored under `m` declares a workflow step
/// referencing `n`.
pub open spec fn refs(defs: DefsSpec, m: Seq<char>, n: Seq<char>) -> bool {
    find_workflow(defs.workflows, m) matches Some(v) && exists|i: int|
        0 <= i < v.steps.len() && ((#[trigger] v.steps[i]) matches StepSpec::Workflow {
            workflow,
            ..
        } && workflow == n)
}

/// Whether some stored definition declares a workflow step referencing `n`.
pub open spec fn some_view_references(defs: DefsSpec, n: Seq<char>) -> bool {
    exists|k: int, i: int|
        0 <= k < defs.workflows.len() && 0 <= i < defs.workflows[k].steps.len() && ((
        #[trigger] defs.workflows[k].steps[i]) matches StepSpec::Workflow { workflow, .. }
            && workflow == n)
}

/// Whether some stored definition declares a command step referencing `c`.
pub open spec fn some_view_references_command(defs: DefsSpec, c: Seq<char>) -> bool {
    exists|k: int, i: int|
        0 <= k < defs.workflows.len() && 0 <= i < defs.workflows[k].steps.len() && ((
        #[trigger] defs.workflows[k].steps[i]) matches StepSpec::Command { command, .. }
            && command == c)
}

/// The argument text of a declared step.
pub open spec fn step_args(s: StepSpec) -> Seq<char> {
    match s {
        StepSpec::Workflow { args, .. } => args,
        StepSpec::Command { args, .. } => args,
    }
}

/// Whether some stored definition declares a step whose argument text does
/// not parse as JSON.
pub open spec fn some_step_args_bad(defs: DefsSpec) -> bool {
    exists|k: int, i: int|
        0 <= k < defs.workflows.len() && 0 <= i < defs.workflows[k].steps.len() && !json_ok(
            step_args(#[trigger] defs.workflows[k].steps[i]),
        )
}

/// Whether the definitions admit a full expansion of `name` within `fuel`
/// nesting levels: the name is stored, every declared step's argument text
/// parses as JSON, every referenced command is stored, and every nested
/// workflow reference is itself expandable one level down. A name whose
/// expansion would recurse without bound is expandable at no fuel, so
/// `exists fuel` says exactly: stored, closed, acyclic, and well-formed.
pub open spec fn resolvable(defs: DefsSpec, name: Seq<char>, fuel: nat) -> bool
    decreases fuel, 0int,
{
    &&& fuel > 0
    &&& find_workflow(defs.workflows, name) matches Some(v) && (forall|i: int|
        0 <= i < v.steps.len() ==> step_resolvable(defs, #[trigger] v.steps[i], (fuel - 1) as nat))
}

/// Whether one declared step can be resolved within `fuel` further levels.
pub open spec fn step_resolvable(defs: DefsSpec, s: StepSpec, fuel: nat) -> bool
    decreases fuel, 1int,
{
    match s {
        StepSpec::Workflow { workflow, args } => json_ok(args) && resolvable(defs, workflow, fuel),
        StepSpec::Command { command, args } => json_ok(args) && has_command(defs, command),
    }
}

/// A name on a chain of references that returns to itself is expandable at
/// no fuel: each link of the chain consumes one nesting level, and the chain
/// never ends.
pub proof fn lemma_cycle_not_resolvable(defs: DefsSpec, chain: Seq<Seq<char>>, fuel: nat)
    requires
        chain.len() >= 2,
        chain[0] == chain[chain.len() - 1],
        forall|i: int| 0 <= i < chain.len() - 1 ==> refs(defs, #[trigger] chain[i], chain[i + 1]),
    ensures
        !resolvable(defs, chain[0], fuel),
    decreases fuel,
{
    if resolvable(defs, chain[0], fuel) {
        assert(refs(defs, chain[0], chain[1]));
        let v = find_workflow(defs.workflows, chain[0])->0;
        let i = choose|i: int|
            0 <= i < v.steps.len() && ((#[trigger] v.steps[i]) matches StepSpec::Workflow {
                workflow,
                ..
            } && workflow == chain[1]);
        assert(step_resolvable(defs, v.steps[i], (fuel - 1) as nat));
        assert(resolvable(defs, chain[1], (fuel - 1) as nat));
        let rotated = chain.subrange(1, chain.len() as int).push(chain[1]);
        assert(rotated[0] == chain[1]);
        assert(rotated[rotated.len() - 1] == chain[1]);
        assert forall|j: int| 0 <= j < rotated.len() - 1 implies refs(
            defs,
            #[trigger] rotated[j],
            rotated[j + 1],
        ) by {
            if j < chain.len() - 2 {
                assert(rotated[j] == chain[j + 1] && rotated[j + 1] == chain[j + 2]);
                assert(refs(defs, chain[j + 1], chain[j + 2]));
            } else {
                assert(rotated[j] == chain[chain.len() - 1]);
                assert(refs(defs, chain[0], chain[1]));
            }
        }
        lemma_cycle_not_resolvable(defs, rotated, (fuel - 1) as nat);
    }
}

/// Whether `n` sits on a chain of definition references that returns to `n`.
pub open spec fn on_reference_cycle(defs: DefsSpec, n: Seq<char>) -> bool {
    exists|c: Seq<Seq<char>>|
        c.len() >= 2 && c[0] == n && c[c.len() - 1] == n && (forall|i: int|
            0 <= i < c.len() - 1 ==> refs(defs, #[trigger] c[i], c[i + 1]))
}

/// Whether consecutive names on the active expansion path reference each
/// other: the path records how resolution descended.
pub open spec fn marker_path(defs: DefsSpec, m: Seq<String>) -> bool {
    forall|i: int| 0 <= i < m.len() - 1 ==> refs(defs, (#[trigger] m[i])@, (m[i + 1])@)
}

/// A found definition is one of the stored definitions.
proof fn lemma_find_workflow_mem(ws: Seq<ViewSpec>, name: Seq<char>)
    ensures
        find_workflow(ws, name) matches Some(v) ==> exists|k: int|
            0 <= k < ws.len() && #[trigger] ws[k] == v,
    decreases ws,
{
    if ws.len() > 0 {
        if ws[0].name == name {
            assert(ws[0] == find_workflow(ws, name)->0);
        } else {
            lemma_find_workflow_mem(ws.drop_first(), name);
            if find_workflow(ws.drop_first(), name) is Some {
                let v = find_workflow(ws.drop_first(), name)->0;
                let k = choose|k: int|
                    0 <= k < ws.drop_first().len() && #[trigger] ws.drop_first()[k] == v;
                assert(ws[k + 1] == v);
            }
        }
    }
}

/// Law: a workflow that references itself, directly or transitively, never
/// resolves. No tree conforming to the definitions can be rooted at a name
/// on a reference cycle: each link of the cycle would force one more nested
/// child, and a finite tree has no infinite path.
pub proof fn lemma_cyclic_name_has_no_tree(defs: DefsSpec, t: TreeSpec, chain: Seq<Seq<char>>)
    requires
        chain.len() >= 2,
        chain[0] == t.name,
        chain[chain.len() - 1] == t.name,
        forall|i: int| 0 <= i < chain.len() - 1 ==> refs(defs, #[trigger] chain[i], chain[i + 1]),
    ensures
        !tree_matches(defs, t),
    decreases t,
{
    if tree_matches(defs, t) {
        assert(refs(defs, chain[0], chain[1]));
        let v = find_workflow(defs.workflows, t.name)->0;
        let i = choose|i: int|
            0 <= i < v.steps.len() && ((#[trigger] v.steps[i]) matches StepSpec::Workflow {
                workflow,
                ..
            } && workflow == chain[1]);
        assert(step_matches(defs, v.steps[i], t.steps[i]));
        let sub = t.steps[i]->Workflow_0;
        assert(sub.name == chain[1] && tree_matches(defs, sub));
        let rotated = chain.subrange(1, chain.len() as int).push(chain[1]);
        assert(rotated[0] == chain[1]);
        assert(rotated[rotated.len() - 1] == chain[1]);
        assert forall|j: int| 0 <= j < rotated.len() - 1 implies refs(
            defs,
            #[trigger] rotated[j],
            rotated[j + 1],
        ) by {
            if j < chain.len() - 2 {
                assert(rotated[j] == chain[j + 1] && rotated[j + 1] == chain[j + 2]);
                assert(refs(defs, chain[j + 1], chain[j + 2]));
            } else {
                assert(rotated[j] == chain[chain.len() - 1]);
                assert(refs(defs, chain[0], chain[1]));
            }
        }
        lemma_cyclic_name_has_no_tree(defs, sub, rotated);
    }
}

/// Law: resolving a name that sits on a reference cycle in the stored
/// definitions — it references itself directly or transitively — always
/// returns an error, because a successful resolution would yield a
/// conforming tree rooted at that name.
pub proof fn lemma_cyclic_root_never_resolves(
    defs: &Definitions,
    name: &String,
    r: Result<Resolution, WorkflowError>,
    chain: Seq<Seq<char>>,
)
    requires
        call_ensures(WorkflowView::resolve, (defs, name), r),
        chain.len() >= 2,
        chain[0] == name@,
        chain[chain.len() - 1] == name@,
        forall|i: int| 0 <= i < chain.len() - 1 ==> refs(defs@, #[trigger] chain[i], chain[i + 1]),
    ensures
        r is Err,
{
    if r is Ok {
        let res = r->Ok_0;
        lemma_cyclic_name_has_no_tree(defs@, res.tree@, chain);
    }
}

/// The canonical argument text of a root resolution: the empty argument list.
fn root_args_key() -> (r: String)
    ensures
        r@ == "[]"@,
{
    "[]".to_owned()
}

} // verus!
