//! The four-phase execution protocol of a resolved tree.
//!
//! `prepare` walks the tree in preorder and creates one execution record per
//! command leaf, indexed 1 upward in declared order; the record arena is the
//! only bookkeeping shared with a driver. An [`Executor`] then tracks each
//! leaf through not-started, running, and finished states: `ready` names the
//! leaves a driver may start now under the tree's kind semantics, and
//! `complete` records one leaf's captured value. `postprocess` pairs every
//! record with its collected output log and returns finalized results in
//! declared preorder, whatever order completions arrived in.

use vstd::prelude::*;
use vstd::pervasive::VecAdditionalExecFns;

use crate::ids::FuncBindingId;
use crate::workflow::{
    step_leaves, steps_leaves, tree_leaves, tree_step_spec, tree_steps_spec,
    lemma_tree_steps_spec, BindingSpec, FuncBinding, TreeSpec, TreeStepSpec, WorkflowError,
    WorkflowKind, WorkflowTree, WorkflowTreeStep,
};

verus! {

/// One live output entry streamed by a command while it runs.
#[derive(Debug)]
pub struct OutputStream {
    /// When the entry was produced, as reported by the backend.
    pub timestamp: u64,
    /// The entry's text.
    pub message: String,
}

/// Mathematical value of an [`OutputStream`].
pub ghost struct OutputStreamSpec {
    pub timestamp: u64,
    pub message: Seq<char>,
}

impl View for OutputStream {
    type V = OutputStreamSpec;

    open spec fn view(&self) -> OutputStreamSpec {
        OutputStreamSpec { timestamp: self.timestamp, message: self.message@ }
    }
}

/// The mathematical value of an optional text.
pub open spec fn opt_text(o: Option<String>) -> Option<Seq<char>> {
    match o {
        Some(s) => Some(s@),
        None => None,
    }
}

/// The mathematical values of an output log, in order.
pub open spec fn log_spec(log: Seq<OutputStream>) -> Seq<OutputStreamSpec> {
    log.map_values(|o: OutputStream| o@)
}

/// Progress of one prepared command leaf.
#[derive(Debug)]
pub enum CommandState {
    /// The leaf has not been dispatched.
    NotStarted,
    /// The leaf was dispatched and has not completed.
    Running,
    /// The leaf completed; exactly one of the two values is populated by a
    /// conforming backend.
    Finished { success: Option<String>, failure: Option<String> },
}

/// Mathematical value of a [`CommandState`].
pub ghost enum CommandStateSpec {
    NotStarted,
    Running,
    Finished { success: Option<Seq<char>>, failure: Option<Seq<char>> },
}

impl View for CommandState {
    type V = CommandStateSpec;

    open spec fn view(&self) -> CommandStateSpec {
        match self {
            CommandState::NotStarted => CommandStateSpec::NotStarted,
            CommandState::Running => CommandStateSpec::Running,
            CommandState::Finished { success, failure } => (CommandStateSpec::Finished {
                success: opt_text(*success),
                failure: opt_text(*failure),
            }),
        }
    }
}

/// Per-leaf execution bookkeeping, created by `prepare` and consumed by
/// `postprocess`.
#[derive(Debug)]
pub struct FuncToExecute {
    /// The leaf's preorder index, 1-based; the single source of truth for
    /// declared ordering.
    pub index: usize,
    /// The binding the leaf executes.
    pub func_binding: FuncBinding,
    /// The leaf's progress and captured value.
    pub state: CommandState,
}

/// Mathematical value of a [`FuncToExecute`].
pub ghost struct FuncToExecuteSpec {
    pub index: int,
    pub func_binding: BindingSpec,
    pub state: CommandStateSpec,
}

impl View for FuncToExecute {
    type V = FuncToExecuteSpec;

    open spec fn view(&self) -> FuncToExecuteSpec {
        FuncToExecuteSpec {
            index: self.index as int,
            func_binding: self.func_binding@,
            state: self.state@,
        }
    }
}

/// The mathematical values of a record arena, in order.
pub open spec fn recs_of(rs: Seq<FuncToExecute>) -> Seq<FuncToExecuteSpec> {
    rs.map_values(|r: FuncToExecute| r@)
}

/// The record `prepare` creates for the leaf at 0-based preorder position
/// `pos`.
pub open spec fn prepared_record(b: BindingSpec, pos: int) -> FuncToExecuteSpec {
    FuncToExecuteSpec { index: pos + 1, func_binding: b, state: CommandStateSpec::NotStarted }
}

/// The leaves of concatenated child lists are the concatenated leaves.
pub proof fn lemma_steps_leaves_concat(a: Seq<TreeStepSpec>, b: Seq<TreeStepSpec>)
    ensures
        steps_leaves(a + b) == steps_leaves(a) + steps_leaves(b),
    decreases a,
{
    if a.len() == 0 {
        assert(a + b =~= b);
        assert(steps_leaves(a) + steps_leaves(b) =~= steps_leaves(b));
    } else {
        lemma_steps_leaves_concat(a.drop_first(), b);
        assert((a + b).drop_first() =~= a.drop_first() + b);
        assert(steps_leaves(a + b) =~= steps_leaves(a) + steps_leaves(b));
    }
}

/// Taking one more child appends exactly that child's leaves.
pub proof fn lemma_steps_leaves_take(ss: Seq<TreeStepSpec>, i: int)
    requires
        0 <= i < ss.len(),
    ensures
        steps_leaves(ss.take(i + 1)) == steps_leaves(ss.take(i)) + step_leaves(ss[i]),
    decreases ss,
{
    assert(ss.take(i + 1) =~= ss.take(i) + seq![ss[i]]);
    lemma_steps_leaves_concat(ss.take(i), seq![ss[i]]);
    assert(seq![ss[i]].drop_first() =~= Seq::<TreeStepSpec>::empty());
    assert(steps_leaves(seq![ss[i]]) == step_leaves(ss[i]) + steps_leaves(
        Seq::<TreeStepSpec>::empty(),
    ));
    assert(step_leaves(ss[i]) + Seq::<BindingSpec>::empty() =~= step_leaves(ss[i]));
    assert(steps_leaves(ss.take(i + 1)) =~= steps_leaves(ss.take(i)) + step_leaves(ss[i]));
}

impl WorkflowTree {
    /// Walks this subtree in preorder and appends one not-started record per
    /// command leaf, indexing on from the records already present.
    fn prepare_into(&self, out: &mut Vec<FuncToExecute>)
        ensures
            final(out)@.len() == old(out)@.len() + tree_leaves(self@).len(),
            forall|j: int| 0 <= j < old(out)@.len() ==> #[trigger] final(out)@[j] == old(out)@[j],
            forall|k: int|
                0 <= k < tree_leaves(self@).len() ==> (#[trigger] final(out)@[old(out)@.len() + k])@
                    == prepared_record(tree_leaves(self@)[k], old(out)@.len() + k),
        decreases *self,
    {
        let ghost stv = tree_steps_spec(self.steps@);
        let ghost out0 = out@;
        proof {
            lemma_tree_steps_spec(self.steps@);
            assert(stv.take(0) =~= Seq::<TreeStepSpec>::empty());
        }
        let mut i: usize = 0;
        while i < self.steps.len()
            invariant
                stv == tree_steps_spec(self.steps@),
                stv.len() == self.steps@.len(),
                forall|j: int| 0 <= j < stv.len() ==> stv[j] == tree_step_spec(self.steps@[j]),
                i <= self.steps@.len(),
                out@.len() == out0.len() + steps_leaves(stv.take(i as int)).len(),
                forall|j: int| 0 <= j < out0.len() ==> #[trigger] out@[j] == out0[j],
                forall|k: int|
                    0 <= k < steps_leaves(stv.take(i as int)).len() ==> (#[trigger] out@[out0.len()
                        + k])@ == prepared_record(
                        steps_leaves(stv.take(i as int))[k],
                        out0.len() + k,
                    ),
            decreases self.steps@.len() - i,
        {
            let ghost done = steps_leaves(stv.take(i as int));
            let ghost out_pre = out@;
            let step = &self.steps[i];
            match step {
                WorkflowTreeStep::Command { func_binding } => {
                    out.push(
                        FuncToExecute {
                            index: 0,
                            func_binding: func_binding.duplicate(),
                            state: CommandState::NotStarted,
                        },
                    );
                    let n = out.len();
                    match out.pop() {
                        Some(rec) => {
                            proof {
                                assert(out@ =~= out_pre);
                            }
                            out.push(
                                FuncToExecute {
                                    index: n,
                                    func_binding: rec.func_binding,
                                    state: rec.state,
                                },
                            );
                        },
                        None => {
                            proof {
                                assert(false);
                            }
                        },
                    }
                    proof {
                        lemma_steps_leaves_take(stv, i as int);
                        let next = steps_leaves(stv.take(i + 1));
                        assert(out@.len() == out_pre.len() + 1);
                        assert(step_leaves(stv[i as int]) =~= seq![func_binding@]);
                        assert(next == done + step_leaves(stv[i as int]));
                        assert((out@[out0.len() + done.len() as int])@ == prepared_record(
                            func_binding@,
                            out0.len() + done.len() as int,
                        ));
                        assert forall|k: int| 0 <= k < next.len() implies (#[trigger] out@[out0.len()
                            + k])@ == prepared_record(next[k], out0.len() + k) by {
                            if k < done.len() {
                                assert(out@[out0.len() + k] == out_pre[out0.len() + k]);
                                assert(next[k] == done[k]);
                            } else {
                                assert(k == done.len());
                                assert(next[k] == func_binding@);
                            }
                        }
                    }
                },
                WorkflowTreeStep::Workflow(sub) => {
                    sub.prepare_into(out);
                    proof {
                        lemma_steps_leaves_take(stv, i as int);
                        let next = steps_leaves(stv.take(i + 1));
                        let subl = tree_leaves(sub@);
                        assert(step_leaves(stv[i as int]) == subl);
                        assert(next == done + subl);
                        assert forall|k: int| 0 <= k < next.len() implies (#[trigger] out@[out0.len()
                            + k])@ == prepared_record(next[k], out0.len() + k) by {
                            if k < done.len() {
                                assert(out@[out0.len() + k] == out_pre[out0.len() + k]);
                                assert(next[k] == done[k]);
                            } else {
                                let d = k - done.len();
                                assert(out@[out_pre.len() + d]@ == prepared_record(
                                    subl[d],
                                    out_pre.len() + d,
                                ));
                                assert(out0.len() + k == out_pre.len() + d);
                                assert(next[k] == subl[d]);
                            }
                        }
                    }
                },
            }
            i += 1;
        }
        proof {
            assert(stv.take(stv.len() as int) =~= stv);
        }
    }

    /// Discovers the command leaves of this tree: one record per leaf, in
    /// declared preorder, indexed 1 upward, none yet started.
    pub fn prepare(&self) -> (r: Vec<FuncToExecute>)
        ensures
            r@.len() == tree_leaves(self@).len(),
            forall|k: int|
                0 <= k < tree_leaves(self@).len() ==> (#[trigger] r@[k])@ == prepared_record(
                    tree_leaves(self@)[k],
                    k,
                ),
    {
        let mut out: Vec<FuncToExecute> = Vec::new();
        self.prepare_into(&mut out);
        proof {
            assert forall|k: int| 0 <= k < tree_leaves(self@).len() implies (#[trigger] out@[k])@
                == prepared_record(tree_leaves(self@)[k], k) by {
                assert(out@[0 + k]@ == prepared_record(tree_leaves(self@)[k], 0 + k));
            }
        }
        out
    }
}

/// Whether every node of a tree declares a kind with defined semantics.
pub open spec fn kinds_supported(t: TreeSpec) -> bool
    decreases t,
{
    t.kind != WorkflowKind::Exceptional && steps_kinds_supported(t.steps)
}

/// Whether every node under a child list declares a supported kind.
pub open spec fn steps_kinds_supported(ss: Seq<TreeStepSpec>) -> bool
    decreases ss,
{
    if ss.len() == 0 {
        true
    } else {
        step_kinds_supported(ss[0]) && steps_kinds_supported(ss.drop_first())
    }
}

/// Whether every node under one child declares a supported kind.
pub open spec fn step_kinds_supported(s: TreeStepSpec) -> bool
    decreases s,
{
    match s {
        TreeStepSpec::Workflow(sub) => kinds_supported(sub),
        TreeStepSpec::Command(_) => true,
    }
}

/// A child list's support is the pointwise support of its children.
pub proof fn lemma_steps_kinds_supported(ss: Seq<TreeStepSpec>)
    ensures
        steps_kinds_supported(ss) <==> (forall|i: int|
            0 <= i < ss.len() ==> step_kinds_supported(#[trigger] ss[i])),
    decreases ss,
{
    if ss.len() > 0 {
        lemma_steps_kinds_supported(ss.drop_first());
        if steps_kinds_supported(ss) {
            assert forall|i: int| 0 <= i < ss.len() implies step_kinds_supported(
                #[trigger] ss[i],
            ) by {
                if i > 0 {
                    assert(ss.drop_first()[i - 1] == ss[i]);
                }
            }
        }
        if forall|i: int| 0 <= i < ss.len() ==> step_kinds_supported(#[trigger] ss[i]) {
            assert forall|i: int| 0 <= i < ss.drop_first().len() implies step_kinds_supported(
                #[trigger] ss.drop_first()[i],
            ) by {
                assert(ss.drop_first()[i] == ss[i + 1]);
            }
        }
    }
}

/// Tests whether every node of a tree declares a supported kind.
fn check_kinds(t: &WorkflowTree) -> (r: bool)
    ensures
        r == kinds_supported(t@),
    decreases *t,
{
    if matches!(t.kind, WorkflowKind::Exceptional) {
        return false;
    }
    let ghost stv = tree_steps_spec(t.steps@);
    proof {
        lemma_tree_steps_spec(t.steps@);
        lemma_steps_kinds_supported(stv);
    }
    let mut i: usize = 0;
    while i < t.steps.len()
        invariant
            t.kind != WorkflowKind::Exceptional,
            stv == tree_steps_spec(t.steps@),
            stv.len() == t.steps@.len(),
            forall|j: int| 0 <= j < stv.len() ==> stv[j] == tree_step_spec(t.steps@[j]),
            i <= t.steps@.len(),
            steps_kinds_supported(stv) <==> (forall|j: int|
                0 <= j < stv.len() ==> step_kinds_supported(#[trigger] stv[j])),
            forall|j: int| 0 <= j < i ==> step_kinds_supported(#[trigger] stv[j]),
        decreases t.steps@.len() - i,
    {
        match &t.steps[i] {
            WorkflowTreeStep::Workflow(sub) => {
                if !check_kinds(sub) {
                    proof {
                        assert(!step_kinds_supported(stv[i as int]));
                    }
                    return false;
                }
            },
            WorkflowTreeStep::Command { func_binding } => {},
        }
        i += 1;
    }
    proof {
        assert(steps_kinds_supported(stv));
    }
    true
}

/// Whether every leaf at positions `[off, off + n)` has finished.
pub open spec fn range_finished(rs: Seq<FuncToExecuteSpec>, off: int, n: int) -> bool {
    forall|j: int| off <= j < off + n ==> (#[trigger] rs[j]).state is Finished
}

/// The positions of the leaves a driver may start now in a subtree rooted at
/// leaf position `off`, under the tree's kind semantics.
pub open spec fn tree_ready(t: TreeSpec, rs: Seq<FuncToExecuteSpec>, off: int) -> Seq<int>
    decreases t,
{
    steps_ready(t.kind, t.steps, rs, off)
}

/// The startable positions under a child list. `Conditional` admits only the
/// first unfinished child, so no child starts before everything declared
/// earlier has finished; `Parallel` admits every child at once.
pub open spec fn steps_ready(
    kind: WorkflowKind,
    ss: Seq<TreeStepSpec>,
    rs: Seq<FuncToExecuteSpec>,
    off: int,
) -> Seq<int>
    decreases ss,
{
    if ss.len() == 0 {
        Seq::empty()
    } else {
        let n0 = step_leaves(ss[0]).len() as int;
        match kind {
            WorkflowKind::Conditional => if range_finished(rs, off, n0) {
                steps_ready(kind, ss.drop_first(), rs, off + n0)
            } else {
                step_ready(ss[0], rs, off)
            },
            WorkflowKind::Parallel => step_ready(ss[0], rs, off) + steps_ready(
                kind,
                ss.drop_first(),
                rs,
                off + n0,
            ),
            WorkflowKind::Exceptional => Seq::empty(),
        }
    }
}

/// The startable positions under one child.
pub open spec fn step_ready(s: TreeStepSpec, rs: Seq<FuncToExecuteSpec>, off: int) -> Seq<int>
    decreases s,
{
    match s {
        TreeStepSpec::Command(_) => if rs[off].state is NotStarted {
            seq![off]
        } else {
            Seq::empty()
        },
        TreeStepSpec::Workflow(sub) => tree_ready(sub, rs, off),
    }
}

/// A take of a child list accounts for no more leaves than the whole.
pub proof fn lemma_steps_leaves_take_le(ss: Seq<TreeStepSpec>, i: int)
    requires
        0 <= i <= ss.len(),
    ensures
        steps_leaves(ss.take(i)).len() <= steps_leaves(ss).len(),
{
    assert(ss =~= ss.take(i) + ss.skip(i));
    lemma_steps_leaves_concat(ss.take(i), ss.skip(i));
}

/// Counts the command leaves of a subtree.
fn count_leaves(t: &WorkflowTree, bound: usize) -> (n: usize)
    requires
        tree_leaves(t@).len() <= bound,
    ensures
        n == tree_leaves(t@).len(),
    decreases *t,
{
    let ghost stv = tree_steps_spec(t.steps@);
    proof {
        lemma_tree_steps_spec(t.steps@);
        assert(stv.take(0) =~= Seq::<TreeStepSpec>::empty());
    }
    let mut n: usize = 0;
    let mut i: usize = 0;
    while i < t.steps.len()
        invariant
            tree_leaves(t@).len() <= bound,
            stv == tree_steps_spec(t.steps@),
            stv.len() == t.steps@.len(),
            forall|j: int| 0 <= j < stv.len() ==> stv[j] == tree_step_spec(t.steps@[j]),
            i <= t.steps@.len(),
            n == steps_leaves(stv.take(i as int)).len(),
        decreases t.steps@.len() - i,
    {
        proof {
            lemma_steps_leaves_take(stv, i as int);
            lemma_steps_leaves_take_le(stv, i + 1);
        }
        match &t.steps[i] {
            WorkflowTreeStep::Command { func_binding } => {
                proof {
                    assert(step_leaves(stv[i as int]) =~= seq![func_binding@]);
                }
                n = n + 1;
            },
            WorkflowTreeStep::Workflow(sub) => {
                let c = count_leaves(sub, bound);
                n = n + c;
            },
        }
        i += 1;
    }
    proof {
        assert(stv.take(stv.len() as int) =~= stv);
    }
    n
}

impl Executor {
    /// Tests whether every leaf at positions `[off, off + n)` has finished.
    fn range_done(&self, off: usize, n: usize) -> (r: bool)
        requires
            off + n <= self.recs().len(),
        ensures
            r == range_finished(self.recs(), off as int, n as int),
    {
        let mut j: usize = 0;
        while j < n
            invariant
                off + n <= self.recs().len(),
                self.recs().len() == self.records@.len(),
                j <= n,
                forall|k: int| off <= k < off + j ==> (#[trigger] self.recs()[k]).state is Finished,
            decreases n - j,
        {
            proof {
                vstd::std_specs::vec::axiom_spec_len(&self.records);
                assert(off + j < self.records@.len());
            }
            let finished = matches!(&self.records[off + j].state, CommandState::Finished { .. });
            if !finished {
                proof {
                    assert(self.recs()[off + j] == self.records@[off + j]@);
                    assert(!((self.recs()[off + j]).state is Finished));
                }
                return false;
            }
            proof {
                assert(self.recs()[off + j] == self.records@[off + j]@);
            }
            j += 1;
        }
        true
    }

    /// Appends the startable positions of the subtree at `(t, off)` to `out`.
    fn ready_rec(&self, t: &WorkflowTree, off: usize, out: &mut Vec<usize>)
        requires
            off + tree_leaves(t@).len() <= self.recs().len(),
        ensures
            final(out)@.len() >= old(out)@.len(),
            forall|j: int| 0 <= j < old(out)@.len() ==> #[trigger] final(out)@[j] == old(out)@[j],
            final(out)@.map_values(|p: usize| p as int) == old(out)@.map_values(|p: usize| p as int)
                + tree_ready(t@, self.recs(), off as int),
        decreases *t,
    {
        let ghost stv = tree_steps_spec(t.steps@);
        let ghost rs = self.recs();
        proof {
            lemma_tree_steps_spec(t.steps@);
            assert(stv.take(0) =~= Seq::<TreeStepSpec>::empty());
            assert(stv.skip(0) =~= stv);
        }
        match t.kind {
            WorkflowKind::Exceptional => {
                proof {
                    assert(tree_ready(t@, rs, off as int) =~= Seq::<int>::empty());
                    assert(out@.map_values(|p: usize| p as int) =~= out@.map_values(
                        |p: usize| p as int,
                    ) + tree_ready(t@, rs, off as int));
                }
            },
            WorkflowKind::Conditional => {
                let mut cur = off;
                let mut i: usize = 0;
                while i < t.steps.len()
                    invariant
                        rs == self.recs(),
                        self.recs().len() == self.records@.len(),
                        stv == tree_steps_spec(t.steps@),
                        stv.len() == t.steps@.len(),
                        forall|j: int| 0 <= j < stv.len() ==> stv[j] == tree_step_spec(t.steps@[j]),
                        off + tree_leaves(t@).len() <= rs.len(),
                        tree_leaves(t@) == steps_leaves(stv),
                        tree_ready(t@, rs, off as int) == steps_ready(
                            WorkflowKind::Conditional,
                            stv,
                            rs,
                            off as int,
                        ),
                        i <= t.steps@.len(),
                        cur == off + steps_leaves(stv.take(i as int)).len(),
                        out@ == old(out)@,
                        steps_ready(WorkflowKind::Conditional, stv, rs, off as int) == steps_ready(
                            WorkflowKind::Conditional,
                            stv.skip(i as int),
                            rs,
                            cur as int,
                        ),
                    decreases t.steps@.len() - i,
                {
                    proof {
                        lemma_steps_leaves_take(stv, i as int);
                        lemma_steps_leaves_take_le(stv, i + 1);
                        assert(stv.skip(i as int)[0] == stv[i as int]);
                        assert(stv.skip(i as int).drop_first() =~= stv.skip(i + 1));
                    }
                    let step = &t.steps[i];
                    let n0 = match step {
                        WorkflowTreeStep::Command { func_binding } => {
                            proof {
                                assert(step_leaves(stv[i as int]) =~= seq![func_binding@]);
                            }
                            1
                        },
                        WorkflowTreeStep::Workflow(sub) => {
                            proof {
                                assert(step_leaves(stv[i as int]) == tree_leaves(sub@));
                            }
                            count_leaves(sub, self.records.len())
                        },
                    };
                    proof {
                        vstd::std_specs::vec::axiom_spec_len(&self.records);
                        assert(n0 == step_leaves(stv[i as int]).len());
                        assert(cur + n0 == off + steps_leaves(stv.take(i + 1)).len());
                        assert(steps_leaves(stv.take(i + 1)).len() <= tree_leaves(t@).len());
                    }
                    if !self.range_done(cur, n0) {
                        proof {
                            assert(steps_ready(
                                WorkflowKind::Conditional,
                                stv.skip(i as int),
                                rs,
                                cur as int,
                            ) == step_ready(stv[i as int], rs, cur as int));
                        }
                        match step {
                            WorkflowTreeStep::Command { func_binding } => {
                                let not_started = matches!(
                                    &self.records[cur].state,
                                    CommandState::NotStarted,
                                );
                                proof {
                                    assert(self.recs()[cur as int] == self.records@[cur as int]@);
                                }
                                if not_started {
                                    out.push(cur);
                                }
                                proof {
                                    assert(out@.map_values(|p: usize| p as int) =~= old(out)@
                                        .map_values(|p: usize| p as int) + step_ready(
                                        stv[i as int],
                                        rs,
                                        cur as int,
                                    ));
                                }
                            },
                            WorkflowTreeStep::Workflow(sub) => {
                                self.ready_rec(sub, cur, out);
                                proof {
                                    assert(step_ready(stv[i as int], rs, cur as int) == tree_ready(
                                        sub@,
                                        rs,
                                        cur as int,
                                    ));
                                }
                            },
                        }
                        return ;
                    }
                    proof {
                        assert(range_finished(rs, cur as int, n0 as int));
                        assert(steps_ready(
                            WorkflowKind::Conditional,
                            stv.skip(i as int),
                            rs,
                            cur as int,
                        ) == steps_ready(
                            WorkflowKind::Conditional,
                            stv.skip(i + 1),
                            rs,
                            cur + n0,
                        ));
                    }
                    cur = cur + n0;
                    i += 1;
                }
                proof {
                    assert(stv.skip(stv.len() as int) =~= Seq::<TreeStepSpec>::empty());
                    assert(tree_ready(t@, rs, off as int) =~= Seq::<int>::empty());
                    assert(out@.map_values(|p: usize| p as int) =~= old(out)@.map_values(
                        |p: usize| p as int,
                    ) + tree_ready(t@, rs, off as int));
                }
            },
            WorkflowKind::Parallel => {
                let mut cur = off;
                let mut i: usize = 0;
                proof {
                    assert(steps_ready(WorkflowKind::Parallel, stv.take(0), rs, off as int)
                        =~= Seq::<int>::empty());
                    assert(out@.map_values(|p: usize| p as int) =~= out@.map_values(
                        |p: usize| p as int,
                    ) + steps_ready(WorkflowKind::Parallel, stv.take(0), rs, off as int));
                }
                while i < t.steps.len()
                    invariant
                        rs == self.recs(),
                        self.recs().len() == self.records@.len(),
                        stv == tree_steps_spec(t.steps@),
                        stv.len() == t.steps@.len(),
                        forall|j: int| 0 <= j < stv.len() ==> stv[j] == tree_step_spec(t.steps@[j]),
                        off + tree_leaves(t@).len() <= rs.len(),
                        tree_leaves(t@) == steps_leaves(stv),
                        tree_ready(t@, rs, off as int) == steps_ready(
                            WorkflowKind::Parallel,
                            stv,
                            rs,
                            off as int,
                        ),
                        i <= t.steps@.len(),
                        cur == off + steps_leaves(stv.take(i as int)).len(),
                        out@.len() >= old(out)@.len(),
                        forall|j: int|
                            0 <= j < old(out)@.len() ==> #[trigger] out@[j] == old(out)@[j],
                        out@.map_values(|p: usize| p as int) == old(out)@.map_values(
                            |p: usize| p as int,
                        ) + steps_ready(WorkflowKind::Parallel, stv.take(i as int), rs, off as int),
                    decreases t.steps@.len() - i,
                {
                    proof {
                        lemma_steps_leaves_take(stv, i as int);
                        lemma_steps_leaves_take_le(stv, i + 1);
                    }
                    let ghost out_pre = out@;
                    let step = &t.steps[i];
                    let n0 = match step {
                        WorkflowTreeStep::Command { func_binding } => {
                            proof {
                                assert(step_leaves(stv[i as int]) =~= seq![func_binding@]);
                            }
                            let not_started = matches!(
                                &self.records[cur].state,
                                CommandState::NotStarted,
                            );
                            proof {
                                assert(self.recs()[cur as int] == self.records@[cur as int]@);
                            }
                            if not_started {
                                out.push(cur);
                            }
                            proof {
                                assert(out@.map_values(|p: usize| p as int) =~= out_pre.map_values(
                                    |p: usize| p as int,
                                ) + step_ready(stv[i as int], rs, cur as int));
                            }
                            1
                        },
                        WorkflowTreeStep::Workflow(sub) => {
                            proof {
                                assert(step_leaves(stv[i as int]) == tree_leaves(sub@));
                            }
                            let c = count_leaves(sub, self.records.len());
                            self.ready_rec(sub, cur, out);
                            proof {
                                assert(step_ready(stv[i as int], rs, cur as int) == tree_ready(
                                    sub@,
                                    rs,
                                    cur as int,
                                ));
                            }
                            c
                        },
                    };
                    proof {
                        vstd::std_specs::vec::axiom_spec_len(&self.records);
                        assert(n0 == step_leaves(stv[i as int]).len());
                        assert(cur + n0 == off + steps_leaves(stv.take(i + 1)).len());
                        assert(steps_leaves(stv.take(i + 1)).len() <= tree_leaves(t@).len());
                        lemma_steps_ready_parallel_take(stv, rs, off as int, i as int);
                        assert(out@.map_values(|p: usize| p as int) =~= old(out)@.map_values(
                            |p: usize| p as int,
                        ) + steps_ready(WorkflowKind::Parallel, stv.take(i + 1), rs, off as int));
                    }
                    cur = cur + n0;
                    i += 1;
                }
                proof {
                    assert(stv.take(stv.len() as int) =~= stv);
                }
            },
        }
    }

    /// The positions of the leaves a driver may start now: under
    /// `Conditional` semantics only the earliest unfinished work, under
    /// `Parallel` semantics every not-yet-started leaf whose node admits it.
    pub fn ready(&self) -> (r: Vec<usize>)
        requires
            self.wf(),
        ensures
            r@.map_values(|p: usize| p as int) == tree_ready(self.tree@, self.recs(), 0),
    {
        let mut out: Vec<usize> = Vec::new();
        proof {
            assert(out@.map_values(|p: usize| p as int) =~= Seq::<int>::empty());
        }
        self.ready_rec(&self.tree, 0, &mut out);
        proof {
            assert(Seq::<int>::empty() + tree_ready(self.tree@, self.recs(), 0) =~= tree_ready(
                self.tree@,
                self.recs(),
                0,
            ));
        }
        out
    }
}

/// Taking one more child under `Parallel` appends exactly that child's
/// startable positions.
proof fn lemma_steps_ready_parallel_take(
    ss: Seq<TreeStepSpec>,
    rs: Seq<FuncToExecuteSpec>,
    off: int,
    i: int,
)
    requires
        0 <= i < ss.len(),
    ensures
        steps_ready(WorkflowKind::Parallel, ss.take(i + 1), rs, off) == steps_ready(
            WorkflowKind::Parallel,
            ss.take(i),
            rs,
            off,
        ) + step_ready(ss[i], rs, off + steps_leaves(ss.take(i)).len()),
    decreases i,
{
    if i == 0 {
        assert(ss.take(1)[0] == ss[0]);
        assert(ss.take(1).drop_first() =~= Seq::<TreeStepSpec>::empty());
        assert(ss.take(0) =~= Seq::<TreeStepSpec>::empty());
        assert(steps_ready(WorkflowKind::Parallel, ss.take(1), rs, off) == step_ready(
            ss.take(1)[0],
            rs,
            off,
        ) + steps_ready(
            WorkflowKind::Parallel,
            ss.take(1).drop_first(),
            rs,
            off + step_leaves(ss.take(1)[0]).len() as int,
        ));
        assert(step_ready(ss[0], rs, off) + Seq::<int>::empty() =~= step_ready(ss[0], rs, off));
        assert(Seq::<int>::empty() + step_ready(ss[0], rs, off) =~= step_ready(ss[0], rs, off));
    } else {
        let off1 = off + step_leaves(ss[0]).len() as int;
        lemma_steps_ready_parallel_take(ss.drop_first(), rs, off1, i - 1);
        assert(ss.take(i + 1)[0] == ss[0]);
        assert(ss.take(i)[0] == ss[0]);
        assert(ss.take(i + 1).drop_first() =~= ss.drop_first().take(i));
        assert(ss.take(i).drop_first() =~= ss.drop_first().take(i - 1));
        assert(ss.drop_first()[i - 1] == ss[i]);
        assert(steps_ready(WorkflowKind::Parallel, ss.take(i + 1), rs, off) == step_ready(
            ss.take(i + 1)[0],
            rs,
            off,
        ) + steps_ready(
            WorkflowKind::Parallel,
            ss.take(i + 1).drop_first(),
            rs,
            off + step_leaves(ss.take(i + 1)[0]).len() as int,
        ));
        assert(steps_ready(WorkflowKind::Parallel, ss.take(i), rs, off) == step_ready(
            ss.take(i)[0],
            rs,
            off,
        ) + steps_ready(
            WorkflowKind::Parallel,
            ss.take(i).drop_first(),
            rs,
            off + step_leaves(ss.take(i)[0]).len() as int,
        ));
        // The leaves taken so far split as the head's leaves plus the rest's.
        assert(seq![ss[0]].drop_first() =~= Seq::<TreeStepSpec>::empty());
        assert(seq![ss[0]] + ss.drop_first().take(i - 1) =~= ss.take(i));
        lemma_steps_leaves_concat(seq![ss[0]], ss.drop_first().take(i - 1));
        assert(steps_leaves(seq![ss[0]]) == step_leaves(ss[0]) + steps_leaves(
            Seq::<TreeStepSpec>::empty(),
        ));
        assert(steps_leaves(seq![ss[0]]) =~= step_leaves(ss[0]));
        assert(off + steps_leaves(ss.take(i)).len() == off1 + steps_leaves(
            ss.drop_first().take(i - 1),
        ).len());
        assert((step_ready(ss[0], rs, off) + steps_ready(
            WorkflowKind::Parallel,
            ss.drop_first().take(i - 1),
            rs,
            off1,
        )) + step_ready(ss[i], rs, off + steps_leaves(ss.take(i)).len()) =~= step_ready(
            ss[0],
            rs,
            off,
        ) + (steps_ready(WorkflowKind::Parallel, ss.drop_first().take(i - 1), rs, off1)
            + step_ready(ss[i], rs, off + steps_leaves(ss.take(i)).len())));
    }
}

/// Law: for every tree that runs successfully, the count of leaf results
/// `run` returns equals the count of command leaves `prepare` discovers.
pub proof fn lemma_result_count_matches_prepare(
    t: &WorkflowTree,
    outcomes: &Vec<CommandOutcome>,
    r: Result<Vec<FuncBindingReturnValue>, WorkflowError>,
    prepared: Vec<FuncToExecute>,
)
    requires
        call_ensures(WorkflowTree::run, (t, outcomes), r),
        call_ensures(WorkflowTree::prepare, (t,), prepared),
        r is Ok,
    ensures
        r->Ok_0@.len() == prepared@.len(),
{
}

/// Under `Conditional` semantics over command children, whatever leaf is
/// admitted is the earliest unfinished one, it has not started, and at most
/// one leaf is admitted at a time: every leaf declared before it has fully
/// finished first.
proof fn lemma_steps_ready_conditional_commands(
    ss: Seq<TreeStepSpec>,
    rs: Seq<FuncToExecuteSpec>,
    off: int,
)
    requires
        forall|i: int| 0 <= i < ss.len() ==> (#[trigger] ss[i]) is Command,
    ensures
        steps_ready(WorkflowKind::Conditional, ss, rs, off).len() <= 1,
        forall|p: int|
            steps_ready(WorkflowKind::Conditional, ss, rs, off).contains(p) ==> off <= p < off
                + ss.len() && (#[trigger] rs[p]).state is NotStarted && (forall|q: int|
                off <= q < p ==> (#[trigger] rs[q]).state is Finished),
    decreases ss,
{
    if ss.len() > 0 {
        assert(ss[0] is Command);
        assert(step_leaves(ss[0]).len() == 1);
        assert forall|i: int| 0 <= i < ss.drop_first().len() implies (#[trigger] ss.drop_first()[i])
            is Command by {
            assert(ss.drop_first()[i] == ss[i + 1]);
        }
        lemma_steps_ready_conditional_commands(ss.drop_first(), rs, off + 1);
        let r = steps_ready(WorkflowKind::Conditional, ss, rs, off);
        if range_finished(rs, off, step_leaves(ss[0]).len() as int) {
            assert(rs[off].state is Finished);
            assert(r == steps_ready(WorkflowKind::Conditional, ss.drop_first(), rs, off + 1));
            assert forall|p: int| r.contains(p) implies off <= p < off + ss.len() && (
            #[trigger] rs[p]).state is NotStarted && (forall|q: int|
                off <= q < p ==> (#[trigger] rs[q]).state is Finished) by {
                assert(steps_ready(WorkflowKind::Conditional, ss.drop_first(), rs, off
                    + 1).contains(p));
                assert forall|q: int| off <= q < p implies (#[trigger] rs[q]).state
                    is Finished by {
                    if q >= off + 1 {
                        assert(rs[q].state is Finished);
                    }
                }
            }
        } else {
            assert(r == step_ready(ss[0], rs, off));
            if rs[off].state is NotStarted {
                assert(r =~= seq![off]);
                assert forall|p: int| r.contains(p) implies off <= p < off + ss.len() && (
                #[trigger] rs[p]).state is NotStarted && (forall|q: int|
                    off <= q < p ==> (#[trigger] rs[q]).state is Finished) by {
                    let k = choose|k: int| 0 <= k < r.len() && r[k] == p;
                    assert(p == off);
                }
            } else {
                assert(r =~= Seq::<int>::empty());
                assert forall|p: int| r.contains(p) implies false by {
                    let k = choose|k: int| 0 <= k < r.len() && r[k] == p;
                }
            }
        }
    }
}

/// Under `Parallel` semantics over command children, a fresh run admits
/// every leaf at once: position `off + i` for each of the `n` children.
proof fn lemma_steps_ready_parallel_commands(
    ss: Seq<TreeStepSpec>,
    rs: Seq<FuncToExecuteSpec>,
    off: int,
)
    requires
        forall|i: int| 0 <= i < ss.len() ==> (#[trigger] ss[i]) is Command,
        forall|j: int| off <= j < off + ss.len() ==> (#[trigger] rs[j]).state is NotStarted,
    ensures
        steps_ready(WorkflowKind::Parallel, ss, rs, off) == Seq::new(ss.len(), |i: int| off + i),
    decreases ss,
{
    if ss.len() == 0 {
        assert(steps_ready(WorkflowKind::Parallel, ss, rs, off) =~= Seq::new(
            ss.len(),
            |i: int| off + i,
        ));
    } else {
        assert(ss[0] is Command);
        assert(step_leaves(ss[0]).len() == 1);
        assert forall|i: int| 0 <= i < ss.drop_first().len() implies (#[trigger] ss.drop_first()[i])
            is Command by {
            assert(ss.drop_first()[i] == ss[i + 1]);
        }
        lemma_steps_ready_parallel_commands(ss.drop_first(), rs, off + 1);
        assert(rs[off].state is NotStarted);
        assert(step_ready(ss[0], rs, off) == seq![off]);
        assert(steps_ready(WorkflowKind::Parallel, ss, rs, off) =~= Seq::new(
            ss.len(),
            |i: int| off + i,
        ));
    }
}

/// Law: in a `Conditional` tree of command leaves, execution follows
/// declared order exactly. At any state the scheduler admits at most one
/// leaf, and only the earliest unfinished one — a leaf can start only after
/// every leaf declared before it has finished.
pub proof fn lemma_conditional_order(t: TreeSpec, rs: Seq<FuncToExecuteSpec>, p: int)
    requires
        t.kind == WorkflowKind::Conditional,
        forall|i: int| 0 <= i < t.steps.len() ==> (#[trigger] t.steps[i]) is Command,
        tree_ready(t, rs, 0).contains(p),
    ensures
        0 <= p < t.steps.len(),
        rs[p].state is NotStarted,
        forall|q: int| 0 <= q < p ==> (#[trigger] rs[q]).state is Finished,
        tree_ready(t, rs, 0).len() <= 1,
{
    lemma_steps_ready_conditional_commands(t.steps, rs, 0);
}

/// Law: in a `Parallel` tree of `n` command leaves none of which has
/// started, the scheduler admits all `n` leaves at once — concurrent, not
/// sequential, dispatch.
pub proof fn lemma_parallel_all_ready(t: TreeSpec, rs: Seq<FuncToExecuteSpec>)
    requires
        t.kind == WorkflowKind::Parallel,
        forall|i: int| 0 <= i < t.steps.len() ==> (#[trigger] t.steps[i]) is Command,
        forall|j: int| 0 <= j < t.steps.len() ==> (#[trigger] rs[j]).state is NotStarted,
    ensures
        tree_ready(t, rs, 0) == Seq::new(t.steps.len(), |i: int| i),
{
    lemma_steps_ready_parallel_commands(t.steps, rs, 0);
    assert(Seq::new(t.steps.len(), |i: int| 0 + i) =~= Seq::new(t.steps.len(), |i: int| i));
}

/// Under any supported child list, a range with unfinished work and nothing
/// in flight admits at least one leaf.
proof fn lemma_steps_ready_progress(
    kind: WorkflowKind,
    ss: Seq<TreeStepSpec>,
    rs: Seq<FuncToExecuteSpec>,
    off: int,
)
    requires
        kind != WorkflowKind::Exceptional,
        steps_kinds_supported(ss),
        forall|j: int|
            off <= j < off + steps_leaves(ss).len() ==> !((#[trigger] rs[j]).state is Running),
        exists|j: int|
            off <= j < off + steps_leaves(ss).len() && !((#[trigger] rs[j]).state is Finished),
    ensures
        steps_ready(kind, ss, rs, off).len() > 0,
    decreases ss, 1int,
{
    let w = choose|j: int|
        off <= j < off + steps_leaves(ss).len() && !((#[trigger] rs[j]).state is Finished);
    assert(ss.len() > 0);
    let n0 = step_leaves(ss[0]).len() as int;
    assert(steps_leaves(ss) == step_leaves(ss[0]) + steps_leaves(ss.drop_first()));
    assert(step_kinds_supported(ss[0]));
    assert forall|i: int| 0 <= i < ss.drop_first().len() implies step_kinds_supported(
        #[trigger] ss.drop_first()[i],
    ) by {
        lemma_steps_kinds_supported(ss);
        lemma_steps_kinds_supported(ss.drop_first());
        assert(ss.drop_first()[i] == ss[i + 1]);
    }
    lemma_steps_kinds_supported(ss.drop_first());
    match kind {
        WorkflowKind::Conditional => {
            if range_finished(rs, off, n0) {
                assert(w >= off + n0);
                lemma_steps_ready_progress(kind, ss.drop_first(), rs, off + n0);
            } else {
                let k = choose|k: int| off <= k < off + n0 && !((#[trigger] rs[k]).state
                    is Finished);
                lemma_step_ready_progress(ss[0], rs, off);
            }
        },
        WorkflowKind::Parallel => {
            if w < off + n0 {
                lemma_step_ready_progress(ss[0], rs, off);
            } else {
                lemma_steps_ready_progress(kind, ss.drop_first(), rs, off + n0);
            }
        },
        WorkflowKind::Exceptional => {},
    }
}

/// Under one supported child, a range with unfinished work and nothing in
/// flight admits at least one leaf.
proof fn lemma_step_ready_progress(s: TreeStepSpec, rs: Seq<FuncToExecuteSpec>, off: int)
    requires
        step_kinds_supported(s),
        forall|j: int|
            off <= j < off + step_leaves(s).len() ==> !((#[trigger] rs[j]).state is Running),
        exists|j: int|
            off <= j < off + step_leaves(s).len() && !((#[trigger] rs[j]).state is Finished),
    ensures
        step_ready(s, rs, off).len() > 0,
    decreases s, 0int,
{
    match s {
        TreeStepSpec::Command(_) => {
            assert(step_leaves(s).len() == 1);
            assert(!(rs[off].state is Finished));
            assert(!(rs[off].state is Running));
            assert(rs[off].state is NotStarted);
        },
        TreeStepSpec::Workflow(sub) => {
            assert(kinds_supported(sub));
            lemma_steps_ready_progress(sub.kind, sub.steps, rs, off);
        },
    }
}

/// Law: a run never deadlocks. While some leaf is unfinished and none is in
/// flight, the scheduler admits at least one leaf, so a driver that runs
/// what `ready` names and records completions always drives the tree to the
/// end.
pub proof fn lemma_ready_progress(t: TreeSpec, rs: Seq<FuncToExecuteSpec>)
    requires
        kinds_supported(t),
        forall|j: int| 0 <= j < tree_leaves(t).len() ==> !((#[trigger] rs[j]).state is Running),
        exists|j: int|
            0 <= j < tree_leaves(t).len() && !((#[trigger] rs[j]).state is Finished),
    ensures
        tree_ready(t, rs, 0).len() > 0,
{
    lemma_steps_ready_progress(t.kind, t.steps, rs, 0);
}

/// Law: completions commute. Recording two different leaves' completions
/// touches disjoint records — each `complete` call updates exactly its own
/// entry — so the final arena, and with it `postprocess`'s ordered output,
/// does not depend on the order completions arrived in.
pub proof fn lemma_complete_commutes(
    rs: Seq<FuncToExecuteSpec>,
    i: int,
    j: int,
    a: FuncToExecuteSpec,
    b: FuncToExecuteSpec,
)
    requires
        0 <= i < rs.len(),
        0 <= j < rs.len(),
        i != j,
    ensures
        rs.update(i, a).update(j, b) == rs.update(j, b).update(i, a),
{
    assert(rs.update(i, a).update(j, b) =~= rs.update(j, b).update(i, a));
}

/// The value a conforming backend reported for one command execution,
/// together with the output it streamed while running.
#[derive(Debug)]
pub struct CommandOutcome {
    /// The success value, if the command succeeded.
    pub success: Option<String>,
    /// The failure value, if the command failed.
    pub failure: Option<String>,
    /// The output entries streamed during execution, in arrival order.
    pub output: Vec<OutputStream>,
}

/// Mathematical value of a [`CommandOutcome`].
pub ghost struct CommandOutcomeSpec {
    pub success: Option<Seq<char>>,
    pub failure: Option<Seq<char>>,
    pub output: Seq<OutputStreamSpec>,
}

impl View for CommandOutcome {
    type V = CommandOutcomeSpec;

    open spec fn view(&self) -> CommandOutcomeSpec {
        CommandOutcomeSpec {
            success: opt_text(self.success),
            failure: opt_text(self.failure),
            output: log_spec(self.output@),
        }
    }
}

/// One finalized per-leaf result, reported in declared preorder.
#[derive(Debug)]
pub struct FuncBindingReturnValue {
    /// The binding the leaf executed.
    pub func_binding_id: FuncBindingId,
    /// The captured success value, if any.
    pub success: Option<String>,
    /// The captured failure value, if any.
    pub failure: Option<String>,
    /// The output log collected for the leaf, in arrival order.
    pub output: Vec<OutputStream>,
}

/// Mathematical value of a [`FuncBindingReturnValue`].
pub ghost struct FuncBindingReturnValueSpec {
    pub func_binding_id: FuncBindingId,
    pub success: Option<Seq<char>>,
    pub failure: Option<Seq<char>>,
    pub output: Seq<OutputStreamSpec>,
}

impl View for FuncBindingReturnValue {
    type V = FuncBindingReturnValueSpec;

    open spec fn view(&self) -> FuncBindingReturnValueSpec {
        FuncBindingReturnValueSpec {
            func_binding_id: self.func_binding_id,
            success: opt_text(self.success),
            failure: opt_text(self.failure),
            output: log_spec(self.output@),
        }
    }
}

/// The captured values of a leaf's state: a leaf that has not finished has
/// captured nothing.
pub open spec fn state_values(s: CommandStateSpec) -> (Option<Seq<char>>, Option<Seq<char>>) {
    match s {
        CommandStateSpec::Finished { success, failure } => (success, failure),
        _ => (None, None),
    }
}

/// The finalized result of one prepared leaf paired with its collected log.
pub open spec fn finalized(rec: FuncToExecuteSpec, log: Seq<OutputStreamSpec>)
    -> FuncBindingReturnValueSpec {
    FuncBindingReturnValueSpec {
        func_binding_id: rec.func_binding.id,
        success: state_values(rec.state).0,
        failure: state_values(rec.state).1,
        output: log,
    }
}

/// Copies an optional text.
fn duplicate_opt_text(o: &Option<String>) -> (r: Option<String>)
    ensures
        opt_text(r) == opt_text(*o),
{
    match o {
        Some(s) => Some(s.clone()),
        None => None,
    }
}

/// Copies an output log.
fn duplicate_log(log: &Vec<OutputStream>) -> (r: Vec<OutputStream>)
    ensures
        log_spec(r@) == log_spec(log@),
{
    let mut r: Vec<OutputStream> = Vec::new();
    let mut i: usize = 0;
    while i < log.len()
        invariant
            i <= log@.len(),
            r@.len() == i,
            forall|j: int| 0 <= j < i ==> (#[trigger] r@[j])@ == log@[j]@,
        decreases log@.len() - i,
    {
        r.push(OutputStream { timestamp: log[i].timestamp, message: log[i].message.clone() });
        i += 1;
    }
    proof {
        assert(log_spec(r@) =~= log_spec(log@));
    }
    r
}

/// Tracks one run of a prepared tree: which leaves have started and what
/// each captured, under the tree's kind semantics.
#[derive(Debug)]
pub struct Executor {
    /// The tree being executed.
    pub tree: WorkflowTree,
    /// One record per command leaf, in declared preorder.
    pub records: Vec<FuncToExecute>,
}

impl Executor {
    /// Well-formedness: every node's kind has defined semantics, and the
    /// arena holds exactly one record per leaf, indexed 1 upward in preorder.
    pub open spec fn wf(self) -> bool {
        &&& kinds_supported(self.tree@)
        &&& self.records@.len() == tree_leaves(self.tree@).len()
        &&& forall|i: int|
            0 <= i < self.records@.len() ==> (#[trigger] self.records@[i])@.index == i + 1
                && self.records@[i]@.func_binding == tree_leaves(self.tree@)[i]
    }

    /// The mathematical values of the record arena.
    pub open spec fn recs(self) -> Seq<FuncToExecuteSpec> {
        recs_of(self.records@)
    }

    /// Prepares a tree for execution, failing fast on a node whose kind has
    /// no defined semantics.
    pub fn new(tree: WorkflowTree) -> (r: Result<Executor, WorkflowError>)
        ensures
            r is Ok <==> kinds_supported(tree@),
            r matches Err(e) ==> e matches WorkflowError::UnsupportedKind,
            r matches Ok(ex) ==> ex.wf() && ex.tree@ == tree@ && forall|i: int|
                0 <= i < ex.recs().len() ==> (#[trigger] ex.recs()[i]).state
                    is NotStarted,
    {
        if !check_kinds(&tree) {
            return Err(WorkflowError::UnsupportedKind);
        }
        let records = tree.prepare();
        let ex = Executor { tree, records };
        proof {
            assert forall|i: int| 0 <= i < ex.records@.len() implies (#[trigger] ex.records@[i])@
                .index == i + 1 && ex.records@[i]@.func_binding == tree_leaves(ex.tree@)[i] && (
            ex.recs()[i]).state is NotStarted by {
                assert(ex.records@[i]@ == prepared_record(tree_leaves(ex.tree@)[i], i));
            }
        }
        Ok(ex)
    }

    /// Marks a not-yet-started leaf as dispatched.
    pub fn start(&mut self, i: usize)
        requires
            old(self).wf(),
            i < old(self).recs().len(),
            old(self).recs()[i as int].state is NotStarted,
        ensures
            final(self).wf(),
            final(self).tree@ == old(self).tree@,
            final(self).recs() == old(self).recs().update(
                i as int,
                (FuncToExecuteSpec {
                    index: old(self).recs()[i as int].index,
                    func_binding: old(self).recs()[i as int].func_binding,
                    state: CommandStateSpec::Running,
                }),
            ),
    {
        let index = self.records[i].index;
        let func_binding = self.records[i].func_binding.duplicate();
        self.records.set(i, FuncToExecute { index, func_binding, state: CommandState::Running });
        proof {
            assert(self.recs() =~= old(self).recs().update(
                i as int,
                (FuncToExecuteSpec {
                    index: old(self).recs()[i as int].index,
                    func_binding: old(self).recs()[i as int].func_binding,
                    state: CommandStateSpec::Running,
                }),
            ));
        }
    }

    /// Records the value a leaf's execution captured. Completions may arrive
    /// in any order; each touches only its own record.
    pub fn complete(&mut self, i: usize, success: Option<String>, failure: Option<String>)
        requires
            old(self).wf(),
            i < old(self).recs().len(),
            !(old(self).recs()[i as int].state is Finished),
        ensures
            final(self).wf(),
            final(self).tree@ == old(self).tree@,
            final(self).recs() == old(self).recs().update(
                i as int,
                (FuncToExecuteSpec {
                    index: old(self).recs()[i as int].index,
                    func_binding: old(self).recs()[i as int].func_binding,
                    state: (CommandStateSpec::Finished {
                        success: opt_text(success),
                        failure: opt_text(failure),
                    }),
                }),
            ),
    {
        let index = self.records[i].index;
        let func_binding = self.records[i].func_binding.duplicate();
        self.records.set(
            i,
            FuncToExecute { index, func_binding, state: CommandState::Finished { success, failure } },
        );
        proof {
            assert(self.recs() =~= old(self).recs().update(
                i as int,
                (FuncToExecuteSpec {
                    index: old(self).recs()[i as int].index,
                    func_binding: old(self).recs()[i as int].func_binding,
                    state: (CommandStateSpec::Finished {
                        success: opt_text(success),
                        failure: opt_text(failure),
                    }),
                }),
            ));
        }
    }

    /// Drives every leaf to completion in declared preorder with the given
    /// per-leaf outcomes: the sequential reference schedule, valid for both
    /// kind semantics.
    pub fn execute(&mut self, outcomes: &Vec<CommandOutcome>)
        requires
            old(self).wf(),
            outcomes@.len() == old(self).recs().len(),
            forall|i: int|
                0 <= i < old(self).recs().len() ==> (#[trigger] old(self).recs()[i]).state
                    is NotStarted,
        ensures
            final(self).wf(),
            final(self).tree@ == old(self).tree@,
            final(self).recs().len() == old(self).recs().len(),
            forall|i: int|
                0 <= i < final(self).recs().len() ==> #[trigger] final(self).recs()[i] == (
                FuncToExecuteSpec {
                    index: old(self).recs()[i].index,
                    func_binding: old(self).recs()[i].func_binding,
                    state: (CommandStateSpec::Finished {
                        success: outcomes@[i]@.success,
                        failure: outcomes@[i]@.failure,
                    }),
                }),
    {
        let n = self.records.len();
        let mut i: usize = 0;
        while i < n
            invariant
                self.wf(),
                self.tree@ == old(self).tree@,
                n == self.recs().len() == old(self).recs().len() == outcomes@.len(),
                i <= n,
                forall|j: int|
                    0 <= j < n ==> (#[trigger] old(self).recs()[j]).state is NotStarted,
                forall|j: int|
                    i <= j < n ==> #[trigger] self.recs()[j] == old(self).recs()[j],
                forall|j: int|
                    0 <= j < i ==> #[trigger] self.recs()[j] == (FuncToExecuteSpec {
                        index: old(self).recs()[j].index,
                        func_binding: old(self).recs()[j].func_binding,
                        state: (CommandStateSpec::Finished {
                            success: outcomes@[j]@.success,
                            failure: outcomes@[j]@.failure,
                        }),
                    }),
            decreases n - i,
        {
            proof {
                assert(self.recs()[i as int] == old(self).recs()[i as int]);
                assert((old(self).recs()[i as int]).state is NotStarted);
            }
            self.start(i);
            let success = duplicate_opt_text(&outcomes[i].success);
            let failure = duplicate_opt_text(&outcomes[i].failure);
            self.complete(i, success, failure);
            i += 1;
        }
    }

    /// Pairs every record with its collected output log and returns the
    /// finalized results in declared preorder — position `k` reports the leaf
    /// with preorder index `k + 1`, whatever order completions arrived in.
    /// A prepared leaf with no collected log is an internal consistency
    /// fault.
    pub fn postprocess(self, logs: Vec<Option<Vec<OutputStream>>>) -> (r: Result<
        Vec<FuncBindingReturnValue>,
        WorkflowError,
    >)
        requires
            self.wf(),
            logs@.len() == self.recs().len(),
        ensures
            r is Ok <==> (forall|i: int| 0 <= i < logs@.len() ==> (#[trigger] logs@[i]) is Some),
            r matches Ok(vals) ==> vals@.len() == self.recs().len() && forall|k: int|
                0 <= k < vals@.len() ==> (#[trigger] vals@[k])@ == finalized(
                    self.recs()[k],
                    log_spec(logs@[k]->0@),
                ),
            r matches Err(e) ==> e matches WorkflowError::CommandNotPrepared(id) && exists|i: int|
                0 <= i < logs@.len() && (#[trigger] logs@[i]) is None && id == self.recs(
                )[i].func_binding.id,
    {
        let ghost rs = self.recs();
        let mut vals: Vec<FuncBindingReturnValue> = Vec::new();
        let mut i: usize = 0;
        let n = self.records.len();
        while i < n
            invariant
                self.wf(),
                rs == self.recs(),
                n == rs.len() == logs@.len(),
                i <= n,
                vals@.len() == i,
                forall|j: int| 0 <= j < i ==> (#[trigger] logs@[j]) is Some,
                forall|k: int|
                    0 <= k < i ==> (#[trigger] vals@[k])@ == finalized(
                        rs[k],
                        log_spec(logs@[k]->0@),
                    ),
            decreases n - i,
        {
            let rec = &self.records[i];
            let log = match &logs[i] {
                Some(l) => duplicate_log(l),
                None => {
                    proof {
                        assert(logs@[i as int] is None);
                    }
                    return Err(WorkflowError::CommandNotPrepared(rec.func_binding.id));
                },
            };
            let (success, failure) = match &rec.state {
                CommandState::Finished { success, failure } => (
                    duplicate_opt_text(success),
                    duplicate_opt_text(failure),
                ),
                _ => (None, None),
            };
            vals.push(
                FuncBindingReturnValue {
                    func_binding_id: rec.func_binding.id,
                    success,
                    failure,
                    output: log,
                },
            );
            i += 1;
        }
        Ok(vals)
    }
}

impl WorkflowTree {
    /// Runs this tree to completion with the per-leaf outcomes a backend
    /// reported, and returns one finalized result per command leaf, in
    /// declared preorder. The count of results equals the count of leaves
    /// discovered during `prepare`. The only failure is a node whose kind has
    /// no defined semantics.
    pub fn run(&self, outcomes: &Vec<CommandOutcome>) -> (r: Result<
        Vec<FuncBindingReturnValue>,
        WorkflowError,
    >)
        requires
            outcomes@.len() == tree_leaves(self@).len(),
        ensures
            r is Ok <==> kinds_supported(self@),
            r matches Err(e) ==> e matches WorkflowError::UnsupportedKind,
            r matches Ok(vals) ==> vals@.len() == tree_leaves(self@).len() && forall|k: int|
                0 <= k < vals@.len() ==> (#[trigger] vals@[k])@ == (FuncBindingReturnValueSpec {
                    func_binding_id: tree_leaves(self@)[k].id,
                    success: outcomes@[k]@.success,
                    failure: outcomes@[k]@.failure,
                    output: outcomes@[k]@.output,
                }),
    {
        let tree = self.duplicate();
        let mut ex = match Executor::new(tree) {
            Ok(e) => e,
            Err(e) => {
                return Err(e);
            },
        };
        ex.execute(outcomes);
        let mut logs: Vec<Option<Vec<OutputStream>>> = Vec::new();
        let mut i: usize = 0;
        while i < outcomes.len()
            invariant
                i <= outcomes@.len(),
                logs@.len() == i,
                forall|j: int|
                    0 <= j < i ==> (#[trigger] logs@[j]) is Some && log_spec(logs@[j]->0@)
                        == outcomes@[j]@.output,
            decreases outcomes@.len() - i,
        {
            logs.push(Some(duplicate_log(&outcomes[i].output)));
            i += 1;
        }
        match ex.postprocess(logs) {
            Ok(vals) => Ok(vals),
            Err(e) => {
                proof {
                    assert(false);
                }
                Err(e)
            },
        }
    }
}

} // verus!
