//! The top-level run orchestrator.
//!
//! A runner turns one stored prototype into a durable record of one
//! execution: it looks the prototype up, classifies what the tree run
//! produced — success, a modeled function failure, or a fatal error — and
//! assembles the runner record together with its terminal state. Only a
//! modeled function failure is absorbed into a `Failure` state; every other
//! error propagates and nothing is recorded. Of the event interface, only
//! command-output publishing is modeled; the change-set notification the
//! record creation used to emit belongs to the persistence collaborator.

use vstd::prelude::*;
use vstd::seq_lib::lemma_multiset_commutative;

use crate::exec::{opt_text, FuncBindingReturnValue, OutputStream};
use crate::ids::{
    FuncBindingId, FuncId, WorkflowPrototypeId, WorkflowResolverId, WorkflowRunnerId,
    WorkflowRunnerPk, WorkflowRunnerStateId, ComponentId, SchemaId, SchemaVariantId, SystemId,
};
use crate::workflow::WorkflowError;

verus! {

broadcast use vstd::seq_lib::group_to_multiset_ensures;

/// An error raised while running a prototype.
#[derive(Debug)]
pub enum WorkflowRunnerError {
    /// No prototype is stored under the requested identifier.
    PrototypeNotFound(WorkflowPrototypeId),
    /// A function the runner itself needs has no stored definition.
    MissingWorkflow(String),
    /// The tree run failed with something other than a modeled function
    /// failure; the error propagates and no run record is written.
    Workflow(WorkflowError),
}

/// The scoping of one run: which component, schema, schema variant, and
/// system it applies to, each possibly the sentinel "none".
#[derive(Clone, Copy, PartialEq, Eq, Structural, Debug)]
pub struct WorkflowRunnerContext {
    /// The component the run applies to, or the sentinel "none".
    pub component_id: ComponentId,
    /// The schema the run applies to, or the sentinel "none".
    pub schema_id: SchemaId,
    /// The schema variant the run applies to, or the sentinel "none".
    pub schema_variant_id: SchemaVariantId,
    /// The system the run applies to, or the sentinel "none".
    pub system_id: SystemId,
}

impl Default for WorkflowRunnerContext {
    fn default() -> (r: Self)
        ensures
            r == Self::empty_context(),
    {
        Self::new()
    }
}

impl WorkflowRunnerContext {
    /// The context with every identifier unset.
    pub open spec fn empty_context() -> Self {
        WorkflowRunnerContext {
            component_id: ComponentId(0),
            schema_id: SchemaId(0),
            schema_variant_id: SchemaVariantId(0),
            system_id: SystemId(0),
        }
    }

    /// A context with every identifier unset.
    pub fn new() -> (r: Self)
        ensures
            r == Self::empty_context(),
    {
        WorkflowRunnerContext {
            component_id: ComponentId::none(),
            schema_id: SchemaId::none(),
            schema_variant_id: SchemaVariantId::none(),
            system_id: SystemId::none(),
        }
    }

    /// The component this run is scoped to.
    pub fn component_id(&self) -> (r: ComponentId)
        ensures
            r == self.component_id,
    {
        self.component_id
    }

    /// Scopes this run to a component.
    pub fn set_component_id(&mut self, component_id: ComponentId)
        ensures
            *final(self) == (WorkflowRunnerContext { component_id, ..*old(self) }),
    {
        self.component_id = component_id;
    }

    /// The schema this run is scoped to.
    pub fn schema_id(&self) -> (r: SchemaId)
        ensures
            r == self.schema_id,
    {
        self.schema_id
    }

    /// Scopes this run to a schema.
    pub fn set_schema_id(&mut self, schema_id: SchemaId)
        ensures
            *final(self) == (WorkflowRunnerContext { schema_id, ..*old(self) }),
    {
        self.schema_id = schema_id;
    }

    /// The schema variant this run is scoped to.
    pub fn schema_variant_id(&self) -> (r: SchemaVariantId)
        ensures
            r == self.schema_variant_id,
    {
        self.schema_variant_id
    }

    /// Scopes this run to a schema variant.
    pub fn set_schema_variant_id(&mut self, schema_variant_id: SchemaVariantId)
        ensures
            *final(self) == (WorkflowRunnerContext { schema_variant_id, ..*old(self) }),
    {
        self.schema_variant_id = schema_variant_id;
    }

    /// The system this run is scoped to.
    pub fn system_id(&self) -> (r: SystemId)
        ensures
            r == self.system_id,
    {
        self.system_id
    }

    /// Scopes this run to a system.
    pub fn set_system_id(&mut self, system_id: SystemId)
        ensures
            *final(self) == (WorkflowRunnerContext { system_id, ..*old(self) }),
    {
        self.system_id = system_id;
    }
}

/// A stored, reusable workflow prototype: the workflow it resolves and the
/// context its runs are scoped to.
#[derive(Debug)]
pub struct WorkflowPrototype {
    /// The prototype's identity.
    pub id: WorkflowPrototypeId,
    /// The name of the workflow the prototype resolves.
    pub workflow_name: String,
    /// The context runs of this prototype are scoped to.
    pub context: WorkflowRunnerContext,
}

/// Mathematical value of a [`WorkflowPrototype`].
pub ghost struct PrototypeSpec {
    pub id: WorkflowPrototypeId,
    pub workflow_name: Seq<char>,
    pub context: WorkflowRunnerContext,
}

impl View for WorkflowPrototype {
    type V = PrototypeSpec;

    open spec fn view(&self) -> PrototypeSpec {
        PrototypeSpec {
            id: self.id,
            workflow_name: self.workflow_name@,
            context: self.context,
        }
    }
}

/// The first stored prototype under an identifier, if any.
pub open spec fn find_prototype(ps: Seq<PrototypeSpec>, id: WorkflowPrototypeId) -> Option<
    PrototypeSpec,
>
    decreases ps,
{
    if ps.len() == 0 {
        None
    } else if ps[0].id == id {
        Some(ps[0])
    } else {
        find_prototype(ps.drop_first(), id)
    }
}

/// Whether a prototype is stored under an identifier.
pub open spec fn has_prototype(ps: Seq<PrototypeSpec>, id: WorkflowPrototypeId) -> bool {
    find_prototype(ps, id) is Some
}

/// A scan that saw no match in a prefix finds whatever the rest finds.
proof fn lemma_find_prototype_skip(ps: Seq<PrototypeSpec>, id: WorkflowPrototypeId, i: int)
    requires
        0 <= i <= ps.len(),
        forall|j: int| 0 <= j < i ==> (#[trigger] ps[j]).id != id,
    ensures
        find_prototype(ps, id) == find_prototype(ps.skip(i), id),
    decreases i,
{
    if i > 0 {
        assert(ps[0].id != id);
        assert forall|j: int| 0 <= j < i - 1 implies (#[trigger] ps.drop_first()[j]).id != id by {
            assert(ps.drop_first()[j] == ps[j + 1]);
        }
        lemma_find_prototype_skip(ps.drop_first(), id, i - 1);
        assert(ps.drop_first().skip(i - 1) =~= ps.skip(i));
    } else {
        assert(ps.skip(0) =~= ps);
    }
}

impl WorkflowPrototype {
    /// Looks up the prototype stored under an identifier.
    pub fn get_by_id(prototypes: &Vec<WorkflowPrototype>, id: WorkflowPrototypeId) -> (r: Option<
        &WorkflowPrototype,
    >)
        ensures
            (match r {
                Some(p) => find_prototype(prototypes@.map_values(|p: WorkflowPrototype| p@), id)
                    == Some(p@),
                None => !has_prototype(prototypes@.map_values(|p: WorkflowPrototype| p@), id),
            }),
    {
        let ghost ps = prototypes@.map_values(|p: WorkflowPrototype| p@);
        let mut i: usize = 0;
        while i < prototypes.len()
            invariant
                i <= prototypes@.len(),
                ps == prototypes@.map_values(|p: WorkflowPrototype| p@),
                ps.len() == prototypes@.len(),
                forall|j: int| 0 <= j < ps.len() ==> #[trigger] ps[j] == prototypes@[j]@,
                forall|j: int| 0 <= j < i ==> (#[trigger] ps[j]).id != id,
            decreases prototypes@.len() - i,
        {
            if prototypes[i].id == id {
                proof {
                    lemma_find_prototype_skip(ps, id, i as int);
                    assert(ps.skip(i as int)[0] == ps[i as int]);
                }
                return Some(&prototypes[i]);
            }
            i += 1;
        }
        proof {
            lemma_find_prototype_skip(ps, id, ps.len() as int);
            assert(ps.skip(ps.len() as int) =~= Seq::<PrototypeSpec>::empty());
        }
        None
    }
}

/// Terminal status of one run.
#[derive(Clone, Copy, PartialEq, Eq, Structural, Debug)]
pub enum WorkflowRunnerStatus {
    /// Every leaf ran and reported; results were returned.
    Success,
    /// A command's backend reported a modeled failure; its detail was
    /// captured and no results were returned.
    Failure,
}

/// The durable record of one execution of a prototype, created only after
/// the tree has finished running.
#[derive(Clone, Copy, PartialEq, Eq, Structural, Debug)]
pub struct WorkflowRunner {
    /// Primary key assigned by the persistence collaborator.
    pub pk: WorkflowRunnerPk,
    /// Identity assigned by the persistence collaborator.
    pub id: WorkflowRunnerId,
    /// The prototype that was run.
    pub workflow_prototype_id: WorkflowPrototypeId,
    /// The resolver that produced the tree.
    pub workflow_resolver_id: WorkflowResolverId,
    /// The function associated with the run's aggregation step.
    pub func_id: FuncId,
    /// The binding associated with the run's aggregation step; the sentinel
    /// "none" on failure.
    pub func_binding_id: FuncBindingId,
    /// The scoping of the run, copied from the prototype.
    pub context: WorkflowRunnerContext,
}

/// The terminal state written alongside a runner record; never updated
/// afterward.
#[derive(Debug)]
pub struct WorkflowRunnerState {
    /// The state record's identity.
    pub id: WorkflowRunnerStateId,
    /// The runner this state belongs to.
    pub workflow_runner_id: WorkflowRunnerId,
    /// Whether the run succeeded or absorbed a modeled failure.
    pub status: WorkflowRunnerStatus,
    /// The backend execution that failed, if any.
    pub execution_id: Option<String>,
    /// The machine-readable failure kind, if any.
    pub error_kind: Option<String>,
    /// The human-readable failure message, if any.
    pub error_message: Option<String>,
}

impl WorkflowRunnerState {
    /// Assembles a terminal state record.
    pub fn new(
        id: WorkflowRunnerStateId,
        workflow_runner_id: WorkflowRunnerId,
        status: WorkflowRunnerStatus,
        execution_id: Option<String>,
        error_kind: Option<String>,
        error_message: Option<String>,
    ) -> (r: Self)
        ensures
            r.id == id,
            r.workflow_runner_id == workflow_runner_id,
            r.status == status,
            r.execution_id == execution_id,
            r.error_kind == error_kind,
            r.error_message == error_message,
    {
        WorkflowRunnerState { id, workflow_runner_id, status, execution_id, error_kind, error_message }
    }
}

impl WorkflowRunner {
    /// Assembles a runner record from the identifiers the persistence
    /// collaborator assigned and the run's own fields.
    pub fn new(
        pk: WorkflowRunnerPk,
        id: WorkflowRunnerId,
        workflow_prototype_id: WorkflowPrototypeId,
        workflow_resolver_id: WorkflowResolverId,
        func_id: FuncId,
        func_binding_id: FuncBindingId,
        context: WorkflowRunnerContext,
    ) -> (r: Self)
        ensures
            r == (WorkflowRunner {
                pk,
                id,
                workflow_prototype_id,
                workflow_resolver_id,
                func_id,
                func_binding_id,
                context,
            }),
    {
        WorkflowRunner {
            pk,
            id,
            workflow_prototype_id,
            workflow_resolver_id,
            func_id,
            func_binding_id,
            context,
        }
    }

    /// Classifies a finished tree run and assembles the runner record and
    /// its terminal state.
    ///
    /// A successful run yields a `Success` state with the identity
    /// aggregation's function and binding, and the ordered results. A run
    /// that failed with a modeled function failure yields a `Failure` state
    /// carrying the failure's execution id, kind, and message, and no
    /// results. Any other error propagates unchanged: no record is
    /// assembled. `identity` carries the function and binding of the
    /// aggregation step, or `None` if that function is not stored.
    pub fn run(
        prototypes: &Vec<WorkflowPrototype>,
        prototype_id: WorkflowPrototypeId,
        workflow_resolver_id: WorkflowResolverId,
        outcome: Result<Vec<FuncBindingReturnValue>, WorkflowError>,
        identity: Option<(FuncId, FuncBindingId)>,
        pk: WorkflowRunnerPk,
        id: WorkflowRunnerId,
        state_id: WorkflowRunnerStateId,
    ) -> (r: Result<(WorkflowRunner, WorkflowRunnerState, Vec<FuncBindingReturnValue>),
        WorkflowRunnerError,
    >)
        ensures
            !has_prototype(prototypes@.map_values(|p: WorkflowPrototype| p@), prototype_id) <==> (r
                matches Err(WorkflowRunnerError::PrototypeNotFound(p)) && p == prototype_id),
            r matches Err(WorkflowRunnerError::PrototypeNotFound(p)) ==> p == prototype_id,
            r matches Err(WorkflowRunnerError::Workflow(e)) ==> (outcome matches Err(e2) && e == e2
                && !(e2 is CommandFailure)),
            (has_prototype(prototypes@.map_values(|p: WorkflowPrototype| p@), prototype_id) && (
            outcome matches Err(e) && !(e is CommandFailure))) ==> r matches Err(
                WorkflowRunnerError::Workflow(_),
            ),
            r matches Err(WorkflowRunnerError::MissingWorkflow(n)) ==> n@ == "si:identity"@
                && identity is None,
            r matches Ok((runner, state, values)) ==> {
                &&& identity matches Some((f, b))
                &&& find_prototype(
                    prototypes@.map_values(|p: WorkflowPrototype| p@),
                    prototype_id,
                ) matches Some(proto)
                &&& runner == (WorkflowRunner {
                    pk,
                    id,
                    workflow_prototype_id: prototype_id,
                    workflow_resolver_id,
                    func_id: f,
                    func_binding_id: (match outcome {
                        Ok(_) => b,
                        Err(_) => FuncBindingId(0),
                    }),
                    context: proto.context,
                })
                &&& state.id == state_id
                &&& state.workflow_runner_id == id
                &&& (match outcome {
                    Ok(vals) => {
                        &&& state.status == WorkflowRunnerStatus::Success
                        &&& state.execution_id is None
                        &&& state.error_kind is None
                        &&& state.error_message is None
                        &&& values == vals
                    },
                    Err(e) => {
                        &&& e matches WorkflowError::CommandFailure(fail)
                        &&& state.status == WorkflowRunnerStatus::Failure
                        &&& opt_text(state.execution_id) == Some(fail.execution_id@)
                        &&& opt_text(state.error_kind) == Some(fail.error_kind@)
                        &&& opt_text(state.error_message) == Some(fail.error_message@)
                        &&& values@.len() == 0
                    },
                })
            },
    {
        let prototype = match WorkflowPrototype::get_by_id(prototypes, prototype_id) {
            Some(p) => p,
            None => {
                return Err(WorkflowRunnerError::PrototypeNotFound(prototype_id));
            },
        };
        match outcome {
            Ok(vals) => {
                let (f, b) = match identity {
                    Some(ids) => ids,
                    None => {
                        return Err(WorkflowRunnerError::MissingWorkflow("si:identity".to_owned()));
                    },
                };
                let runner = WorkflowRunner::new(
                    pk,
                    id,
                    prototype_id,
                    workflow_resolver_id,
                    f,
                    b,
                    prototype.context,
                );
                let state = WorkflowRunnerState::new(
                    state_id,
                    id,
                    WorkflowRunnerStatus::Success,
                    None,
                    None,
                    None,
                );
                return Ok((runner, state, vals));
            },
            Err(e) => {
                match e {
                    WorkflowError::CommandFailure(fail) => {
                        let (f, _b) = match identity {
                            Some(ids) => ids,
                            None => {
                                return Err(
                                    WorkflowRunnerError::MissingWorkflow(
                                        "si:identity".to_owned(),
                                    ),
                                );
                            },
                        };
                        let runner = WorkflowRunner::new(
                            pk,
                            id,
                            prototype_id,
                            workflow_resolver_id,
                            f,
                            FuncBindingId::none(),
                            prototype.context,
                        );
                        let state = WorkflowRunnerState::new(
                            state_id,
                            id,
                            WorkflowRunnerStatus::Failure,
                            Some(fail.execution_id),
                            Some(fail.error_kind),
                            Some(fail.error_message),
                        );
                        return Ok((runner, state, Vec::new()));
                    },
                    _ => {
                        return Err(WorkflowRunnerError::Workflow(e));
                    },
                }
            },
        }
    }

    /// The stored runner records for one prototype in one context, in stored
    /// order.
    pub fn find_for_prototype(
        runners: &Vec<WorkflowRunner>,
        workflow_prototype_id: WorkflowPrototypeId,
        context: WorkflowRunnerContext,
    ) -> (r: Vec<WorkflowRunner>)
        ensures
            r@ == runners@.filter(
                |x: WorkflowRunner|
                    x.workflow_prototype_id == workflow_prototype_id && x.context == context,
            ),
    {
        let ghost pred = |x: WorkflowRunner|
            x.workflow_prototype_id == workflow_prototype_id && x.context == context;
        let mut r: Vec<WorkflowRunner> = Vec::new();
        let mut i: usize = 0;
        proof {
            reveal(Seq::filter);
            assert(runners@.take(0) =~= Seq::<WorkflowRunner>::empty());
        }
        while i < runners.len()
            invariant
                i <= runners@.len(),
                r@ == runners@.take(i as int).filter(pred),
                pred == (|x: WorkflowRunner|
                    x.workflow_prototype_id == workflow_prototype_id && x.context == context),
            decreases runners@.len() - i,
        {
            let keep = runners[i].workflow_prototype_id == workflow_prototype_id
                && runners[i].context == context;
            if keep {
                r.push(runners[i]);
            }
            proof {
                reveal(Seq::filter);
                assert(runners@.take(i + 1).drop_last() =~= runners@.take(i as int));
                assert(runners@.take(i + 1).last() == runners@[i as int]);
            }
            i += 1;
        }
        proof {
            assert(runners@.take(runners@.len() as int) =~= runners@);
        }
        r
    }
}

/// Whether a log is ordered by timestamp, earliest first.
pub open spec fn sorted_by_timestamp(s: Seq<OutputStream>) -> bool {
    forall|i: int, j: int| 0 <= i <= j < s.len() ==> (#[trigger] s[i])@.timestamp <= (
    #[trigger] s[j])@.timestamp
}

/// Sorts a log by timestamp, earliest first, keeping exactly the given
/// entries.
fn sort_logs(logs: Vec<OutputStream>) -> (r: Vec<OutputStream>)
    ensures
        sorted_by_timestamp(r@),
        r@.to_multiset() == logs@.to_multiset(),
{
    let mut r: Vec<OutputStream> = Vec::new();
    let mut i: usize = 0;
    proof {
        assert(logs@.take(0) =~= Seq::<OutputStream>::empty());
        assert(r@.to_multiset() =~= logs@.take(0).to_multiset());
    }
    while i < logs.len()
        invariant
            i <= logs@.len(),
            sorted_by_timestamp(r@),
            r@.to_multiset() == logs@.take(i as int).to_multiset(),
        decreases logs@.len() - i,
    {
        let x = OutputStream { timestamp: logs[i].timestamp, message: logs[i].message.clone() };
        proof {
            assert(x == logs@[i as int]);
        }
        let mut pos: usize = 0;
        while pos < r.len() && r[pos].timestamp <= x.timestamp
            invariant
                pos <= r@.len(),
                x == logs@[i as int],
                sorted_by_timestamp(r@),
                forall|k: int| 0 <= k < pos ==> (#[trigger] r@[k])@.timestamp <= x@.timestamp,
            decreases r@.len() - pos,
        {
            pos += 1;
        }
        let ghost r_pre = r@;
        r.insert(pos, x);
        proof {
            assert(r@ == r_pre.insert(pos as int, x));
            assert(r@ =~= r_pre.take(pos as int).push(x) + r_pre.skip(pos as int));
            lemma_multiset_commutative(r_pre.take(pos as int).push(x), r_pre.skip(pos as int));
            lemma_multiset_commutative(r_pre.take(pos as int), r_pre.skip(pos as int));
            assert(r_pre.take(pos as int) + r_pre.skip(pos as int) =~= r_pre);
            assert(r@.to_multiset() =~= r_pre.to_multiset().insert(x));
            assert(logs@.take(i + 1).drop_last() =~= logs@.take(i as int));
            assert(logs@.take(i + 1) =~= logs@.take(i as int).push(logs@[i as int]));
            assert(logs@.take(i + 1).to_multiset() =~= logs@.take(
                i as int,
            ).to_multiset().insert(logs@[i as int]));
            assert forall|a: int, b: int| 0 <= a <= b < r@.len() implies (#[trigger] r@[a])@
                .timestamp <= (#[trigger] r@[b])@.timestamp by {
                if pos < r_pre.len() {
                    assert(!(r_pre[pos as int]@.timestamp <= x@.timestamp));
                }
            }
        }
        i += 1;
    }
    proof {
        assert(logs@.take(logs@.len() as int) =~= logs@);
    }
    r
}

/// The concatenation of every result's output log, in result order.
pub open spec fn all_logs(vs: Seq<FuncBindingReturnValue>) -> Seq<OutputStream>
    decreases vs,
{
    if vs.len() == 0 {
        Seq::empty()
    } else {
        vs[0].output@ + all_logs(vs.drop_first())
    }
}

/// The logs of concatenated result lists are the concatenated logs.
proof fn lemma_all_logs_concat(a: Seq<FuncBindingReturnValue>, b: Seq<FuncBindingReturnValue>)
    ensures
        all_logs(a + b) == all_logs(a) + all_logs(b),
    decreases a,
{
    if a.len() == 0 {
        assert(a + b =~= b);
        assert(all_logs(a) + all_logs(b) =~= all_logs(b));
    } else {
        lemma_all_logs_concat(a.drop_first(), b);
        assert((a + b).drop_first() =~= a.drop_first() + b);
        assert(all_logs(a + b) =~= all_logs(a) + all_logs(b));
    }
}

/// Processes a successful run: collects every leaf's output log into one
/// audit log ordered by original timestamps, and reports the aggregation
/// step's function and binding. `identity` carries that function and
/// binding, or `None` if the aggregation function is not stored — the one
/// failure of this step.
pub fn process_successful_workflow_run(
    values: &Vec<FuncBindingReturnValue>,
    identity: Option<(FuncId, FuncBindingId)>,
) -> (r: Result<((FuncId, FuncBindingId), Vec<OutputStream>), WorkflowRunnerError>)
    ensures
        r is Err <==> identity is None,
        r matches Err(e) ==> e matches WorkflowRunnerError::MissingWorkflow(n) && n@
            == "si:identity"@,
        r matches Ok((ids, logs)) ==> {
            &&& Some(ids) == identity
            &&& sorted_by_timestamp(logs@)
            &&& logs@.to_multiset() == all_logs(values@).to_multiset()
        },
{
    let ids = match identity {
        Some(ids) => ids,
        None => {
            return Err(WorkflowRunnerError::MissingWorkflow("si:identity".to_owned()));
        },
    };
    let mut collected: Vec<OutputStream> = Vec::new();
    let mut i: usize = 0;
    proof {
        assert(values@.take(0) =~= Seq::<FuncBindingReturnValue>::empty());
        assert(collected@ =~= all_logs(values@.take(0)));
    }
    while i < values.len()
        invariant
            i <= values@.len(),
            collected@ == all_logs(values@.take(i as int)),
        decreases values@.len() - i,
    {
        let ghost col_pre = collected@;
        let mut j: usize = 0;
        let entry = &values[i];
        while j < entry.output.len()
            invariant
                j <= entry.output@.len(),
                collected@ == col_pre + entry.output@.take(j as int),
            decreases entry.output@.len() - j,
        {
            collected.push(
                OutputStream {
                    timestamp: entry.output[j].timestamp,
                    message: entry.output[j].message.clone(),
                },
            );
            proof {
                assert(collected@ =~= col_pre + entry.output@.take(j + 1));
            }
            j += 1;
        }
        proof {
            assert(entry.output@.take(entry.output@.len() as int) =~= entry.output@);
            assert(values@.take(i + 1) =~= values@.take(i as int) + seq![values@[i as int]]);
            lemma_all_logs_concat(values@.take(i as int), seq![values@[i as int]]);
            assert(seq![values@[i as int]].drop_first() =~= Seq::<FuncBindingReturnValue>::empty());
            assert(all_logs(seq![values@[i as int]]) == values@[i as int].output@ + all_logs(
                Seq::<FuncBindingReturnValue>::empty(),
            ));
            assert(values@[i as int].output@ + Seq::<OutputStream>::empty() =~= values@[
                i as int
            ].output@);
            assert(collected@ =~= all_logs(values@.take(i + 1)));
        }
        i += 1;
    }
    proof {
        assert(values@.take(values@.len() as int) =~= values@);
    }
    let sorted = sort_logs(collected);
    Ok((ids, sorted))
}

} // verus!
