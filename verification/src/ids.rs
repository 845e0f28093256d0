//! Identifier types for the engine's entities.
//!
//! Every identifier is a plain integer wrapper. The value `0` is reserved as
//! the "none" identifier, mirroring the convention that an unset foreign key
//! is stored as a sentinel rather than as an option.

use vstd::prelude::*;

verus! {

/// Identity of a stored function definition.
#[derive(Clone, Copy, PartialEq, Eq, Structural, Debug)]
pub struct FuncId(pub u64);

/// Identity of one invocable binding of a function to arguments.
#[derive(Clone, Copy, PartialEq, Eq, Structural, Debug)]
pub struct FuncBindingId(pub u64);

/// Identity of a component a run is scoped to.
#[derive(Clone, Copy, PartialEq, Eq, Structural, Debug)]
pub struct ComponentId(pub u64);

/// Identity of a schema a run is scoped to.
#[derive(Clone, Copy, PartialEq, Eq, Structural, Debug)]
pub struct SchemaId(pub u64);

/// Identity of a schema variant a run is scoped to.
#[derive(Clone, Copy, PartialEq, Eq, Structural, Debug)]
pub struct SchemaVariantId(pub u64);

/// Identity of a system a run is scoped to.
#[derive(Clone, Copy, PartialEq, Eq, Structural, Debug)]
pub struct SystemId(pub u64);

/// Identity of a stored workflow prototype.
#[derive(Clone, Copy, PartialEq, Eq, Structural, Debug)]
pub struct WorkflowPrototypeId(pub u64);

/// Identity of the resolver that produced a tree for a prototype.
#[derive(Clone, Copy, PartialEq, Eq, Structural, Debug)]
pub struct WorkflowResolverId(pub u64);

/// Identity of a persisted workflow runner record.
#[derive(Clone, Copy, PartialEq, Eq, Structural, Debug)]
pub struct WorkflowRunnerId(pub u64);

/// Primary key of a persisted workflow runner record.
#[derive(Clone, Copy, PartialEq, Eq, Structural, Debug)]
pub struct WorkflowRunnerPk(pub u64);

/// Identity of a persisted terminal runner state record.
#[derive(Clone, Copy, PartialEq, Eq, Structural, Debug)]
pub struct WorkflowRunnerStateId(pub u64);

impl FuncBindingId {
    /// The sentinel "no binding" identifier.
    pub fn none() -> (r: Self)
        ensures
            r.0 == 0,
    {
        FuncBindingId(0)
    }
}

impl ComponentId {
    /// The sentinel "no component" identifier.
    pub fn none() -> (r: Self)
        ensures
            r.0 == 0,
    {
        ComponentId(0)
    }
}

impl From<u64> for ComponentId {
    fn from(n: u64) -> (r: Self) {
        ComponentId(n)
    }
}

impl vstd::std_specs::convert::FromSpecImpl<u64> for ComponentId {
    open spec fn obeys_from_spec() -> bool {
        true
    }

    open spec fn from_spec(n: u64) -> Self {
        ComponentId(n)
    }
}

impl SchemaId {
    /// The sentinel "no schema" identifier.
    pub fn none() -> (r: Self)
        ensures
            r.0 == 0,
    {
        SchemaId(0)
    }
}

impl From<u64> for SchemaId {
    fn from(n: u64) -> (r: Self) {
        SchemaId(n)
    }
}

impl vstd::std_specs::convert::FromSpecImpl<u64> for SchemaId {
    open spec fn obeys_from_spec() -> bool {
        true
    }

    open spec fn from_spec(n: u64) -> Self {
        SchemaId(n)
    }
}

impl SchemaVariantId {
    /// The sentinel "no schema variant" identifier.
    pub fn none() -> (r: Self)
        ensures
            r.0 == 0,
    {
        SchemaVariantId(0)
    }
}

impl From<u64> for SchemaVariantId {
    fn from(n: u64) -> (r: Self) {
        SchemaVariantId(n)
    }
}

impl vstd::std_specs::convert::FromSpecImpl<u64> for SchemaVariantId {
    open spec fn obeys_from_spec() -> bool {
        true
    }

    open spec fn from_spec(n: u64) -> Self {
        SchemaVariantId(n)
    }
}

impl SystemId {
    /// The sentinel "no system" identifier.
    pub fn none() -> (r: Self)
        ensures
            r.0 == 0,
    {
        SystemId(0)
    }

    /// Whether this is a real system identifier rather than the sentinel.
    pub fn is_some(&self) -> (r: bool)
        ensures
            r == (self.0 != 0),
    {
        self.0 != 0
    }
}

impl From<u64> for SystemId {
    fn from(n: u64) -> (r: Self) {
        SystemId(n)
    }
}

impl vstd::std_specs::convert::FromSpecImpl<u64> for SystemId {
    open spec fn obeys_from_spec() -> bool {
        true
    }

    open spec fn from_spec(n: u64) -> Self {
        SystemId(n)
    }
}

} // verus!
