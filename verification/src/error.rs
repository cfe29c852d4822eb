//! Errors.
use crate::entities::NoSuchEntity;
use crate::types::TypeInfo;
use vstd::prelude::*;

verus! {

/// Error indicating that an entity did not have a required component
#[derive(Debug, Clone, Eq, PartialEq, Hash)]
pub struct MissingComponent(pub &'static str);

impl MissingComponent {
    /// The error for a component of this type
    pub fn new(ty: TypeInfo) -> (r: Self)
        ensures
            r == MissingComponent(ty.name),
    {
        MissingComponent(ty.name)
    }

    /// What the message says.
    pub open spec fn spec_message(&self) -> Seq<char> {
        "missing "@ + self.0@ + " component"@
    }

    /// The error in words
    pub fn message(&self) -> (r: String)
        ensures
            r@ == self.spec_message(),
            r@ == "missing "@ + self.0@ + " component"@,
    {
        let mut r = String::from_str("missing ");
        r.append(self.0);
        r.append(" component");
        r
    }
}

/// Errors that arise when accessing components
#[derive(Debug, Clone, Eq, PartialEq, Hash)]
pub enum ComponentError {
    /// The entity was already despawned
    NoSuchEntity,
    /// The entity did not have a requested component
    MissingComponent(MissingComponent),
}

impl ComponentError {
    /// The error in words
    pub fn message(&self) -> (r: String)
        ensures
            r@ == match self {
                ComponentError::NoSuchEntity => "no such entity"@,
                ComponentError::MissingComponent(x) => "missing "@ + x.0@ + " component"@,
            },
    {
        match self {
            ComponentError::NoSuchEntity => String::from_str("no such entity"),
            ComponentError::MissingComponent(x) => x.message(),
        }
    }
}

impl From<NoSuchEntity> for ComponentError {
    fn from(e: NoSuchEntity) -> (r: Self) {
        ComponentError::NoSuchEntity
    }
}

impl vstd::std_specs::convert::FromSpecImpl<NoSuchEntity> for ComponentError {
    open spec fn obeys_from_spec() -> bool {
        true
    }

    open spec fn from_spec(e: NoSuchEntity) -> Self {
        ComponentError::NoSuchEntity
    }
}

impl From<MissingComponent> for ComponentError {
    fn from(x: MissingComponent) -> (r: Self) {
        ComponentError::MissingComponent(x)
    }
}

impl vstd::std_specs::convert::FromSpecImpl<MissingComponent> for ComponentError {
    open spec fn obeys_from_spec() -> bool {
        true
    }

    open spec fn from_spec(x: MissingComponent) -> Self {
        ComponentError::MissingComponent(x)
    }
}

/// Errors that arise when querying a single entity
#[derive(Debug, Clone, Eq, PartialEq, Hash)]
pub enum QueryOneError {
    /// The entity was already despawned
    NoSuchEntity,
    /// The entity exists but does not satisfy the query
    Unsatisfied,
}

impl QueryOneError {
    /// The error in words
    pub fn message(&self) -> (r: String)
        ensures
            r@ == match self {
                QueryOneError::NoSuchEntity => "no such entity"@,
                QueryOneError::Unsatisfied => "unsatisfied"@,
            },
    {
        match self {
            QueryOneError::NoSuchEntity => String::from_str("no such entity"),
            QueryOneError::Unsatisfied => String::from_str("unsatisfied"),
        }
    }
}

impl From<NoSuchEntity> for QueryOneError {
    fn from(e: NoSuchEntity) -> (r: Self) {
        QueryOneError::NoSuchEntity
    }
}

impl vstd::std_specs::convert::FromSpecImpl<NoSuchEntity> for QueryOneError {
    open spec fn obeys_from_spec() -> bool {
        true
    }

    open spec fn from_spec(e: NoSuchEntity) -> Self {
        QueryOneError::NoSuchEntity
    }
}

} // verus!
