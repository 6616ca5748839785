//! The declarative form of the frontend pieces an extension can
//! contribute: elements, and values that are either fixed or linked to an
//! instance's stored metadata.
use vstd::prelude::*;

use crate::kv::lookup_assoc;
use crate::storage::PLUTO;

verus! {

/// What a path selector picks.
pub enum PathSelectKind {
    File,
    Directory,
}

/// Where a linked value lives.
#[derive(Clone)]
pub enum ValueLink {
    InstanceGameMeta(String),
}

/// A value shown on the frontend: fixed, or read from a link.
#[derive(Clone)]
pub enum Value<T: Clone> {
    Static(T),
    Link(ValueLink),
}

/// One element of a container.
pub enum Element {
    Text(Value<String>),
    PathSelect { kind: PathSelectKind, value: Value<String> },
}

impl Value<String> {
    /// Resolves the value: a fixed value is handed back as it stands, a
    /// linked one is read from the given metadata table under its key.
    pub fn read(&self, meta: Option<&PLUTO>) -> (r: Option<String>)
        ensures
            match self {
                Value::Static(v) => r is Some && r.unwrap()@ == v@,
                Value::Link(link) => match link {
                    ValueLink::InstanceGameMeta(key) => match meta {
                        Some(m) => match r {
                            Some(out) => lookup_assoc(m.entries(), key@) == Some(out@),
                            None => lookup_assoc(m.entries(), key@) is None,
                        },
                        None => r is None,
                    },
                },
            },
    {
        match self {
            Value::Static(v) => Some(v.clone()),
            Value::Link(ValueLink::InstanceGameMeta(key)) => match meta {
                Some(m) => m.get(key),
                None => None,
            },
        }
    }
}

impl<T: Clone> From<T> for Value<T> {
    /// Wraps a plain value.
    fn from(value: T) -> (r: Self) {
        Value::Static(value)
    }
}

impl<T: Clone> vstd::std_specs::convert::FromSpecImpl<T> for Value<T> {
    open spec fn obeys_from_spec() -> bool {
        true
    }

    open spec fn from_spec(v: T) -> Self {
        Value::Static(v)
    }
}

} // verus!
