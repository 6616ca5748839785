//! The parts of an instance's description that are plain data.
use vstd::prelude::*;

verus! {

/// The names an instance can be shown under.
pub struct DisplayNames {
    pub custom: String,
}

} // verus!
