//! Shared state pieces that are plain data. The state container itself —
//! a process-wide singleton behind locks, with the frontend's loading bars
//! — belongs to the shell around the library.
use vstd::prelude::*;

verus! {

/// What a loading bar reports progress of.
pub enum LoadingBarType {
    LoadGame { game_id: String },
}

} // verus!
