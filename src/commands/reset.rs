//! Soft reset: moving HEAD back along the parent links.
use vstd::prelude::*;

use crate::objects::commit::Commit;

verus! {

/// What a reset does at one commit of the walk.
pub enum ResetStep {
    /// The walk is done: HEAD becomes this hash.
    Reached(String),
    /// Load this parent, with this many links still to walk.
    Follow(String, u64),
    /// The walk ran out of parents.
    HistoryTooShort,
}

/// One step of `reset`: at the commit `current`, named `current_hash`, with
/// `remaining` parent links still to walk.
pub fn reset_step(remaining: u64, current_hash: &String, current: &Commit) -> (r: ResetStep)
    ensures
        remaining == 0 ==> r == ResetStep::Reached(*current_hash),
        remaining > 0 && current.parent_commit_sha is Some ==> r == ResetStep::Follow(
            current.parent_commit_sha->0,
            (remaining - 1) as u64,
        ),
        remaining > 0 && current.parent_commit_sha is None ==> r == ResetStep::HistoryTooShort,
{
    if remaining == 0 {
        return ResetStep::Reached(current_hash.clone());
    }
    match &current.parent_commit_sha {
        Some(p) => ResetStep::Follow(p.clone(), remaining - 1),
        None => ResetStep::HistoryTooShort,
    }
}

} // verus!
