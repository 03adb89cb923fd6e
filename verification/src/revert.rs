use vstd::prelude::*;

use crate::log::{Operation, OperationLog};

verus! {

// The reverter replays the log newest-first. For each recorded move it
// decides, from what the caller found on disk, whether the inverse move
// may be performed or why it must be skipped; the caller performs it.

/// What to do about one recorded operation during a revert pass.
#[derive(PartialEq, Eq, Structural, Clone, Copy, Debug)]
pub enum RevertAction {
    /// Dry run: report the planned reversal, touch nothing.
    Report,
    /// Perform the inverse move `to -> from`.
    Perform,
    /// `to` no longer exists: nothing to undo, skip with a warning.
    SkipMissingTo,
    /// `from` exists again: undoing would overwrite it, skip with a warning.
    SkipFromExists,
    /// `from`'s parent directory is gone: skip with a warning.
    SkipNoParent,
}

/// The decision for one operation, given what the caller found on disk.
/// Each safety check fails independently, and a dry run reports without
/// checking anything, as a run that mutates nothing may.
pub open spec fn revert_decision(
    dry_run: bool,
    to_exists: bool,
    from_exists: bool,
    parent_exists: bool,
) -> RevertAction {
    if dry_run {
        RevertAction::Report
    } else if !to_exists {
        RevertAction::SkipMissingTo
    } else if from_exists {
        RevertAction::SkipFromExists
    } else if !parent_exists {
        RevertAction::SkipNoParent
    } else {
        RevertAction::Perform
    }
}

/// Decides one operation of a revert pass. The inverse move is performed
/// exactly when `to` still exists, `from` does not, and `from`'s parent
/// directory is present; a dry run only reports.
pub fn revert_action(dry_run: bool, to_exists: bool, from_exists: bool, parent_exists: bool) -> (a:
    RevertAction)
    ensures
        a == revert_decision(dry_run, to_exists, from_exists, parent_exists),
        dry_run ==> a == RevertAction::Report,
        a == RevertAction::Perform ==> !dry_run && to_exists && !from_exists && parent_exists,
{
    if dry_run {
        RevertAction::Report
    } else if !to_exists {
        RevertAction::SkipMissingTo
    } else if from_exists {
        RevertAction::SkipFromExists
    } else if !parent_exists {
        RevertAction::SkipNoParent
    } else {
        RevertAction::Perform
    }
}

/// The order of a revert pass: the logged operations newest first, each
/// kept exactly as recorded. The last move recorded is the first one
/// undone.
pub fn plan_revert(log: &OperationLog) -> (r: Vec<Operation>)
    ensures
        r@.len() == log@.len(),
        forall|i: int| 0 <= i < r@.len() ==> r@[i]@ == log@[log@.len() - 1 - i],
{
    let n = log.operations.len();
    let mut r: Vec<Operation> = Vec::new();
    let mut k: usize = n;
    while k > 0
        invariant
            n == log@.len(),
            n == log.operations@.len(),
            k <= n,
            r@.len() == n - k,
            forall|i: int| 0 <= i < r@.len() ==> r@[i]@ == log@[n - 1 - i],
        decreases k,
    {
        let op = &log.operations[k - 1];
        r.push(
            Operation {
                from: op.from.clone(),
                to: op.to.clone(),
                timestamp: op.timestamp.clone(),
            },
        );
        proof {
            assert(log@[k - 1] == log.operations@[k - 1]@);
            assert(r@.last()@ =~= log@[k - 1]);
        }
        k -= 1;
    }
    r
}

/// After a revert pass the persisted log is replaced with an empty one
/// exactly when something was actually reverted; a dry run, or a pass
/// that reverted nothing, leaves it alone.
pub fn should_clear_log(dry_run: bool, reverted_count: usize) -> (b: bool)
    ensures
        b == (!dry_run && reverted_count > 0),
{
    !dry_run && reverted_count > 0
}

} // verus!
