//! The patch state machine: which driver primitives realise each legal
//! transition.
//!
//! The transition table is data, not control flow: a map from a
//! `(from, to)` pair of states to the ordered list of primitives that
//! realises it.  A pair outside the table is not a legal transition.
use vstd::prelude::*;

use crate::status::PatchStatus;

verus! {

/// A driver primitive, the unit the state machine composes.
#[derive(Clone, Copy, Debug, PartialEq, Eq, Structural)]
pub enum Action {
    /// Check the patch, then load it (kernel: insert module; user: register
    /// the target).  Leaves the patch `Deactived`.
    Apply,
    /// Unload the patch.  Leaves the patch `NotApplied`.
    Remove,
    /// Start redirecting execution.  Leaves the patch `Actived`.
    Active,
    /// Stop redirecting execution.  Leaves the patch `Deactived`.
    Deactive,
    /// Freeze the patch against automatic rollback.  Leaves it `Accepted`.
    Accept,
    /// Unfreeze an accepted patch.  Leaves it `Actived`.
    Decline,
}

/// The transition table of the patch lifecycle.
///
/// `None` means the `(from, to)` pair is not a legal transition; a request
/// for it is a no-op.
pub open spec fn spec_transition_actions(from: PatchStatus, to: PatchStatus) -> Option<
    Seq<Action>,
> {
    match (from, to) {
        (PatchStatus::NotApplied, PatchStatus::Deactived) => Some(seq![Action::Apply]),
        (PatchStatus::NotApplied, PatchStatus::Actived) => Some(
            seq![Action::Apply, Action::Active],
        ),
        (PatchStatus::NotApplied, PatchStatus::Accepted) => Some(
            seq![Action::Apply, Action::Active, Action::Accept],
        ),
        (PatchStatus::Deactived, PatchStatus::NotApplied) => Some(seq![Action::Remove]),
        (PatchStatus::Deactived, PatchStatus::Actived) => Some(seq![Action::Active]),
        (PatchStatus::Deactived, PatchStatus::Accepted) => Some(
            seq![Action::Active, Action::Accept],
        ),
        (PatchStatus::Actived, PatchStatus::NotApplied) => Some(
            seq![Action::Deactive, Action::Remove],
        ),
        (PatchStatus::Actived, PatchStatus::Deactived) => Some(seq![Action::Deactive]),
        (PatchStatus::Actived, PatchStatus::Accepted) => Some(seq![Action::Accept]),
        (PatchStatus::Accepted, PatchStatus::NotApplied) => Some(
            seq![Action::Decline, Action::Deactive, Action::Remove],
        ),
        (PatchStatus::Accepted, PatchStatus::Deactived) => Some(
            seq![Action::Decline, Action::Deactive],
        ),
        (PatchStatus::Accepted, PatchStatus::Actived) => Some(seq![Action::Decline]),
        _ => None,
    }
}

/// Executable lookup of the transition table.
pub fn transition_actions(from: PatchStatus, to: PatchStatus) -> (r: Option<Vec<Action>>)
    ensures
        match r {
            Some(actions) => spec_transition_actions(from, to) == Some(actions@),
            None => spec_transition_actions(from, to) is None,
        },
{
    let r: Option<Vec<Action>> = match (from, to) {
        (PatchStatus::NotApplied, PatchStatus::Deactived) => Some(vec![Action::Apply]),
        (PatchStatus::NotApplied, PatchStatus::Actived) => Some(
            vec![Action::Apply, Action::Active],
        ),
        (PatchStatus::NotApplied, PatchStatus::Accepted) => Some(
            vec![Action::Apply, Action::Active, Action::Accept],
        ),
        (PatchStatus::Deactived, PatchStatus::NotApplied) => Some(vec![Action::Remove]),
        (PatchStatus::Deactived, PatchStatus::Actived) => Some(vec![Action::Active]),
        (PatchStatus::Deactived, PatchStatus::Accepted) => Some(
            vec![Action::Active, Action::Accept],
        ),
        (PatchStatus::Actived, PatchStatus::NotApplied) => Some(
            vec![Action::Deactive, Action::Remove],
        ),
        (PatchStatus::Actived, PatchStatus::Deactived) => Some(vec![Action::Deactive]),
        (PatchStatus::Actived, PatchStatus::Accepted) => Some(vec![Action::Accept]),
        (PatchStatus::Accepted, PatchStatus::NotApplied) => Some(
            vec![Action::Decline, Action::Deactive, Action::Remove],
        ),
        (PatchStatus::Accepted, PatchStatus::Deactived) => Some(
            vec![Action::Decline, Action::Deactive],
        ),
        (PatchStatus::Accepted, PatchStatus::Actived) => Some(vec![Action::Decline]),
        _ => None,
    };
    proof {
        if r is Some {
            let actions = r.unwrap();
            assert(spec_transition_actions(from, to) == Some(actions@)) by {
                assert(actions@ =~= spec_transition_actions(from, to).unwrap());
            }
        }
    }
    r
}

/// Every list in the table ends in the primitive that establishes the
/// requested target state.
pub proof fn lemma_table_last_action(from: PatchStatus, to: PatchStatus)
    requires
        spec_transition_actions(from, to) is Some,
    ensures
        spec_transition_actions(from, to).unwrap().len() > 0,
        spec_transition_actions(from, to).unwrap().last() == (match to {
            PatchStatus::NotApplied => Action::Remove,
            PatchStatus::Deactived => if from == PatchStatus::NotApplied {
                Action::Apply
            } else {
                Action::Deactive
            },
            PatchStatus::Actived => if from == PatchStatus::Accepted {
                Action::Decline
            } else {
                Action::Active
            },
            PatchStatus::Accepted => Action::Accept,
            PatchStatus::Unknown => arbitrary(),
        }),
{
}

/// Shape facts of the table every composition proof leans on: an
/// apply only opens a list, an accept or remove only closes one, and
/// what may follow each primitive.
pub proof fn lemma_table_shape(from: PatchStatus, to: PatchStatus)
    requires
        spec_transition_actions(from, to) is Some,
    ensures
        ({
            let a = spec_transition_actions(from, to).unwrap();
            &&& forall|z: int| 1 <= z < a.len() ==> a[z] != Action::Apply
            &&& (a[0] == Action::Apply ==> forall|z: int|
                1 <= z < a.len() ==> a[z] == Action::Active || a[z] == Action::Accept)
            &&& forall|z: int|
                0 <= z < a.len() && a[z] == Action::Accept ==> z == a.len() - 1
            &&& forall|z: int|
                0 <= z < a.len() && a[z] == Action::Remove ==> z == a.len() - 1
            &&& forall|z: int, w: int|
                0 <= z < w < a.len() && a[z] == Action::Active ==> a[w] == Action::Accept
            &&& forall|z: int, w: int|
                0 <= z < w < a.len() && a[z] == Action::Deactive ==> a[w] == Action::Remove
        }),
{
}

} // verus!
