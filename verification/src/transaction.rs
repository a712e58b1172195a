//! The transaction engine: one user-facing operation applied to every
//! matched patch, with rollback on the first failure.
use vstd::prelude::*;

use crate::error::PatchError;
use crate::manager::PatchManager;
use crate::manager::spec_rollback_attempt;
use crate::manager::spec_rollback_replay;
use crate::sm::spec_transition_actions;
use crate::manager::spec_transition_outcome;
use crate::manager::lemma_rollback_replay_push;
use crate::status::PatchStatus;
use crate::world::DriverEnv;

verus! {

/// The user-facing operation a transaction runs on each matched patch.
#[derive(Clone, Copy, Debug, PartialEq, Eq, Structural)]
pub enum TransactionAction {
    Apply,
    Remove,
    Active,
    Deactive,
    Accept,
}

/// A transaction: a display name, the identifier to resolve, and the
/// action to run on every matched patch.
#[derive(Debug)]
pub struct PatchTransaction {
    pub name: String,
    pub identifier: String,
    pub action: TransactionAction,
}

impl PatchTransaction {
    /// Builds a transaction.
    pub fn new(name: String, action: TransactionAction, identifier: String) -> (r:
        PatchTransaction)
        ensures
            r.name@ == name@,
            r.identifier@ == identifier@,
            r.action == action,
    {
        PatchTransaction { name, identifier, action }
    }

    fn run_one(&self, manager: &mut PatchManager, env: &DriverEnv, i: usize) -> (r: Result<
        PatchStatus,
        PatchError,
    >)
        requires
            old(manager).wf(),
            i < old(manager).entries@.len(),
        ensures
            final(manager).wf(),
            final(manager).entries@.len() == old(manager).entries@.len(),
            forall|j: int|
                0 <= j < old(manager).entries@.len() ==> final(manager).entries@[j].patch == old(
                    manager,
                ).entries@[j].patch,
            r matches Ok(s) ==> s != PatchStatus::Unknown,
    {
        match self.action {
            TransactionAction::Apply => manager.apply_patch(env, i),
            TransactionAction::Remove => manager.remove_patch(env, i),
            TransactionAction::Active => manager.active_patch(env, i),
            TransactionAction::Deactive => manager.deactive_patch(env, i),
            TransactionAction::Accept => manager.accept_patch(env, i),
        }
    }

    /// Resolves the identifier and runs the action on every matched
    /// patch in order.  On the first failure every finished patch is
    /// driven back towards its recorded pre-transaction status, in
    /// reverse order, and the first error is returned under the
    /// transaction's name; rollback failures never mask it.
    pub fn invoke(&self, manager: &mut PatchManager, env: &DriverEnv) -> (r: Result<
        Vec<(String, PatchStatus)>,
        PatchError,
    >)
        requires
            old(manager).wf(),
        ensures
            final(manager).wf(),
            final(manager).entries@.len() == old(manager).entries@.len(),
            forall|j: int|
                0 <= j < old(manager).entries@.len() ==> final(manager).entries@[j].patch == old(
                    manager,
                ).entries@[j].patch,
            match r {
                Ok(records) => records@.len() > 0 && (exists|i: int|
                    0 <= i < old(manager).entries@.len() && old(manager).spec_matches(
                        i,
                        self.identifier@,
                    )) && (forall|k: int|
                    0 <= k < records@.len() ==> (#[trigger] records@[k]).1
                        != PatchStatus::Unknown),
                Err(e) => ((e.kind == crate::error::ErrorKind::NotFound && (forall|i: int|
                    0 <= i < old(manager).entries@.len() ==> !old(manager).spec_matches(
                        i,
                        self.identifier@,
                    ))) || (exists|tail: Seq<char>|
                    e.message@ == "Transaction '"@ + self.name@ + "' failed: "@ + tail)) && (
                exists|mfail: PatchManager, plan: Seq<(int, PatchStatus)>|
                    mfail.wf() && mfail.entries@.len() == old(manager).entries@.len() && (forall|
                        z: int,
                    |
                        0 <= z < plan.len() ==> 0 <= (#[trigger] plan[z]).0 < old(
                            manager,
                        ).entries@.len() && plan[z].1 != PatchStatus::Unknown && old(
                            manager,
                        ).spec_matches(plan[z].0, self.identifier@)) && (forall|a: int, b: int|
                        0 <= a < b < plan.len() ==> plan[b].0 < plan[a].0)
                        && spec_rollback_replay(mfail, *final(manager), env, plan)),
            },
    {
        let list = match manager.match_patch(&self.identifier) {
            Err(e) => {
                proof {
                    let plan0 = Seq::<(int, PatchStatus)>::empty();
                    assert(spec_rollback_replay(*manager, *manager, env, plan0));
                }
                return Err(e);
            },
            Ok(l) => l,
        };
        let mut done: Vec<(usize, PatchStatus)> = Vec::new();
        let mut records: Vec<(String, PatchStatus)> = Vec::new();
        let n = list.len();
        let mut k: usize = 0;
        while k < n
            invariant
                manager.wf(),
                n == list@.len(),
                0 <= k <= n,
                manager.entries@.len() == old(manager).entries@.len(),
                forall|j: int|
                    0 <= j < old(manager).entries@.len() ==> manager.entries@[j].patch == old(
                        manager,
                    ).entries@[j].patch,
                forall|z: int|
                    0 <= z < list@.len() ==> #[trigger] list@[z] < manager.entries@.len()
                        && old(manager).spec_matches(list@[z] as int, self.identifier@),
                forall|a: int, b: int| 0 <= a < b < list@.len() ==> list@[a] < list@[b],
                done@.len() == k,
                forall|z: int|
                    0 <= z < done@.len() ==> (#[trigger] done@[z]).0 == list@[z] && done@[z].1
                        != PatchStatus::Unknown,
                records@.len() == k,
                forall|z: int|
                    0 <= z < records@.len() ==> (#[trigger] records@[z]).1 != PatchStatus::Unknown,
            decreases n - k,
        {
            let i = list[k];
            let old_status = manager.get_patch_status(env, i);
            match self.run_one(manager, env, i) {
                Ok(new_status) => {
                    records.push((manager.patch_at(i).entity_name.clone(), new_status));
                    done.push((i, old_status));
                    proof {
                        assert forall|z: int|
                            0 <= z < records@.len() implies (#[trigger] records@[z]).1
                            != PatchStatus::Unknown by {}
                    }
                },
                Err(e) => {
                    let ghost mfail = *manager;
                    let ghost planv = Seq::new(
                        done@.len() as nat,
                        |z: int| (done@[done@.len() - 1 - z].0 as int, done@[done@.len() - 1 - z].1),
                    );
                    proof {
                        assert(spec_rollback_replay(mfail, *manager, env, planv.take(0))) by {
                            assert(planv.take(0).len() == 0);
                        }
                    }
                    let mut d = done.len();
                    while d > 0
                        invariant
                            manager.wf(),
                            0 <= d <= done@.len(),
                            manager.entries@.len() == old(manager).entries@.len(),
                            mfail.entries@.len() == old(manager).entries@.len(),
                            forall|j: int|
                                0 <= j < old(manager).entries@.len()
                                    ==> manager.entries@[j].patch == old(
                                    manager,
                                ).entries@[j].patch,
                            forall|z: int|
                                0 <= z < done@.len() ==> (#[trigger] done@[z]).0
                                    < manager.entries@.len() && done@[z].1
                                    != PatchStatus::Unknown,
                            planv == Seq::new(
                                done@.len() as nat,
                                |z: int|
                                    (
                                        done@[done@.len() - 1 - z].0 as int,
                                        done@[done@.len() - 1 - z].1,
                                    ),
                            ),
                            spec_rollback_replay(
                                mfail,
                                *manager,
                                env,
                                planv.take(done@.len() - d),
                            ),
                        decreases d,
                    {
                        d = d - 1;
                        let (idx, st) = done[d];
                        let ghost before = *manager;
                        let ghost c = done@.len() - 1 - d;
                        let rb = manager.do_status_transition(env, idx, st);
                        proof {
                            assert(spec_rollback_attempt(
                                before,
                                *manager,
                                env,
                                idx as int,
                                st,
                            )) by {
                                if rb is Ok {
                                    assert(spec_transition_outcome(
                                        before,
                                        *manager,
                                        env,
                                        idx as int,
                                        st,
                                    ));
                                } else {
                                    assert(before.spec_resolved(env, idx as int) != st
                                        && spec_transition_actions(
                                        before.spec_resolved(env, idx as int),
                                        st,
                                    ) is Some);
                                }
                            }
                            assert(planv[c] == (idx as int, st));
                            lemma_rollback_replay_push(
                                mfail,
                                before,
                                *manager,
                                env,
                                planv.take(c),
                                (idx as int, st),
                            );
                            assert(planv.take(c).push((idx as int, st)) =~= planv.take(c + 1));
                        }
                    }
                    let mut msg = String::from_str("Transaction '");
                    msg.append(self.name.as_str());
                    msg.append("' failed: ");
                    msg.append(e.message.as_str());
                    proof {
                        assert(msg@ == "Transaction '"@ + self.name@ + "' failed: "@
                            + e.message@);
                        assert(planv.take(done@.len() as int) =~= planv);
                        assert forall|z: int|
                            0 <= z < planv.len() implies 0 <= (#[trigger] planv[z]).0 < old(
                            manager,
                        ).entries@.len() && planv[z].1 != PatchStatus::Unknown && old(
                            manager,
                        ).spec_matches(planv[z].0, self.identifier@) by {
                            assert(done@[done@.len() - 1 - z].0 == list@[done@.len() - 1 - z]);
                        }
                        assert forall|a: int, b: int|
                            0 <= a < b < planv.len() implies planv[b].0 < planv[a].0 by {
                            assert(done@[done@.len() - 1 - a].0 == list@[done@.len() - 1 - a]);
                            assert(done@[done@.len() - 1 - b].0 == list@[done@.len() - 1 - b]);
                        }
                    }
                    return Err(PatchError::new(e.kind, msg));
                },
            }
            k = k + 1;
        }
        Ok(records)
    }
}

} // verus!
