//! The patch manager: the coordinator every operation goes through.
//!
//! It owns the entry map of installed patches and both drivers, resolves
//! unknown statuses on first query, and drives every patch through the
//! state machine.
use vstd::prelude::*;
use vstd::string::StringSliceAdditionalSpecFns;

use crate::bytestr::{bytes_eq, lex_le};
use crate::entity::{Patch, PatchEntry, PatchType};
use crate::error::{ErrorKind, PatchError};
use crate::kdriver::KernelPatchDriver;
use crate::sm::{transition_actions, spec_transition_actions, Action};
use crate::status::PatchStatus;
use crate::udriver::{spec_status_lookup, UserPatchDriver};
use crate::world::{spec_digest_lookup, DriverEnv, PatchOpFlag};

verus! {

/// The byte form of a patch uuid, the key the manager is indexed by.
pub open spec fn spec_uuid_bytes(p: &Patch) -> Seq<u8> {
    vstd::utf8::encode_utf8(p.uuid@)
}

/// The status each driver primitive leaves behind.
pub open spec fn spec_action_result(a: Action) -> PatchStatus {
    match a {
        Action::Apply => PatchStatus::Deactived,
        Action::Remove => PatchStatus::NotApplied,
        Action::Active => PatchStatus::Actived,
        Action::Deactive => PatchStatus::Deactived,
        Action::Accept => PatchStatus::Accepted,
        Action::Decline => PatchStatus::Actived,
    }
}

/// The patch manager.
#[derive(Debug)]
pub struct PatchManager {
    /// One entry per installed patch, sorted by entity name after each
    /// rescan; uuids unique.
    pub entries: Vec<PatchEntry>,
    pub kdriver: KernelPatchDriver,
    pub udriver: UserPatchDriver,
}

impl PatchManager {
    /// Entries unique by uuid bytes and well formed, drivers well
    /// formed, and every user entry's uuid bound to its own target.
    pub open spec fn wf(&self) -> bool {
        &&& forall|a: int, b: int|
            0 <= a < b < self.entries@.len() ==> spec_uuid_bytes(&self.entries@[a].patch)
                != spec_uuid_bytes(&self.entries@[b].patch)
        &&& forall|i: int| 0 <= i < self.entries@.len() ==> (#[trigger] self.entries@[i].patch).wf()
        &&& self.kdriver.wf()
        &&& self.udriver.wf()
        &&& self.udriver.target_inv()
        &&& forall|i: int|
            0 <= i < self.entries@.len() && (#[trigger] self.entries@[i].patch).spec_kind()
                == PatchType::UserPatch ==> self.udriver.uuid_elf_ok(
                self.entries@[i].patch.uuid@,
                self.entries@[i].patch.spec_user_ext().target_elf@,
            )
    }

    /// The status a query returns: the cached value, or the driver's
    /// answer — its model, falling back to the observed state of the
    /// running system — while the cache still reads `Unknown`.
    pub open spec fn spec_resolved(&self, env: &DriverEnv, i: int) -> PatchStatus {
        if self.entries@[i].status != PatchStatus::Unknown {
            self.entries@[i].status
        } else if self.entries@[i].patch.spec_kind() == PatchType::KernelPatch {
            self.kdriver.spec_resolved_status(
                env,
                self.entries@[i].patch.spec_kernel_ext().module_name@,
            )
        } else {
            self.udriver.spec_resolved_status(env, self.entries@[i].patch.uuid@)
        }
    }

    /// How a status query changes the manager: the queried entry's
    /// cache is resolved, everything else the engine's contracts speak
    /// of stays, and every patch still resolves to the same status.
    pub open spec fn spec_queried(&self, env: &DriverEnv, i: int, m1: PatchManager) -> bool {
        &&& m1.entries@.len() == self.entries@.len()
        &&& forall|j: int|
            0 <= j < self.entries@.len() && j != i ==> m1.entries@[j] == self.entries@[j]
        &&& m1.entries@[i].patch == self.entries@[i].patch
        &&& m1.entries@[i].status == self.spec_resolved(env, i)
        &&& m1.kdriver.target_map@ == self.kdriver.target_map@
        &&& forall|e: Seq<u8>, u: Seq<char>, f: Seq<u8>|
            m1.udriver.user_covers(e, u, f) == self.udriver.user_covers(e, u, f)
        &&& forall|e: Seq<u8>, u: Seq<char>|
            m1.udriver.spec_has_entity(e, u) == self.udriver.spec_has_entity(e, u)
        &&& forall|e: Seq<u8>, u: Seq<char>, p: i32|
            m1.udriver.spec_entity_active(e, u, p) == self.udriver.spec_entity_active(e, u, p)
                && m1.udriver.spec_entity_ignored(e, u, p) == self.udriver.spec_entity_ignored(
                e,
                u,
                p,
            )
        &&& m1.udriver.watched@ == self.udriver.watched@
        &&& forall|j: int|
            0 <= j < self.entries@.len() ==> m1.spec_resolved(env, j) == self.spec_resolved(
                env,
                j,
            )
    }

    /// A manager with no patches and empty drivers.
    pub fn new() -> (r: PatchManager)
        ensures
            r.wf(),
            r.entries@.len() == 0,
    {
        PatchManager {
            entries: Vec::new(),
            kdriver: KernelPatchDriver::new(),
            udriver: UserPatchDriver::new(),
        }
    }

    /// Number of installed patches.
    pub fn patch_count(&self) -> (r: usize)
        ensures
            r == self.entries@.len(),
    {
        self.entries.len()
    }

    /// The patch at `i`.
    pub fn patch_at(&self, i: usize) -> (r: &Patch)
        requires
            i < self.entries@.len(),
        ensures
            *r == self.entries@[i as int].patch,
    {
        &self.entries[i].patch
    }

    /// Index of the patch with the given uuid.
    pub fn find_patch_by_uuid(&self, uuid: &String) -> (r: Option<usize>)
        requires
            self.wf(),
        ensures
            match r {
                Some(i) => 0 <= i < self.entries@.len() && self.entries@[i as int].patch.uuid@
                    == uuid@,
                None => forall|i: int|
                    0 <= i < self.entries@.len() ==> self.entries@[i].patch.uuid@ != uuid@,
            },
    {
        let n = self.entries.len();
        let mut i: usize = 0;
        while i < n
            invariant
                n == self.entries@.len(),
                0 <= i <= n,
                forall|j: int| 0 <= j < i ==> self.entries@[j].patch.uuid@ != uuid@,
            decreases n - i,
        {
            if self.entries[i].patch.uuid.eq(uuid) {
                return Some(i);
            }
            i = i + 1;
        }
        None
    }

    /// An entry matches an identifier that is its uuid, entity name,
    /// patch name or target name.
    pub open spec fn spec_matches(&self, i: int, identifier: Seq<char>) -> bool {
        ||| self.entries@[i].patch.uuid@ == identifier
        ||| self.entries@[i].patch.entity_name@ == identifier
        ||| self.entries@[i].patch.patch_name@ == identifier
        ||| self.entries@[i].patch.target_name@ == identifier
    }

    /// Resolves an identifier to the patches it names: by uuid first,
    /// then against entity, patch and target names.  Fails with
    /// `NotFound` when nothing matches.
    pub fn match_patch(&self, identifier: &String) -> (r: Result<Vec<usize>, PatchError>)
        requires
            self.wf(),
        ensures
            match r {
                Ok(list) => list@.len() > 0 && (forall|k: int|
                    0 <= k < list@.len() ==> 0 <= #[trigger] list@[k] < self.entries@.len()
                        && self.spec_matches(list@[k] as int, identifier@)) && (forall|a: int, b: int|
                    0 <= a < b < list@.len() ==> list@[a] < list@[b]) && (exists|i: int|
                    0 <= i < self.entries@.len() && self.spec_matches(i, identifier@)) && ((
                exists|i: int|
                    0 <= i < self.entries@.len() && self.entries@[i].patch.uuid@ == identifier@)
                    ==> list@.len() == 1 && self.entries@[list@[0] as int].patch.uuid@
                    == identifier@) && ((forall|i: int|
                    0 <= i < self.entries@.len() ==> self.entries@[i].patch.uuid@ != identifier@)
                    ==> (forall|i: int|
                    0 <= i < self.entries@.len() && self.spec_matches(i, identifier@)
                        ==> list@.contains(i as usize))),
                Err(e) => e.kind == ErrorKind::NotFound && forall|i: int|
                    0 <= i < self.entries@.len() ==> !self.spec_matches(i, identifier@),
            },
    {
        match self.find_patch_by_uuid(identifier) {
            Some(i) => {
                let mut list: Vec<usize> = Vec::new();
                list.push(i);
                proof {
                    assert(list@[0] == i);
                    assert(self.spec_matches(i as int, identifier@));
                }
                return Ok(list);
            },
            None => {},
        }
        let mut list: Vec<usize> = Vec::new();
        let n = self.entries.len();
        let mut i: usize = 0;
        while i < n
            invariant
                self.wf(),
                n == self.entries@.len(),
                0 <= i <= n,
                forall|k: int|
                    0 <= k < list@.len() ==> 0 <= #[trigger] list@[k] < self.entries@.len()
                        && self.spec_matches(list@[k] as int, identifier@),
                forall|j: int|
                    0 <= j < i && self.spec_matches(j, identifier@) ==> list@.contains(j as usize),
                forall|k: int| 0 <= k < list@.len() ==> #[trigger] list@[k] < i,
                forall|a: int, b: int| 0 <= a < b < list@.len() ==> list@[a] < list@[b],
                forall|j: int| 0 <= j < self.entries@.len() ==> self.entries@[j].patch.uuid@ != identifier@,
            decreases n - i,
        {
            let p = &self.entries[i].patch;
            let matched = p.entity_name.eq(identifier) || p.patch_name.eq(identifier)
                || p.target_name.eq(identifier);
            if matched {
                let ghost prev = list@;
                list.push(i);
                proof {
                    assert forall|j: int|
                        0 <= j < i + 1 && self.spec_matches(j, identifier@) implies list@.contains(
                        j as usize,
                    ) by {
                        if j < i {
                            assert(prev.contains(j as usize));
                            let k = choose|k: int| 0 <= k < prev.len() && prev[k] == j as usize;
                            assert(list@[k] == j as usize);
                        } else {
                            assert(list@[prev.len() as int] == j as usize);
                        }
                    }
                }
            } else {
                proof {
                    assert forall|j: int|
                        0 <= j < i + 1 && self.spec_matches(j, identifier@) implies list@.contains(
                        j as usize,
                    ) by {
                        if j == i {
                            assert(!self.spec_matches(i as int, identifier@));
                        }
                    }
                }
            }
            i = i + 1;
        }
        if list.len() == 0 {
            proof {
                assert forall|j: int|
                    0 <= j < self.entries@.len() implies !self.spec_matches(j, identifier@) by {
                    if self.spec_matches(j, identifier@) {
                        assert(list@.contains(j as usize));
                    }
                }
            }
            return Err(PatchError::of(ErrorKind::NotFound, "Cannot match any patch"));
        }
        proof {
            assert(self.spec_matches(list@[0] as int, identifier@));
        }
        Ok(list)
    }

    /// Lifecycle state of the patch at `i`.  An unknown cache is
    /// resolved through the driver — its model, or the state observed
    /// of the running system, which the driver then adopts — and
    /// cached.  Never `Unknown` afterwards.
    pub fn get_patch_status(&mut self, env: &DriverEnv, i: usize) -> (r: PatchStatus)
        requires
            old(self).wf(),
            i < old(self).entries@.len(),
        ensures
            final(self).wf(),
            r == old(self).spec_resolved(env, i as int),
            r != PatchStatus::Unknown,
            old(self).spec_queried(env, i as int, *final(self)),
            old(self).entries@[i as int].status != PatchStatus::Unknown ==> final(self).kdriver
                == old(self).kdriver && final(self).udriver == old(self).udriver,
            final(self).entries@.len() == old(self).entries@.len(),
            final(self).entries@[i as int].patch == old(self).entries@[i as int].patch,
            final(self).entries@[i as int].status == r,
    {
        let cached = self.entries[i].status;
        let ghost start = *self;
        let r: PatchStatus = match cached {
            PatchStatus::Unknown => {
                match self.entries[i].patch.kind() {
                    PatchType::KernelPatch => self.kdriver.resolve_status(
                        env,
                        &self.entries[i].patch,
                    ),
                    PatchType::UserPatch => self.udriver.resolve_status(
                        env,
                        &self.entries[i].patch,
                    ),
                }
            },
            s => s,
        };
        let ghost mid = *self;
        let entry = &mut self.entries[i];
        entry.status = r;
        proof {
            assert forall|j: int|
                0 <= j < old(self).entries@.len() && j != i implies self.entries@[j] == old(self).entries@[j] by {}
            let ghost fin = *self;
            assert(fin.kdriver == mid.kdriver && fin.udriver == mid.udriver);
            // Distinct entries carry distinct uuids.
            assert forall|j: int|
                0 <= j < start.entries@.len() && j != i implies start.entries@[j].patch.uuid@
                != start.entries@[i as int].patch.uuid@ by {
                if start.entries@[j].patch.uuid@ == start.entries@[i as int].patch.uuid@ {
                    assert(spec_uuid_bytes(&start.entries@[j].patch) == spec_uuid_bytes(
                        &start.entries@[i as int].patch,
                    ));
                }
            }
            assert forall|j: int|
                0 <= j < start.entries@.len() implies fin.spec_resolved(env, j)
                == start.spec_resolved(env, j) by {
                if j == i {
                    assert(fin.entries@[j].status == r);
                } else {
                    assert(fin.entries@[j] == start.entries@[j]);
                    if fin.entries@[j].status == PatchStatus::Unknown {
                        if start.entries@[j].patch.spec_kind() == PatchType::KernelPatch {
                            let mj = start.entries@[j].patch.spec_kernel_ext().module_name@;
                            if cached == PatchStatus::Unknown && start.entries@[i as int].patch.spec_kind()
                                == PatchType::KernelPatch {
                                let mi = start.entries@[i as int].patch.spec_kernel_ext().module_name@;
                                if mj != mi {
                                    assert(mid.kdriver.spec_module_present(mj)
                                        == start.kdriver.spec_module_present(mj));
                                    assert(mid.kdriver.spec_module_enabled(mj)
                                        == start.kdriver.spec_module_enabled(mj));
                                } else {
                                    assert(mid.kdriver.spec_status(mi) == r);
                                    if mid.kdriver.spec_module_present(mi) {
                                        assert(mid.kdriver.spec_resolved_status(env, mi) == r);
                                    } else {
                                        assert(r == PatchStatus::NotApplied);
                                        if start.kdriver.spec_module_present(mi) {
                                            assert(mid.kdriver.livepatch@
                                                == start.kdriver.livepatch@);
                                            assert(false);
                                        }
                                        assert(crate::world::spec_sysfs_lookup(
                                            env.sysfs_states@,
                                            mi,
                                        ) is None);
                                    }
                                }
                            } else {
                                assert(mid.kdriver == start.kdriver);
                            }
                        } else {
                            let uj = start.entries@[j].patch.uuid@;
                            if cached == PatchStatus::Unknown && start.entries@[i as int].patch.spec_kind()
                                == PatchType::UserPatch {
                                let ui = start.entries@[i as int].patch.uuid@;
                                assert(uj != ui);
                                assert(crate::udriver::spec_has_record(
                                    mid.udriver.status_map@,
                                    uj,
                                ) == crate::udriver::spec_has_record(
                                    start.udriver.status_map@,
                                    uj,
                                ));
                                assert(crate::udriver::spec_status_lookup(
                                    mid.udriver.status_map@,
                                    uj,
                                ) == crate::udriver::spec_status_lookup(
                                    start.udriver.status_map@,
                                    uj,
                                ));
                            } else {
                                assert(mid.udriver == start.udriver);
                            }
                        }
                    }
                }
            }
            assert(start.spec_queried(env, i as int, fin)) by {
                if cached == PatchStatus::Unknown && start.entries@[i as int].patch.spec_kind()
                    == PatchType::UserPatch {
                } else {
                    assert(mid.udriver == start.udriver);
                }
                if cached == PatchStatus::Unknown && start.entries@[i as int].patch.spec_kind()
                    == PatchType::KernelPatch {
                } else {
                    assert(mid.kdriver == start.kdriver);
                }
            }
        }
        r
    }


    /// Every installed patch with its cached status, in map order.
    pub fn get_patch_list(&self) -> (r: &Vec<PatchEntry>)
        ensures
            r == &self.entries,
    {
        &self.entries
    }

    /// Overwrites the cached status of the patch at `i`; an `Unknown`
    /// status is never stored.
    pub fn set_patch_status(&mut self, i: usize, st: PatchStatus) -> (r: Result<(), PatchError>)
        requires
            old(self).wf(),
            i < old(self).entries@.len(),
        ensures
            final(self).wf(),
            final(self).kdriver == old(self).kdriver,
            final(self).udriver == old(self).udriver,
            final(self).entries@.len() == old(self).entries@.len(),
            forall|j: int|
                0 <= j < old(self).entries@.len() && j != i ==> final(self).entries@[j] == old(self).entries@[j],
            final(self).entries@[i as int].patch == old(self).entries@[i as int].patch,
            match r {
                Ok(()) => st != PatchStatus::Unknown && final(self).entries@[i as int].status
                    == st,
                Err(e) => st == PatchStatus::Unknown && e.kind == ErrorKind::InvalidFormat
                    && final(self).entries@[i as int] == old(self).entries@[i as int],
            },
    {
        if matches!(st, PatchStatus::Unknown) {
            proof {
                assert forall|j: int|
                    0 <= j < old(self).entries@.len() && j != i implies self.entries@[j] == old(self).entries@[j] by {}
            }
            return Err(
                PatchError::of(ErrorKind::InvalidFormat, "Cannot set a patch status to unknown"),
            );
        }
        self.set_cached_status(i, st);
        Ok(())
    }

    /// Overwrites the cached status of the patch at `i`.
    fn set_cached_status(&mut self, i: usize, st: PatchStatus)
        requires
            old(self).wf(),
            i < old(self).entries@.len(),
            st != PatchStatus::Unknown,
        ensures
            final(self).wf(),
            final(self).kdriver == old(self).kdriver,
            final(self).udriver == old(self).udriver,
            final(self).entries@.len() == old(self).entries@.len(),
            forall|j: int|
                0 <= j < old(self).entries@.len() && j != i ==> final(self).entries@[j] == old(self).entries@[j],
            final(self).entries@[i as int].patch == old(self).entries@[i as int].patch,
            final(self).entries@[i as int].status == st,
    {
        let entry = &mut self.entries[i];
        entry.status = st;
        proof {
            assert forall|j: int|
                0 <= j < old(self).entries@.len() && j != i implies self.entries@[j] == old(self).entries@[j] by {}
        }
    }
}

/// The driver primitive `a` on the patch at `i` cannot fail, judged at
/// the given state.  `after_apply` says an apply precedes it in the
/// same transition, so its module or target is already loaded.
pub open spec fn spec_action_ok(
    m: PatchManager,
    env: &DriverEnv,
    i: int,
    a: Action,
    after_apply: bool,
) -> bool {
    let p = m.entries@[i].patch;
    match a {
        Action::Accept => true,
        Action::Decline => true,
        Action::Apply => {
            if p.spec_kind() == PatchType::KernelPatch {
                &&& crate::kdriver::spec_compat_ok(env, &p)
                &&& spec_digest_lookup(env.digests@, p.spec_kernel_ext().patch_file@) == Some(
                    p.checksum@,
                )
                &&& crate::kdriver::spec_dep_ok(env, &p)
                &&& (forall|u: Seq<char>| !m.kdriver.spec_conflicts_with(&p, u))
                &&& !m.kdriver.spec_module_present(p.spec_kernel_ext().module_name@)
                &&& !env.insmod_failures.deep_view().contains(p.spec_kernel_ext().patch_file@)
            } else {
                &&& spec_digest_lookup(env.digests@, p.spec_user_ext().patch_file@) == Some(
                    p.checksum@,
                )
                &&& !m.udriver.spec_user_conflict(&p, None)
            }
        },
        Action::Remove => {
            if p.spec_kind() == PatchType::KernelPatch {
                &&& m.kdriver.spec_module_present(p.spec_kernel_ext().module_name@)
                &&& !env.rmmod_failures.deep_view().contains(p.spec_kernel_ext().patch_file@)
            } else {
                true
            }
        },
        Action::Active => {
            if p.spec_kind() == PatchType::KernelPatch {
                &&& !env.sysfs_write_failures.deep_view().contains(
                    p.spec_kernel_ext().module_name@,
                )
                &&& (after_apply || m.kdriver.spec_module_present(
                    p.spec_kernel_ext().module_name@,
                ))
            } else {
                let elf = p.spec_user_ext().target_elf@;
                let proc = crate::world::spec_process_lookup(env.processes@, elf);
                &&& (after_apply || m.udriver.spec_target_present(elf))
                &&& !m.udriver.spec_has_entity(elf, p.uuid@)
                &&& (proc.len() == 0 || exists|q: i32|
                    proc.contains(q) && !env.inject_failures@.contains(q))
            }
        },
        Action::Deactive => {
            if p.spec_kind() == PatchType::KernelPatch {
                &&& (forall|u: Seq<char>| !m.kdriver.spec_overridden_by(&p, u))
                &&& m.kdriver.spec_module_present(p.spec_kernel_ext().module_name@)
                &&& !env.sysfs_write_failures.deep_view().contains(
                    p.spec_kernel_ext().module_name@,
                )
            } else {
                let elf = p.spec_user_ext().target_elf@;
                let proc = crate::world::spec_process_lookup(env.processes@, elf);
                &&& !m.udriver.spec_user_conflict(&p, Some(p.uuid@))
                &&& m.udriver.spec_target_present(elf)
                &&& m.udriver.spec_has_entity(elf, p.uuid@)
                &&& (forall|q: i32|
                    m.udriver.spec_entity_active(elf, p.uuid@, q) && proc.contains(q)
                        && !m.udriver.spec_entity_ignored(elf, p.uuid@, q)
                        ==> !env.inject_failures@.contains(q))
            }
        },
    }
}

/// What a successful apply leaves behind for the rest of its
/// transition: the module inserted and dormant, or the user target
/// registered with its process bookkeeping untouched.
pub open spec fn spec_apply_effect(m0: PatchManager, m1: PatchManager, i: int) -> bool {
    let p = m0.entries@[i].patch;
    if p.spec_kind() == PatchType::KernelPatch {
        m1.kdriver.spec_status(p.spec_kernel_ext().module_name@) == PatchStatus::Deactived
    } else {
        &&& m1.udriver.spec_target_present(p.spec_user_ext().target_elf@)
        &&& forall|e: Seq<u8>, u: Seq<char>|
            m1.udriver.spec_has_entity(e, u) == m0.udriver.spec_has_entity(e, u)
    }
}

/// Every primitive of a transition's action list cannot fail, judged
/// at the state the transition starts from.
pub open spec fn spec_actions_ok(
    m: PatchManager,
    env: &DriverEnv,
    i: int,
    actions: Seq<Action>,
) -> bool {
    forall|k: int|
        0 <= k < actions.len() ==> spec_action_ok(
            m,
            env,
            i,
            #[trigger] actions[k],
            actions.len() > 0 && actions[0] == Action::Apply && k > 0,
        )
}

/// What one driver primitive on the patch at `i` does to the manager:
/// the cached status it records and the driver-state change its
/// driver's contract states, everything else framed.
pub open spec fn spec_action_effect(m0: PatchManager, m1: PatchManager, i: int, a: Action) -> bool {
    let p = m0.entries@[i].patch;
    &&& m1.entries@.len() == m0.entries@.len()
    &&& forall|j: int| 0 <= j < m0.entries@.len() && j != i ==> m1.entries@[j] == m0.entries@[j]
    &&& m1.entries@[i].patch == m0.entries@[i].patch
    &&& m1.entries@[i].status == spec_action_result(a)
    &&& (match a {
        Action::Accept => m1.kdriver == m0.kdriver && m1.udriver == m0.udriver,
        Action::Decline => m1.kdriver == m0.kdriver && m1.udriver == m0.udriver,
        Action::Apply => {
            if p.spec_kind() == PatchType::KernelPatch {
                let module = p.spec_kernel_ext().module_name@;
                &&& m1.udriver == m0.udriver
                &&& m1.kdriver.target_map@ == m0.kdriver.target_map@
                &&& m1.kdriver.spec_status(module) == PatchStatus::Deactived
                &&& forall|m: Seq<u8>|
                    m != module ==> (m1.kdriver.spec_module_present(m)
                        == m0.kdriver.spec_module_present(m) && m1.kdriver.spec_module_enabled(m)
                        == m0.kdriver.spec_module_enabled(m))
            } else {
                let elf = p.spec_user_ext().target_elf@;
                &&& m1.kdriver == m0.kdriver
                &&& m1.udriver.spec_target_present(elf)
                &&& spec_status_lookup(m1.udriver.status_map@, p.uuid@) == PatchStatus::Deactived
                &&& forall|u: Seq<char>|
                    u != p.uuid@ ==> spec_status_lookup(m1.udriver.status_map@, u)
                        == spec_status_lookup(m0.udriver.status_map@, u)
                &&& forall|e: Seq<u8>, u: Seq<char>, f: Seq<u8>|
                    m1.udriver.user_covers(e, u, f) == m0.udriver.user_covers(e, u, f)
                &&& forall|e: Seq<u8>, u: Seq<char>|
                    m1.udriver.spec_has_entity(e, u) == m0.udriver.spec_has_entity(e, u)
                &&& forall|e: Seq<u8>, u: Seq<char>, q: i32|
                    m1.udriver.spec_entity_active(e, u, q) == m0.udriver.spec_entity_active(
                        e,
                        u,
                        q,
                    ) && m1.udriver.spec_entity_ignored(e, u, q)
                        == m0.udriver.spec_entity_ignored(e, u, q)
                &&& m1.udriver.watched@ == m0.udriver.watched@
            }
        },
        Action::Remove => {
            if p.spec_kind() == PatchType::KernelPatch {
                let module = p.spec_kernel_ext().module_name@;
                &&& m1.udriver == m0.udriver
                &&& m1.kdriver.target_map@ == m0.kdriver.target_map@
                &&& m1.kdriver.spec_status(module) == PatchStatus::NotApplied
                &&& forall|m: Seq<u8>|
                    m != module ==> (m1.kdriver.spec_module_present(m)
                        == m0.kdriver.spec_module_present(m) && m1.kdriver.spec_module_enabled(m)
                        == m0.kdriver.spec_module_enabled(m))
            } else {
                let elf = p.spec_user_ext().target_elf@;
                &&& m1.kdriver == m0.kdriver
                &&& spec_status_lookup(m1.udriver.status_map@, p.uuid@) == PatchStatus::NotApplied
                &&& forall|u: Seq<char>|
                    u != p.uuid@ ==> spec_status_lookup(m1.udriver.status_map@, u)
                        == spec_status_lookup(m0.udriver.status_map@, u)
                &&& forall|e: Seq<u8>, u: Seq<char>, f: Seq<u8>|
                    e != elf ==> m1.udriver.user_covers(e, u, f) == m0.udriver.user_covers(e, u, f)
                &&& forall|u: Seq<char>, f: Seq<u8>|
                    m1.udriver.user_covers(elf, u, f) == (m0.udriver.user_covers(elf, u, f)
                        && m1.udriver.spec_applied(elf))
                &&& m1.udriver.watched@ == m0.udriver.watched@
            }
        },
        Action::Active => {
            if p.spec_kind() == PatchType::KernelPatch {
                let module = p.spec_kernel_ext().module_name@;
                &&& m1.udriver == m0.udriver
                &&& m1.kdriver.spec_status(module) == PatchStatus::Actived
                &&& forall|m: Seq<u8>|
                    m != module ==> (m1.kdriver.spec_module_present(m)
                        == m0.kdriver.spec_module_present(m) && m1.kdriver.spec_module_enabled(m)
                        == m0.kdriver.spec_module_enabled(m))
                &&& forall|m: Seq<u8>, u: Seq<char>, s: Seq<u8>|
                    m1.kdriver.covers_in(m, u, s) <==> (m0.kdriver.covers_in(m, u, s) || (u
                        == p.uuid@ && p.spec_kernel_ext().spec_covers(m, s)))
            } else {
                let elf = p.spec_user_ext().target_elf@;
                &&& m1.kdriver == m0.kdriver
                &&& spec_status_lookup(m1.udriver.status_map@, p.uuid@) == PatchStatus::Actived
                &&& forall|u: Seq<char>|
                    u != p.uuid@ ==> spec_status_lookup(m1.udriver.status_map@, u)
                        == spec_status_lookup(m0.udriver.status_map@, u)
                &&& forall|e: Seq<u8>, u: Seq<char>, f: Seq<u8>|
                    m1.udriver.user_covers(e, u, f) <==> (m0.udriver.user_covers(e, u, f) || (e
                        == elf && u == p.uuid@ && exists|k: int|
                        0 <= k < p.spec_user_ext().functions@.len()
                            && p.spec_user_ext().functions@[k]@ == f))
                &&& m1.udriver.spec_watched(elf)
            }
        },
        Action::Deactive => {
            if p.spec_kind() == PatchType::KernelPatch {
                let module = p.spec_kernel_ext().module_name@;
                &&& m1.udriver == m0.udriver
                &&& m1.kdriver.spec_status(module) == PatchStatus::Deactived
                &&& forall|m: Seq<u8>|
                    m != module ==> (m1.kdriver.spec_module_present(m)
                        == m0.kdriver.spec_module_present(m) && m1.kdriver.spec_module_enabled(m)
                        == m0.kdriver.spec_module_enabled(m))
                &&& forall|m: Seq<u8>, u: Seq<char>, s: Seq<u8>|
                    m1.kdriver.covers_in(m, u, s) <==> (m0.kdriver.covers_in(m, u, s) && u
                        != p.uuid@)
            } else {
                let elf = p.spec_user_ext().target_elf@;
                &&& m1.kdriver == m0.kdriver
                &&& spec_status_lookup(m1.udriver.status_map@, p.uuid@) == PatchStatus::Deactived
                &&& forall|u: Seq<char>|
                    u != p.uuid@ ==> spec_status_lookup(m1.udriver.status_map@, u)
                        == spec_status_lookup(m0.udriver.status_map@, u)
                &&& !m1.udriver.spec_has_entity(elf, p.uuid@)
                &&& forall|e: Seq<u8>, u: Seq<char>, f: Seq<u8>|
                    m1.udriver.user_covers(e, u, f) <==> (m0.udriver.user_covers(e, u, f) && !(e
                        == elf && u == p.uuid@))
            }
        },
    })
}

/// What a run of the whole action list does: the composition of the
/// per-primitive effects, through some intermediate states.
pub open spec fn spec_actions_effect(
    m0: PatchManager,
    m1: PatchManager,
    i: int,
    actions: Seq<Action>,
) -> bool
    decreases actions.len(),
{
    if actions.len() == 0 {
        m1 == m0
    } else {
        exists|mid: PatchManager|
            #[trigger] spec_action_effect(m0, mid, i, actions[0]) && spec_actions_effect(
                mid,
                m1,
                i,
                actions.skip(1),
            )
    }
}

/// Appending one more executed primitive extends the composed effect.
pub proof fn lemma_actions_effect_push(
    m0: PatchManager,
    m1: PatchManager,
    m2: PatchManager,
    i: int,
    actions: Seq<Action>,
    a: Action,
)
    requires
        spec_actions_effect(m0, m1, i, actions),
        spec_action_effect(m1, m2, i, a),
    ensures
        spec_actions_effect(m0, m2, i, actions.push(a)),
    decreases actions.len(),
{
    if actions.len() == 0 {
        assert(m1 == m0);
        assert(actions.push(a)[0] == a);
        assert(actions.push(a).skip(1) =~= Seq::<Action>::empty());
        assert(spec_action_effect(m0, m2, i, actions.push(a)[0]));
        assert(spec_actions_effect(m2, m2, i, actions.push(a).skip(1)));
    } else {
        let mid = choose|mid: PatchManager|
            #[trigger] spec_action_effect(m0, mid, i, actions[0]) && spec_actions_effect(
                mid,
                m1,
                i,
                actions.skip(1),
            );
        lemma_actions_effect_push(mid, m1, m2, i, actions.skip(1), a);
        assert(actions.push(a)[0] == actions[0]);
        assert(actions.push(a).skip(1) =~= actions.skip(1).push(a));
        assert(spec_action_effect(m0, mid, i, actions.push(a)[0]));
        assert(spec_actions_effect(mid, m2, i, actions.push(a).skip(1)));
    }
}

/// Two consecutive status queries of the same patch compose: the pair
/// relates as one query.
pub proof fn lemma_queried_trans(
    m0: PatchManager,
    m1: PatchManager,
    m2: PatchManager,
    env: &DriverEnv,
    i: int,
)
    requires
        0 <= i < m0.entries@.len(),
        m0.spec_queried(env, i, m1),
        m1.spec_queried(env, i, m2),
    ensures
        m0.spec_queried(env, i, m2),
{
    assert(m2.entries@[i].status == m1.spec_resolved(env, i));
    assert(m1.spec_resolved(env, i) == m0.spec_resolved(env, i));
    assert forall|j: int|
        0 <= j < m0.entries@.len() implies m2.spec_resolved(env, j) == m0.spec_resolved(
        env,
        j,
    ) by {
        assert(m2.spec_resolved(env, j) == m1.spec_resolved(env, j));
    }
}

/// The relation one status-transition call leaves between two manager
/// states: the frames always, and on success either the no-op query
/// shape or the composed primitive effects toward `target`.
pub open spec fn spec_transition_outcome(
    m0: PatchManager,
    m1: PatchManager,
    env: &DriverEnv,
    i: int,
    target: PatchStatus,
) -> bool {
    let current = m0.spec_resolved(env, i);
    &&& m1.wf()
    &&& m1.entries@.len() == m0.entries@.len()
    &&& forall|j: int|
        0 <= j < m0.entries@.len() && j != i ==> m1.entries@[j].patch == m0.entries@[j].patch
            && m1.entries@[j].status == m0.entries@[j].status
    &&& m1.entries@[i].patch == m0.entries@[i].patch
    &&& ((current == target && m0.spec_queried(env, i, m1)) || (current != target
        && spec_transition_actions(current, target) is None && m0.spec_queried(env, i, m1)) || (
    current != target && spec_transition_actions(current, target) is Some && m1.entries@[i].status
        == target && exists|mq: PatchManager|
        m0.spec_queried(env, i, mq) && spec_actions_effect(
            mq,
            m1,
            i,
            spec_transition_actions(current, target).unwrap(),
        )))
}

/// What replaying a plan does: each step is one transition outcome,
/// through some intermediate states.
pub open spec fn spec_replay_effect(
    m0: PatchManager,
    m1: PatchManager,
    env: &DriverEnv,
    plan: Seq<(int, PatchStatus)>,
) -> bool
    decreases plan.len(),
{
    if plan.len() == 0 {
        m1 == m0
    } else {
        exists|mid: PatchManager|
            #[trigger] spec_transition_outcome(m0, mid, env, plan[0].0, plan[0].1)
                && spec_replay_effect(mid, m1, env, plan.skip(1))
    }
}

/// Replaying one more entry extends the composed replay.
pub proof fn lemma_replay_effect_push(
    m0: PatchManager,
    m1: PatchManager,
    m2: PatchManager,
    env: &DriverEnv,
    plan: Seq<(int, PatchStatus)>,
    step: (int, PatchStatus),
)
    requires
        spec_replay_effect(m0, m1, env, plan),
        spec_transition_outcome(m1, m2, env, step.0, step.1),
    ensures
        spec_replay_effect(m0, m2, env, plan.push(step)),
    decreases plan.len(),
{
    if plan.len() == 0 {
        assert(m1 == m0);
        assert(plan.push(step)[0] == step);
        assert(plan.push(step).skip(1) =~= Seq::<(int, PatchStatus)>::empty());
        assert(spec_transition_outcome(m0, m2, env, plan.push(step)[0].0, plan.push(step)[0].1));
        assert(spec_replay_effect(m2, m2, env, plan.push(step).skip(1)));
    } else {
        let mid = choose|mid: PatchManager|
            #[trigger] spec_transition_outcome(m0, mid, env, plan[0].0, plan[0].1)
                && spec_replay_effect(mid, m1, env, plan.skip(1));
        lemma_replay_effect_push(mid, m1, m2, env, plan.skip(1), step);
        assert(plan.push(step)[0] == plan[0]);
        assert(plan.push(step).skip(1) =~= plan.skip(1).push(step));
        assert(spec_transition_outcome(m0, mid, env, plan.push(step)[0].0, plan.push(step)[0].1));
        assert(spec_replay_effect(mid, m2, env, plan.push(step).skip(1)));
    }
}

/// One rollback attempt: the transition either reaches its outcome or
/// fails somewhere inside the action table; either way it touches at
/// most the attempted entry's status and the drivers.  A failed
/// attempt is tolerated: the transaction reports the root cause.
pub open spec fn spec_rollback_attempt(
    m0: PatchManager,
    m1: PatchManager,
    env: &DriverEnv,
    i: int,
    target: PatchStatus,
) -> bool {
    let current = m0.spec_resolved(env, i);
    &&& m1.wf()
    &&& m1.entries@.len() == m0.entries@.len()
    &&& forall|j: int|
        0 <= j < m0.entries@.len() && j != i ==> m1.entries@[j].patch == m0.entries@[j].patch
            && m1.entries@[j].status == m0.entries@[j].status
    &&& m1.entries@[i].patch == m0.entries@[i].patch
    &&& (spec_transition_outcome(m0, m1, env, i, target) || (current != target
        && spec_transition_actions(current, target) is Some))
}

/// What a rollback pass does: every recorded pair is attempted in
/// turn, through some intermediate states.
pub open spec fn spec_rollback_replay(
    m0: PatchManager,
    m1: PatchManager,
    env: &DriverEnv,
    plan: Seq<(int, PatchStatus)>,
) -> bool
    decreases plan.len(),
{
    if plan.len() == 0 {
        m1 == m0
    } else {
        exists|mid: PatchManager|
            #[trigger] spec_rollback_attempt(m0, mid, env, plan[0].0, plan[0].1)
                && spec_rollback_replay(mid, m1, env, plan.skip(1))
    }
}

/// Attempting one more entry extends the composed rollback.
pub proof fn lemma_rollback_replay_push(
    m0: PatchManager,
    m1: PatchManager,
    m2: PatchManager,
    env: &DriverEnv,
    plan: Seq<(int, PatchStatus)>,
    step: (int, PatchStatus),
)
    requires
        spec_rollback_replay(m0, m1, env, plan),
        spec_rollback_attempt(m1, m2, env, step.0, step.1),
    ensures
        spec_rollback_replay(m0, m2, env, plan.push(step)),
    decreases plan.len(),
{
    if plan.len() == 0 {
        assert(m1 == m0);
        assert(plan.push(step)[0] == step);
        assert(plan.push(step).skip(1) =~= Seq::<(int, PatchStatus)>::empty());
        assert(spec_rollback_attempt(m0, m2, env, plan.push(step)[0].0, plan.push(step)[0].1));
        assert(spec_rollback_replay(m2, m2, env, plan.push(step).skip(1)));
    } else {
        let mid = choose|mid: PatchManager|
            #[trigger] spec_rollback_attempt(m0, mid, env, plan[0].0, plan[0].1)
                && spec_rollback_replay(mid, m1, env, plan.skip(1));
        lemma_rollback_replay_push(mid, m1, m2, env, plan.skip(1), step);
        assert(plan.push(step)[0] == plan[0]);
        assert(plan.push(step).skip(1) =~= plan.skip(1).push(step));
        assert(spec_rollback_attempt(m0, mid, env, plan.push(step)[0].0, plan.push(step)[0].1));
        assert(spec_rollback_replay(mid, m2, env, plan.push(step).skip(1)));
    }
}

/// The replayed plan is faithful to the parsed snapshot: every element
/// comes from a qualifying pair, every qualifying pair is represented,
/// and the replay runs in ascending status order.
pub open spec fn spec_plan_ok(
    m0: PatchManager,
    pairs: Seq<(Seq<u8>, PatchStatus)>,
    accepted_only: bool,
    plan: Seq<(int, PatchStatus)>,
) -> bool {
    &&& forall|z: int|
        0 <= z < plan.len() ==> 0 <= (#[trigger] plan[z]).0 < m0.entries@.len() && plan[z].1
            != PatchStatus::Unknown && (accepted_only ==> plan[z].1 == PatchStatus::Accepted)
            && exists|q: int|
            0 <= q < pairs.len() && (#[trigger] pairs[q]).1 == plan[z].1 && spec_uuid_bytes(
                &m0.entries@[plan[z].0].patch,
            ) == pairs[q].0
    &&& forall|q: int|
        0 <= q < pairs.len() && (!accepted_only || (#[trigger] pairs[q]).1
            == PatchStatus::Accepted) && (exists|j: int|
            0 <= j < m0.entries@.len() && spec_uuid_bytes(&m0.entries@[j].patch) == pairs[q].0)
            ==> exists|z: int|
            0 <= z < plan.len() && (#[trigger] plan[z]).1 == pairs[q].1 && spec_uuid_bytes(
                &m0.entries@[plan[z].0].patch,
            ) == pairs[q].0
    &&& forall|a: int, b: int| 0 <= a < b < plan.len() ==> plan[a].1.rank() <= plan[b].1.rank()
}

/// A resolved status is never `Unknown`.
pub proof fn lemma_resolved_not_unknown(m: &PatchManager, env: &DriverEnv, i: int)
    requires
        m.wf(),
        0 <= i < m.entries@.len(),
    ensures
        m.spec_resolved(env, i) != PatchStatus::Unknown,
{
    if m.entries@[i].status == PatchStatus::Unknown && m.entries@[i].patch.spec_kind()
        != PatchType::KernelPatch {
        crate::udriver::lemma_status_lookup_not_unknown(
            m.udriver.status_map@,
            m.entries@[i].patch.uuid@,
        );
    }
}

impl PatchManager {
    /// Runs one driver primitive of the state machine on the patch at
    /// `i` and records the status it leaves behind.
    fn run_action(&mut self, env: &DriverEnv, i: usize, action: Action) -> (r: Result<
        (),
        PatchError,
    >)
        requires
            old(self).wf(),
            i < old(self).entries@.len(),
        ensures
            final(self).wf(),
            final(self).entries@.len() == old(self).entries@.len(),
            forall|j: int|
                0 <= j < old(self).entries@.len() && j != i ==> final(self).entries@[j].patch
                    == old(self).entries@[j].patch && final(self).entries@[j].status == old(self).entries@[j].status,
            final(self).entries@[i as int].patch == old(self).entries@[i as int].patch,
            match r {
                Ok(()) => {
                    &&& final(self).entries@[i as int].status == spec_action_result(action)
                    &&& spec_action_effect(*old(self), *final(self), i as int, action)
                    &&& (action == Action::Apply ==> spec_apply_effect(
                        *old(self),
                        *final(self),
                        i as int,
                    ))
                    &&& (action == Action::Deactive && old(self).entries@[i as int].patch.spec_kind()
                        == PatchType::KernelPatch ==> final(self).kdriver.spec_module_present(
                        old(self).entries@[i as int].patch.spec_kernel_ext().module_name@,
                    ))
                    &&& ((action == Action::Accept || action == Action::Decline) ==> final(self).kdriver == old(self).kdriver && final(self).udriver == old(self).udriver)
                },
                Err(e) => final(self).entries@[i as int].status == old(self).entries@[i as int].status
                    && !spec_action_ok(*old(self), env, i as int, action, false),
            },
            (action == Action::Accept || action == Action::Decline) ==> r is Ok,
    {
        let kind = self.entries[i].patch.kind();
        match action {
            Action::Accept => {
                self.set_cached_status(i, PatchStatus::Accepted);
                Ok(())
            },
            Action::Decline => {
                self.set_cached_status(i, PatchStatus::Actived);
                Ok(())
            },
            Action::Apply => {
                let res = match kind {
                    PatchType::KernelPatch => {
                        let check = self.kdriver.check(env, &self.entries[i].patch, PatchOpFlag::Normal);
                        match check {
                            Err(e) => Err(e),
                            Ok(()) => {
                                let ghost before = *self;
                                let r = self.kdriver.apply(env, &self.entries[i].patch);
                                r
                            },
                        }
                    },
                    PatchType::UserPatch => {
                        let check = self.udriver.check(env, &self.entries[i].patch, PatchOpFlag::Normal);
                        match check {
                            Err(e) => Err(e),
                            Ok(()) => self.udriver.apply(&self.entries[i].patch),
                        }
                    },
                };
                match res {
                    Err(e) => Err(e),
                    Ok(()) => {
                        self.set_cached_status(i, PatchStatus::Deactived);
                        Ok(())
                    },
                }
            },
            Action::Remove => {
                let res = match kind {
                    PatchType::KernelPatch => self.kdriver.remove(env, &self.entries[i].patch),
                    PatchType::UserPatch => self.udriver.remove(&self.entries[i].patch),
                };
                match res {
                    Err(e) => Err(e),
                    Ok(()) => {
                        self.set_cached_status(i, PatchStatus::NotApplied);
                        Ok(())
                    },
                }
            },
            Action::Active => {
                let res = match kind {
                    PatchType::KernelPatch => self.kdriver.active(env, &self.entries[i].patch),
                    PatchType::UserPatch => self.udriver.active(env, &self.entries[i].patch),
                };
                match res {
                    Err(e) => Err(e),
                    Ok(()) => {
                        self.set_cached_status(i, PatchStatus::Actived);
                        Ok(())
                    },
                }
            },
            Action::Deactive => {
                let res = match kind {
                    PatchType::KernelPatch => self.kdriver.deactive(
                        env,
                        &self.entries[i].patch,
                        PatchOpFlag::Normal,
                    ),
                    PatchType::UserPatch => self.udriver.deactive(
                        env,
                        &self.entries[i].patch,
                        PatchOpFlag::Normal,
                    ),
                };
                match res {
                    Err(e) => Err(e),
                    Ok(()) => {
                        self.set_cached_status(i, PatchStatus::Deactived);
                        Ok(())
                    },
                }
            },
        }
    }

    /// Drives the patch at `i` from its current state to `target`.
    ///
    /// A request for the current state, or for a pair outside the
    /// transition table, is a no-op that returns the current state.  A
    /// legal transition runs its primitives in table order and stops at
    /// the first failure.
    pub fn do_status_transition(&mut self, env: &DriverEnv, i: usize, target: PatchStatus) -> (r:
        Result<PatchStatus, PatchError>)
        requires
            old(self).wf(),
            i < old(self).entries@.len(),
            target != PatchStatus::Unknown,
        ensures
            final(self).wf(),
            final(self).entries@.len() == old(self).entries@.len(),
            forall|j: int|
                0 <= j < old(self).entries@.len() && j != i ==> final(self).entries@[j].patch
                    == old(self).entries@[j].patch && final(self).entries@[j].status == old(self).entries@[j].status,
            final(self).entries@[i as int].patch == old(self).entries@[i as int].patch,
            ({
                let current = old(self).spec_resolved(env, i as int);
                match r {
                    Ok(s) => {
                        &&& (current == target ==> s == current && old(self).spec_queried(
                            env,
                            i as int,
                            *final(self),
                        ))
                        &&& (current != target && spec_transition_actions(current, target) is None
                            ==> s == current && old(self).spec_queried(env, i as int, *final(self)))
                        &&& (current != target && spec_transition_actions(current, target) is Some
                            ==> s == target && final(self).entries@[i as int].status == target
                            && (exists|mq: PatchManager|
                            old(self).spec_queried(env, i as int, mq) && spec_actions_effect(
                                mq,
                                *final(self),
                                i as int,
                                spec_transition_actions(current, target).unwrap(),
                            )))
                    },
                    Err(e) => current != target && spec_transition_actions(current, target)
                        is Some,
                }
            }),
            ({
                let current = old(self).spec_resolved(env, i as int);
                (current != target && spec_transition_actions(current, target) is Some && old(self).entries@[i as int].status != PatchStatus::Unknown && spec_actions_ok(
                    *old(self),
                    env,
                    i as int,
                    spec_transition_actions(current, target).unwrap(),
                )) ==> r is Ok
            }),
            ({
                let current = old(self).spec_resolved(env, i as int);
                (old(self).entries@[i as int].status != PatchStatus::Unknown && r is Ok && (
                current == target || spec_transition_actions(current, target) == Some(
                    seq![Action::Accept],
                ) || spec_transition_actions(current, target) == Some(seq![Action::Decline])))
                    ==> final(self).kdriver == old(self).kdriver && final(self).udriver == old(self).udriver
            }),
    {
        let ghost cache_known = old(self).entries@[i as int].status != PatchStatus::Unknown;
        let current = self.get_patch_status(env, i);
        let ghost after_query = *self;
        if current == target {
            return Ok(current);
        }
        match transition_actions(current, target) {
            None => Ok(current),
            Some(actions) => {
                let n = actions.len();
                let mut k: usize = 0;
                proof {
                    assert(spec_actions_effect(
                        after_query,
                        *self,
                        i as int,
                        actions@.take(0),
                    )) by {
                        assert(actions@.take(0).len() == 0);
                    }
                }
                let ghost hyp = cache_known && spec_actions_ok(
                    *old(self),
                    env,
                    i as int,
                    actions@,
                );
                proof {
                    crate::sm::lemma_table_last_action(current, target);
                    crate::sm::lemma_table_shape(current, target);
                    if hyp {
                        assert(self.kdriver == old(self).kdriver);
                        assert(self.udriver == old(self).udriver);
                        assert forall|z: int| 0 <= z < n implies spec_action_ok(
                            *self,
                            env,
                            i as int,
                            #[trigger] actions@[z],
                            n > 0 && actions@[0] == Action::Apply && z > 0,
                        ) by {
                            assert(spec_action_ok(
                                *old(self),
                                env,
                                i as int,
                                actions@[z],
                                actions@.len() > 0 && actions@[0] == Action::Apply && z > 0,
                            ));
                            assert(self.entries@[i as int].patch == old(self).entries@[i as int].patch);
                        }
                    }
                }
                while k < n
                    invariant
                        self.wf(),
                        n == actions@.len(),
                        n > 0,
                        0 <= k <= n,
                        i < self.entries@.len(),
                        current == old(self).spec_resolved(env, i as int),
                        current != target,
                        target != PatchStatus::Unknown,
                        spec_transition_actions(current, target) == Some(actions@),
                        cache_known == (old(self).entries@[i as int].status
                            != PatchStatus::Unknown),
                        hyp == (cache_known && spec_actions_ok(*old(self), env, i as int, actions@)),
                        self.entries@.len() == old(self).entries@.len(),
                        forall|j: int|
                            0 <= j < old(self).entries@.len() && j != i
                                ==> self.entries@[j].patch == old(self).entries@[j].patch
                                && self.entries@[j].status == old(self).entries@[j].status,
                        self.entries@[i as int].patch == old(self).entries@[i as int].patch,
                        k > 0 ==> self.entries@[i as int].status == spec_action_result(
                            actions@[k - 1],
                        ),
                        forall|z: int| 1 <= z < n ==> actions@[z] != Action::Apply,
                        actions@[0] == Action::Apply ==> forall|z: int|
                            1 <= z < n ==> actions@[z] == Action::Active || actions@[z]
                                == Action::Accept,
                        forall|z: int, w: int|
                            0 <= z < w < n && actions@[z] == Action::Deactive ==> actions@[w]
                                == Action::Remove,
                        forall|z: int, w: int|
                            0 <= z < w < n && actions@[z] == Action::Active ==> actions@[w]
                                == Action::Accept,
                        hyp ==> forall|z: int|
                            k <= z < n ==> spec_action_ok(
                                *self,
                                env,
                                i as int,
                                #[trigger] actions@[z],
                                k == 0 && actions@[0] == Action::Apply && z > 0,
                            ),
                        old(self).spec_queried(env, i as int, after_query),
                        spec_actions_effect(after_query, *self, i as int, actions@.take(k as int)),
                        (cache_known && (forall|z: int|
                            0 <= z < n ==> actions@[z] == Action::Accept || #[trigger] actions@[z]
                                == Action::Decline)) ==> self.kdriver == old(self).kdriver
                            && self.udriver == old(self).udriver,
                    decreases n - k,
                {
                    let a = actions[k];
                    let ghost at_call = *self;
                    match self.run_action(env, i, a) {
                        Err(e) => {
                            proof {
                                if hyp {
                                    assert(spec_action_ok(at_call, env, i as int, a, false));
                                    assert(false);
                                }
                                assert(!hyp);
                                assert(!(cache_known && spec_actions_ok(
                                    *old(self),
                                    env,
                                    i as int,
                                    actions@,
                                )));
                                assert(spec_transition_actions(
                                    old(self).spec_resolved(env, i as int),
                                    target,
                                ) == Some(actions@));
                            }
                            return Err(e);
                        },
                        Ok(()) => {},
                    }
                    proof {
                        lemma_actions_effect_push(
                            after_query,
                            at_call,
                            *self,
                            i as int,
                            actions@.take(k as int),
                            actions@[k as int],
                        );
                        assert(actions@.take(k as int).push(actions@[k as int]) =~= actions@.take(
                            k as int + 1,
                        ));
                        if hyp {
                            assert forall|z: int| k + 1 <= z < n implies spec_action_ok(
                                *self,
                                env,
                                i as int,
                                #[trigger] actions@[z],
                                false,
                            ) by {
                                assert(spec_action_ok(
                                    at_call,
                                    env,
                                    i as int,
                                    actions@[z],
                                    k == 0 && actions@[0] == Action::Apply && z > 0,
                                ));
                                if a == Action::Accept || a == Action::Decline {
                                    assert(self.kdriver == at_call.kdriver);
                                    assert(self.udriver == at_call.udriver);
                                } else if a == Action::Apply {
                                    assert(k == 0);
                                    assert(actions@[z] == Action::Active || actions@[z]
                                        == Action::Accept);
                                    if actions@[z] == Action::Active {
                                        assert(spec_apply_effect(at_call, *self, i as int));
                                    }
                                } else if a == Action::Deactive {
                                    assert(actions@[z] == Action::Remove);
                                } else if a == Action::Active {
                                    assert(actions@[z] == Action::Accept);
                                }
                            }
                        }
                    }
                    k = k + 1;
                }
                proof {
                    crate::sm::lemma_table_last_action(current, target);
                    assert(actions@[n - 1] == actions@.last());
                    assert(self.entries@[i as int].status == target);
                    assert(actions@.take(n as int) =~= actions@);
                    assert(spec_actions_effect(after_query, *self, i as int, actions@));
                }
                let newst = self.entries[i].status;
                if newst != target {
                    return Err(
                        PatchError::of(
                            ErrorKind::InvalidTransition,
                            "Patch did not reach the requested status",
                        ),
                    );
                }
                Ok(newst)
            },
        }
    }

    /// Applies and activates the patch at `i`.
    pub fn apply_patch(&mut self, env: &DriverEnv, i: usize) -> (r: Result<
        PatchStatus,
        PatchError,
    >)
        requires
            old(self).wf(),
            i < old(self).entries@.len(),
        ensures
            final(self).wf(),
            final(self).entries@.len() == old(self).entries@.len(),
            final(self).entries@[i as int].patch == old(self).entries@[i as int].patch,
            forall|j: int|
                0 <= j < old(self).entries@.len() && j != i ==> final(self).entries@[j].patch
                    == old(self).entries@[j].patch && final(self).entries@[j].status == old(self).entries@[j].status,
            ({
                let current = old(self).spec_resolved(env, i as int);
                match r {
                    Ok(s) => s == PatchStatus::Actived || (current == PatchStatus::Accepted && s
                        == PatchStatus::Accepted),
                    Err(e) => true,
                }
            }),
            ({
                let current = old(self).spec_resolved(env, i as int);
                (old(self).entries@[i as int].status != PatchStatus::Unknown && (current
                    == PatchStatus::Actived || current == PatchStatus::Accepted
                    || spec_actions_ok(
                    *old(self),
                    env,
                    i as int,
                    spec_transition_actions(current, PatchStatus::Actived).unwrap(),
                ))) ==> r is Ok
            }),
            ({
                let current = old(self).spec_resolved(env, i as int);
                r is Ok ==> exists|mq: PatchManager|
                    old(self).spec_queried(env, i as int, mq) && (if current
                        == PatchStatus::Actived {
                        *final(self) == mq
                    } else if spec_transition_actions(current, PatchStatus::Actived) is Some {
                        spec_actions_effect(
                            mq,
                            *final(self),
                            i as int,
                            spec_transition_actions(current, PatchStatus::Actived).unwrap(),
                        )
                    } else {
                        *final(self) == mq
                    })
            }),
    {
        let ghost current = old(self).spec_resolved(env, i as int);
        proof {
            lemma_resolved_not_unknown(&*old(self), env, i as int);
        }
        let r = self.do_status_transition(env, i, PatchStatus::Actived);
        proof {
            if r is Ok && current != PatchStatus::Actived {
                if spec_transition_actions(current, PatchStatus::Actived) is None {
                    assert(current == PatchStatus::Accepted);
                }
            }
        }
        r
    }

    /// Removes the patch at `i` entirely.
    pub fn remove_patch(&mut self, env: &DriverEnv, i: usize) -> (r: Result<
        PatchStatus,
        PatchError,
    >)
        requires
            old(self).wf(),
            i < old(self).entries@.len(),
        ensures
            final(self).wf(),
            final(self).entries@.len() == old(self).entries@.len(),
            final(self).entries@[i as int].patch == old(self).entries@[i as int].patch,
            forall|j: int|
                0 <= j < old(self).entries@.len() && j != i ==> final(self).entries@[j].patch
                    == old(self).entries@[j].patch && final(self).entries@[j].status == old(self).entries@[j].status,
            match r {
                Ok(s) => s == PatchStatus::NotApplied && final(self).entries@[i as int].status
                    == PatchStatus::NotApplied,
                Err(e) => true,
            },
            ({
                let current = old(self).spec_resolved(env, i as int);
                (old(self).entries@[i as int].status != PatchStatus::Unknown && (current
                    == PatchStatus::NotApplied || spec_actions_ok(
                    *old(self),
                    env,
                    i as int,
                    spec_transition_actions(current, PatchStatus::NotApplied).unwrap(),
                ))) ==> r is Ok
            }),
            ({
                let current = old(self).spec_resolved(env, i as int);
                r is Ok ==> exists|mq: PatchManager|
                    old(self).spec_queried(env, i as int, mq) && (if current
                        == PatchStatus::NotApplied {
                        *final(self) == mq
                    } else {
                        spec_actions_effect(
                            mq,
                            *final(self),
                            i as int,
                            spec_transition_actions(current, PatchStatus::NotApplied).unwrap(),
                        )
                    })
            }),
            ({
                let p = old(self).entries@[i as int].patch;
                let current = old(self).spec_resolved(env, i as int);
                r is Ok ==> (if p.spec_kind() == PatchType::KernelPatch {
                    forall|m: Seq<u8>, sym: Seq<u8>|
                        final(self).kdriver.covers_in(m, p.uuid@, sym) ==> (current
                            == PatchStatus::NotApplied || current == PatchStatus::Deactived)
                            && old(self).kdriver.covers_in(m, p.uuid@, sym)
                } else {
                    forall|f: Seq<u8>|
                        final(self).udriver.user_covers(
                            p.spec_user_ext().target_elf@,
                            p.uuid@,
                            f,
                        ) ==> (current == PatchStatus::NotApplied || current
                            == PatchStatus::Deactived) && old(self).udriver.user_covers(
                            p.spec_user_ext().target_elf@,
                            p.uuid@,
                            f,
                        )
                })
            }),
    {
        let ghost current = old(self).spec_resolved(env, i as int);
        proof {
            lemma_resolved_not_unknown(&*old(self), env, i as int);
        }
        let r = self.do_status_transition(env, i, PatchStatus::NotApplied);
        proof {
            if r is Ok && current != PatchStatus::NotApplied {
                if spec_transition_actions(current, PatchStatus::NotApplied) is None {
                    assert(current == PatchStatus::Accepted);
                }
            }
            if r is Ok {
                let p = old(self).entries@[i as int].patch;
                if current == PatchStatus::NotApplied {
                    assert(old(self).spec_queried(env, i as int, *self));
                    if p.spec_kind() == PatchType::KernelPatch {
                        crate::kdriver::lemma_kernel_covers_eq(self.kdriver, old(self).kdriver);
                    }
                } else {
                    let actions = spec_transition_actions(
                        current,
                        PatchStatus::NotApplied,
                    ).unwrap();
                    let mq = choose|mq: PatchManager|
                        old(self).spec_queried(env, i as int, mq) && spec_actions_effect(
                            mq,
                            *self,
                            i as int,
                            actions,
                        );
                    if p.spec_kind() == PatchType::KernelPatch {
                        crate::kdriver::lemma_kernel_covers_eq(mq.kdriver, old(self).kdriver);
                    }
                    assert(mq.entries@[i as int].patch == p);
                    if current == PatchStatus::Deactived {
                        assert(actions =~= seq![Action::Remove]);
                        let mid = choose|mid: PatchManager|
                            #[trigger] spec_action_effect(mq, mid, i as int, actions[0])
                                && spec_actions_effect(mid, *self, i as int, actions.skip(1));
                        assert(actions.skip(1).len() == 0);
                        assert(*self == mid);
                        if p.spec_kind() == PatchType::KernelPatch {
                            crate::kdriver::lemma_kernel_covers_eq(mid.kdriver, mq.kdriver);
                        }
                    } else {
                        // The list opens with a deactivation (after a
                        // decline for a frozen patch), which clears the
                        // patch's own records; removal keeps them out.
                        if current == PatchStatus::Actived {
                            assert(actions =~= seq![Action::Deactive, Action::Remove]);
                            let mid1 = choose|mid1: PatchManager|
                                #[trigger] spec_action_effect(mq, mid1, i as int, actions[0])
                                    && spec_actions_effect(
                                    mid1,
                                    *self,
                                    i as int,
                                    actions.skip(1),
                                );
                            assert(actions.skip(1) =~= seq![Action::Remove]);
                            let mid2 = choose|mid2: PatchManager|
                                #[trigger] spec_action_effect(
                                    mid1,
                                    mid2,
                                    i as int,
                                    actions.skip(1)[0],
                                ) && spec_actions_effect(
                                    mid2,
                                    *self,
                                    i as int,
                                    actions.skip(1).skip(1),
                                );
                            assert(actions.skip(1).skip(1).len() == 0);
                            assert(*self == mid2);
                            assert(mid1.entries@[i as int].patch == p);
                            if p.spec_kind() == PatchType::KernelPatch {
                                crate::kdriver::lemma_kernel_covers_eq(mid2.kdriver, mid1.kdriver);
                            }
                        } else {
                            assert(current == PatchStatus::Accepted);
                            assert(actions =~= seq![
                                Action::Decline,
                                Action::Deactive,
                                Action::Remove,
                            ]);
                            let mid0 = choose|mid0: PatchManager|
                                #[trigger] spec_action_effect(mq, mid0, i as int, actions[0])
                                    && spec_actions_effect(
                                    mid0,
                                    *self,
                                    i as int,
                                    actions.skip(1),
                                );
                            assert(actions.skip(1) =~= seq![Action::Deactive, Action::Remove]);
                            let mid1 = choose|mid1: PatchManager|
                                #[trigger] spec_action_effect(
                                    mid0,
                                    mid1,
                                    i as int,
                                    actions.skip(1)[0],
                                ) && spec_actions_effect(
                                    mid1,
                                    *self,
                                    i as int,
                                    actions.skip(1).skip(1),
                                );
                            assert(actions.skip(1).skip(1) =~= seq![Action::Remove]);
                            let mid2 = choose|mid2: PatchManager|
                                #[trigger] spec_action_effect(
                                    mid1,
                                    mid2,
                                    i as int,
                                    actions.skip(1).skip(1)[0],
                                ) && spec_actions_effect(
                                    mid2,
                                    *self,
                                    i as int,
                                    actions.skip(1).skip(1).skip(1),
                                );
                            assert(actions.skip(1).skip(1).skip(1).len() == 0);
                            assert(*self == mid2);
                            assert(mid0.entries@[i as int].patch == p);
                            assert(mid1.entries@[i as int].patch == p);
                            if p.spec_kind() == PatchType::KernelPatch {
                                crate::kdriver::lemma_kernel_covers_eq(mid2.kdriver, mid1.kdriver);
                            }
                        }
                    }
                }
                // Conclude the registry clause from the chain facts.
                if p.spec_kind() == PatchType::KernelPatch {
                    assert forall|m: Seq<u8>, sym: Seq<u8>|
                        self.kdriver.covers_in(m, p.uuid@, sym) implies (current
                            == PatchStatus::NotApplied || current == PatchStatus::Deactived)
                            && old(self).kdriver.covers_in(m, p.uuid@, sym) by {}
                } else {
                    let elf = p.spec_user_ext().target_elf@;
                    assert forall|f: Seq<u8>|
                        self.udriver.user_covers(elf, p.uuid@, f) implies (current
                            == PatchStatus::NotApplied || current == PatchStatus::Deactived)
                            && old(self).udriver.user_covers(elf, p.uuid@, f) by {
                        if current != PatchStatus::NotApplied {
                            let actions = spec_transition_actions(
                                current,
                                PatchStatus::NotApplied,
                            ).unwrap();
                            let mq = choose|mq: PatchManager|
                                old(self).spec_queried(env, i as int, mq) && spec_actions_effect(
                                    mq,
                                    *self,
                                    i as int,
                                    actions,
                                );
                            if current == PatchStatus::Deactived {
                                let mid = choose|mid: PatchManager|
                                    #[trigger] spec_action_effect(mq, mid, i as int, actions[0])
                                        && spec_actions_effect(
                                        mid,
                                        *self,
                                        i as int,
                                        actions.skip(1),
                                    );
                                assert(*self == mid);
                                assert(mid.udriver.user_covers(elf, p.uuid@, f) ==> mq.udriver.user_covers(
                                    elf,
                                    p.uuid@,
                                    f,
                                ));
                            } else if current == PatchStatus::Actived {
                                let mid1 = choose|mid1: PatchManager|
                                    #[trigger] spec_action_effect(mq, mid1, i as int, actions[0])
                                        && spec_actions_effect(
                                        mid1,
                                        *self,
                                        i as int,
                                        actions.skip(1),
                                    );
                                let mid2 = choose|mid2: PatchManager|
                                    #[trigger] spec_action_effect(
                                        mid1,
                                        mid2,
                                        i as int,
                                        actions.skip(1)[0],
                                    ) && spec_actions_effect(
                                        mid2,
                                        *self,
                                        i as int,
                                        actions.skip(1).skip(1),
                                    );
                                assert(*self == mid2);
                                assert(!mid1.udriver.user_covers(elf, p.uuid@, f));
                                assert(mid2.udriver.user_covers(elf, p.uuid@, f)
                                    ==> mid1.udriver.user_covers(elf, p.uuid@, f));
                                assert(false);
                            } else {
                                let mid0 = choose|mid0: PatchManager|
                                    #[trigger] spec_action_effect(mq, mid0, i as int, actions[0])
                                        && spec_actions_effect(
                                        mid0,
                                        *self,
                                        i as int,
                                        actions.skip(1),
                                    );
                                let mid1 = choose|mid1: PatchManager|
                                    #[trigger] spec_action_effect(
                                        mid0,
                                        mid1,
                                        i as int,
                                        actions.skip(1)[0],
                                    ) && spec_actions_effect(
                                        mid1,
                                        *self,
                                        i as int,
                                        actions.skip(1).skip(1),
                                    );
                                let mid2 = choose|mid2: PatchManager|
                                    #[trigger] spec_action_effect(
                                        mid1,
                                        mid2,
                                        i as int,
                                        actions.skip(1).skip(1)[0],
                                    ) && spec_actions_effect(
                                        mid2,
                                        *self,
                                        i as int,
                                        actions.skip(1).skip(1).skip(1),
                                    );
                                assert(*self == mid2);
                                assert(!mid1.udriver.user_covers(elf, p.uuid@, f));
                                assert(mid2.udriver.user_covers(elf, p.uuid@, f)
                                    ==> mid1.udriver.user_covers(elf, p.uuid@, f));
                                assert(false);
                            }
                        }
                    }
                }
            }
        }
        r
    }

    /// Activates the applied patch at `i`.  Fails with
    /// `InvalidTransition` when the patch is not applied.
    pub fn active_patch(&mut self, env: &DriverEnv, i: usize) -> (r: Result<
        PatchStatus,
        PatchError,
    >)
        requires
            old(self).wf(),
            i < old(self).entries@.len(),
        ensures
            final(self).wf(),
            final(self).entries@.len() == old(self).entries@.len(),
            final(self).entries@[i as int].patch == old(self).entries@[i as int].patch,
            forall|j: int|
                0 <= j < old(self).entries@.len() && j != i ==> final(self).entries@[j].patch
                    == old(self).entries@[j].patch && final(self).entries@[j].status == old(self).entries@[j].status,
            match r {
                Ok(s) => s == PatchStatus::Actived && final(self).entries@[i as int].status
                    == PatchStatus::Actived && old(self).spec_resolved(env, i as int)
                    != PatchStatus::NotApplied,
                Err(e) => true,
            },
            ({
                let current = old(self).spec_resolved(env, i as int);
                (old(self).entries@[i as int].status != PatchStatus::Unknown && current
                    != PatchStatus::NotApplied && (current == PatchStatus::Actived || current
                    == PatchStatus::Accepted || spec_actions_ok(
                    *old(self),
                    env,
                    i as int,
                    spec_transition_actions(current, PatchStatus::Actived).unwrap(),
                ))) ==> r is Ok
            }),
            ({
                let current = old(self).spec_resolved(env, i as int);
                r is Ok ==> exists|mq: PatchManager|
                    old(self).spec_queried(env, i as int, mq) && (if current
                        == PatchStatus::Actived {
                        *final(self) == mq
                    } else {
                        spec_actions_effect(
                            mq,
                            *final(self),
                            i as int,
                            spec_transition_actions(current, PatchStatus::Actived).unwrap(),
                        )
                    })
            }),
    {
        let ghost rcur = old(self).spec_resolved(env, i as int);
        let current = self.get_patch_status(env, i);
        let ghost s1 = *self;
        if current == PatchStatus::NotApplied {
            return Err(PatchError::of(ErrorKind::InvalidTransition, "Patch is not applied"));
        }
        proof {
            lemma_resolved_not_unknown(&*old(self), env, i as int);
        }
        let r = self.do_status_transition(env, i, PatchStatus::Actived);
        match r {
            Ok(s) => {
                proof {
                    if current != PatchStatus::Actived {
                        if spec_transition_actions(current, PatchStatus::Actived) is None {
                            assert(false);
                        }
                        let mq2 = choose|mq2: PatchManager|
                            s1.spec_queried(env, i as int, mq2) && spec_actions_effect(
                                mq2,
                                *self,
                                i as int,
                                spec_transition_actions(current, PatchStatus::Actived).unwrap(),
                            );
                        lemma_queried_trans(*old(self), s1, mq2, env, i as int);
                    } else {
                        assert(s1.spec_queried(env, i as int, *self));
                        lemma_queried_trans(*old(self), s1, *self, env, i as int);
                    }
                }
                Ok(s)
            },
            Err(e) => Err(e),
        }
    }

    /// Deactivates the patch at `i`.  Fails with `InvalidTransition`
    /// when the patch is not applied.
    pub fn deactive_patch(&mut self, env: &DriverEnv, i: usize) -> (r: Result<
        PatchStatus,
        PatchError,
    >)
        requires
            old(self).wf(),
            i < old(self).entries@.len(),
        ensures
            final(self).wf(),
            final(self).entries@.len() == old(self).entries@.len(),
            final(self).entries@[i as int].patch == old(self).entries@[i as int].patch,
            forall|j: int|
                0 <= j < old(self).entries@.len() && j != i ==> final(self).entries@[j].patch
                    == old(self).entries@[j].patch && final(self).entries@[j].status == old(self).entries@[j].status,
            match r {
                Ok(s) => s == PatchStatus::Deactived && final(self).entries@[i as int].status
                    == PatchStatus::Deactived && old(self).spec_resolved(env, i as int)
                    != PatchStatus::NotApplied,
                Err(e) => true,
            },
            ({
                let current = old(self).spec_resolved(env, i as int);
                (old(self).entries@[i as int].status != PatchStatus::Unknown && current
                    != PatchStatus::NotApplied && (current == PatchStatus::Deactived
                    || spec_actions_ok(
                    *old(self),
                    env,
                    i as int,
                    spec_transition_actions(current, PatchStatus::Deactived).unwrap(),
                ))) ==> r is Ok
            }),
            ({
                let current = old(self).spec_resolved(env, i as int);
                r is Ok ==> exists|mq: PatchManager|
                    old(self).spec_queried(env, i as int, mq) && (if current
                        == PatchStatus::Deactived {
                        *final(self) == mq
                    } else {
                        spec_actions_effect(
                            mq,
                            *final(self),
                            i as int,
                            spec_transition_actions(current, PatchStatus::Deactived).unwrap(),
                        )
                    })
            }),
    {
        let current = self.get_patch_status(env, i);
        let ghost s1 = *self;
        if current == PatchStatus::NotApplied {
            return Err(PatchError::of(ErrorKind::InvalidTransition, "Patch is not applied"));
        }
        proof {
            lemma_resolved_not_unknown(&*old(self), env, i as int);
        }
        let r = self.do_status_transition(env, i, PatchStatus::Deactived);
        match r {
            Ok(s) => {
                proof {
                    if current != PatchStatus::Deactived {
                        if spec_transition_actions(current, PatchStatus::Deactived) is None {
                            assert(false);
                        }
                        let mq2 = choose|mq2: PatchManager|
                            s1.spec_queried(env, i as int, mq2) && spec_actions_effect(
                                mq2,
                                *self,
                                i as int,
                                spec_transition_actions(current, PatchStatus::Deactived).unwrap(),
                            );
                        lemma_queried_trans(*old(self), s1, mq2, env, i as int);
                    } else {
                        assert(s1.spec_queried(env, i as int, *self));
                        lemma_queried_trans(*old(self), s1, *self, env, i as int);
                    }
                }
                Ok(s)
            },
            Err(e) => Err(e),
        }
    }

    /// Freezes the active patch at `i` against automatic rollback.
    /// Fails with `InvalidTransition` when the patch is not active.
    pub fn accept_patch(&mut self, env: &DriverEnv, i: usize) -> (r: Result<
        PatchStatus,
        PatchError,
    >)
        requires
            old(self).wf(),
            i < old(self).entries@.len(),
        ensures
            final(self).wf(),
            final(self).entries@.len() == old(self).entries@.len(),
            final(self).entries@[i as int].patch == old(self).entries@[i as int].patch,
            forall|j: int|
                0 <= j < old(self).entries@.len() && j != i ==> final(self).entries@[j].patch
                    == old(self).entries@[j].patch && final(self).entries@[j].status == old(self).entries@[j].status,
            match r {
                Ok(s) => s == PatchStatus::Accepted && final(self).entries@[i as int].status
                    == PatchStatus::Accepted && old(self).spec_resolved(env, i as int)
                    == PatchStatus::Actived,
                Err(e) => true,
            },
            (old(self).entries@[i as int].status != PatchStatus::Unknown && old(self).spec_resolved(env, i as int) == PatchStatus::Actived) ==> r is Ok,
            (old(self).entries@[i as int].status != PatchStatus::Unknown && r is Ok) ==> final(self).kdriver == old(self).kdriver && final(self).udriver == old(self).udriver,
            r is Ok ==> exists|mq: PatchManager|
                old(self).spec_queried(env, i as int, mq) && spec_actions_effect(
                    mq,
                    *final(self),
                    i as int,
                    seq![Action::Accept],
                ),
    {
        let current = self.get_patch_status(env, i);
        let ghost s1 = *self;
        if current != PatchStatus::Actived {
            return Err(PatchError::of(ErrorKind::InvalidTransition, "Patch is not actived"));
        }
        proof {
            if old(self).entries@[i as int].status != PatchStatus::Unknown {
                let actions = spec_transition_actions(
                    PatchStatus::Actived,
                    PatchStatus::Accepted,
                ).unwrap();
                assert forall|k: int| 0 <= k < actions.len() implies spec_action_ok(
                    *old(self),
                    env,
                    i as int,
                    #[trigger] actions[k],
                    actions.len() > 0 && actions[0] == Action::Apply && k > 0,
                ) by {
                    assert(actions[k] == Action::Accept);
                }
                assert(spec_actions_ok(*old(self), env, i as int, actions));
            }
        }
        let r = self.do_status_transition(env, i, PatchStatus::Accepted);
        proof {
            if r is Ok {
                assert(spec_transition_actions(PatchStatus::Actived, PatchStatus::Accepted)
                    == Some(seq![Action::Accept]));
                let mq2 = choose|mq2: PatchManager|
                    s1.spec_queried(env, i as int, mq2) && spec_actions_effect(
                        mq2,
                        *self,
                        i as int,
                        spec_transition_actions(
                            PatchStatus::Actived,
                            PatchStatus::Accepted,
                        ).unwrap(),
                    );
                lemma_queried_trans(*old(self), s1, mq2, env, i as int);
            }
        }
        r
    }
}

/// The scanned patch at `k` will be ingested: well formed, its uuid
/// new against the map and against the earlier scanned patches, and —
/// for a user patch — consistent with the driver's records.
pub open spec fn spec_scan_admissible(m0: PatchManager, scanned: Seq<Patch>, k: int) -> bool {
    &&& scanned[k].wf()
    &&& (scanned[k].spec_kind() == PatchType::UserPatch ==> m0.udriver.uuid_elf_ok(
        scanned[k].uuid@,
        scanned[k].spec_user_ext().target_elf@,
    ))
    &&& forall|j: int|
        0 <= j < m0.entries@.len() ==> spec_uuid_bytes(&m0.entries@[j].patch) != spec_uuid_bytes(
            &scanned[k],
        )
    &&& forall|k2: int|
        0 <= k2 < k ==> spec_uuid_bytes(&scanned[k2]) != spec_uuid_bytes(&scanned[k])
}

/// Every scanned patch's uuid already has an entry.
pub open spec fn spec_all_scanned_known(entries: Seq<PatchEntry>, scanned: Seq<Patch>) -> bool {
    forall|k: int| #![trigger scanned[k]]
        0 <= k < scanned.len() ==> exists|j: int|
            0 <= j < entries.len() && spec_uuid_bytes(&entries[j].patch) == spec_uuid_bytes(
                &scanned[k],
            )
}

/// Entries sorted by entity name in byte order.
pub open spec fn spec_entries_sorted(entries: Seq<PatchEntry>) -> bool {
    forall|a: int, b: int|
        0 <= a < b < entries.len() ==> crate::bytestr::spec_lex_le(
            vstd::utf8::encode_utf8(entries[a].patch.entity_name@),
            vstd::utf8::encode_utf8(entries[b].patch.entity_name@),
        )
}

impl PatchManager {
    /// Resolves every unknown status, then serialises the snapshot the
    /// caller writes to the `patch_status` file.
    pub fn save_patch_status(&mut self, env: &DriverEnv) -> (r: Vec<u8>)
        requires
            old(self).wf(),
        ensures
            final(self).wf(),
            final(self).entries@.len() == old(self).entries@.len(),
            forall|j: int|
                0 <= j < old(self).entries@.len() ==> final(self).entries@[j].patch == old(self).entries@[j].patch && final(self).entries@[j].status == old(self).spec_resolved(
                    env,
                    j,
                ) && final(self).entries@[j].status != PatchStatus::Unknown,
            r@ == crate::codec::spec_serialize(
                Seq::new(
                    final(self).entries@.len() as nat,
                    |j: int|
                        (
                            spec_uuid_bytes(&final(self).entries@[j].patch),
                            final(self).entries@[j].status,
                        ),
                ),
            ),
    {
        let n = self.entries.len();
        let mut i: usize = 0;
        while i < n
            invariant
                self.wf(),
                n == self.entries@.len(),
                n == old(self).entries@.len(),
                0 <= i <= n,
                forall|j: int|
                    0 <= j < i ==> self.entries@[j].patch == old(self).entries@[j].patch
                        && self.entries@[j].status == old(self).spec_resolved(env, j)
                        && self.entries@[j].status != PatchStatus::Unknown,
                forall|j: int| i <= j < n ==> self.entries@[j] == old(self).entries@[j],
                forall|j: int|
                    0 <= j < n ==> self.spec_resolved(env, j) == old(self).spec_resolved(env, j),
            decreases n - i,
        {
            let ghost pre = *self;
            let _ = self.get_patch_status(env, i);
            proof {
                assert forall|j: int|
                    0 <= j < n implies self.spec_resolved(env, j) == old(self).spec_resolved(
                    env,
                    j,
                ) by {
                    assert(self.spec_resolved(env, j) == pre.spec_resolved(env, j));
                }
            }
            i = i + 1;
        }
        let ghost resolved = *self;
        let mut pairs: Vec<(Vec<u8>, PatchStatus)> = Vec::new();
        let mut k: usize = 0;
        while k < n
            invariant
                self.wf(),
                n == self.entries@.len(),
                0 <= k <= n,
                pairs@.len() == k,
                forall|j: int|
                    0 <= j < k ==> (#[trigger] pairs@[j]).0@ == spec_uuid_bytes(
                        &self.entries@[j].patch,
                    ) && pairs@[j].1 == self.entries@[j].status,
                *self == resolved,
            decreases n - k,
        {
            let uuid_bytes = self.entries[k].patch.uuid.as_str().as_bytes_vec();
            let st = self.entries[k].status;
            pairs.push((uuid_bytes, st));
            k = k + 1;
        }
        let r = crate::codec::serialize_status(&pairs);
        proof {
            assert(crate::codec::spec_pairs_view(pairs@) =~= Seq::new(
                self.entries@.len() as nat,
                |j: int| (spec_uuid_bytes(&self.entries@[j].patch), self.entries@[j].status),
            ));
        }
        r
    }

    /// Replays a status snapshot: entries for unknown or filtered
    /// uuids are skipped, the rest are driven toward their saved
    /// statuses in ascending status order — removals before
    /// applications — and the first failed transition is returned.  A
    /// missing file (`None`) is not an error and changes nothing.
    pub fn restore_patch_status(&mut self, env: &DriverEnv, content: Option<&Vec<u8>>, accepted_only: bool) -> (r: Result<(), PatchError>)
        requires
            old(self).wf(),
        ensures
            final(self).wf(),
            final(self).entries@.len() == old(self).entries@.len(),
            forall|j: int|
                0 <= j < old(self).entries@.len() ==> final(self).entries@[j].patch == old(self).entries@[j].patch,
            content is None ==> *final(self) == *old(self),
            match r {
                Ok(()) => content is Some ==> (crate::codec::spec_parse(content.unwrap()@)
                    is Some && exists|plan: Seq<(int, PatchStatus)>|
                    spec_plan_ok(
                        *old(self),
                        crate::codec::spec_parse(content.unwrap()@).unwrap(),
                        accepted_only,
                        plan,
                    ) && spec_replay_effect(*old(self), *final(self), env, plan)),
                Err(e) => content is Some && ((e.kind == ErrorKind::InvalidFormat
                    && crate::codec::spec_parse(content.unwrap()@) is None)
                    || crate::codec::spec_parse(content.unwrap()@) is Some),
            },
    {
        let bytes = match content {
            None => {
                return Ok(());
            },
            Some(b) => b,
        };
        let parsed = match crate::codec::parse_status(bytes.as_slice()) {
            Err(e) => {
                return Err(e);
            },
            Ok(p) => p,
        };
        let ghost pairs = crate::codec::spec_pairs_view(parsed@);
        let mut work: Vec<(usize, PatchStatus)> = Vec::new();
        let m = parsed.len();
        let mut k: usize = 0;
        while k < m
            invariant
                self.wf(),
                *self == *old(self),
                m == parsed@.len(),
                crate::codec::spec_parse(bytes@) == Some(crate::codec::spec_pairs_view(parsed@)),
                pairs == crate::codec::spec_pairs_view(parsed@),
                0 <= k <= m,
                forall|z: int|
                    0 <= z < work@.len() ==> 0 <= (#[trigger] work@[z]).0 < self.entries@.len()
                        && work@[z].1 != PatchStatus::Unknown && (accepted_only ==> work@[z].1
                        == PatchStatus::Accepted) && exists|q: int|
                        0 <= q < pairs.len() && (#[trigger] pairs[q]).1 == work@[z].1
                            && spec_uuid_bytes(&self.entries@[work@[z].0 as int].patch)
                            == pairs[q].0,
                forall|q: int|
                    0 <= q < k && (!accepted_only || (#[trigger] pairs[q]).1
                        == PatchStatus::Accepted) && (exists|j: int|
                        0 <= j < self.entries@.len() && spec_uuid_bytes(&self.entries@[j].patch)
                            == pairs[q].0) ==> exists|z: int|
                        0 <= z < work@.len() && (#[trigger] work@[z]).1 == pairs[q].1
                            && spec_uuid_bytes(&self.entries@[work@[z].0 as int].patch)
                            == pairs[q].0,
            decreases m - k,
        {
            let ghost prev_work = work@;
            let st = parsed[k].1;
            proof {
                crate::codec::lemma_parse_no_unknown(bytes@);
                assert(pairs[k as int].1 == parsed@[k as int].1);
            }
            if !(accepted_only && !matches!(st, PatchStatus::Accepted)) {
                let mut found: Option<usize> = None;
                let n = self.entries.len();
                let mut j: usize = 0;
                while found.is_none() && j < n
                    invariant
                        *self == *old(self),
                        n == self.entries@.len(),
                        0 <= j <= n,
                        k < parsed@.len(),
                        pairs == crate::codec::spec_pairs_view(parsed@),
                        match found {
                            Some(f) => f < n && spec_uuid_bytes(&self.entries@[f as int].patch)
                                == pairs[k as int].0,
                            None => forall|j2: int|
                                0 <= j2 < j ==> spec_uuid_bytes(&self.entries@[j2].patch)
                                    != pairs[k as int].0,
                        },
                    decreases n - j + (if found is Some { 0int } else { 1int }),
                {
                    if bytes_eq(
                        self.entries[j].patch.uuid.as_str().as_bytes(),
                        parsed[k].0.as_slice(),
                    ) {
                        proof {
                            assert(pairs[k as int].0 == parsed@[k as int].0@);
                        }
                        found = Some(j);
                    } else {
                        j = j + 1;
                    }
                }
                match found {
                    Some(f) => {
                        work.push((f, st));
                        proof {
                            assert(work@[prev_work.len() as int] == (f, st));
                            assert(pairs[k as int].1 == st);
                            assert(exists|z: int|
                                0 <= z < work@.len() && (#[trigger] work@[z]).1 == pairs[k as int].1
                                    && spec_uuid_bytes(&self.entries@[work@[z].0 as int].patch)
                                    == pairs[k as int].0) by {
                                assert(work@[prev_work.len() as int].1 == pairs[k as int].1
                                    && spec_uuid_bytes(
                                    &self.entries@[work@[prev_work.len() as int].0 as int].patch,
                                ) == pairs[k as int].0);
                            }
                            assert forall|z: int|
                                0 <= z < work@.len() implies 0 <= (#[trigger] work@[z]).0
                                < self.entries@.len() && work@[z].1 != PatchStatus::Unknown && (
                            accepted_only ==> work@[z].1 == PatchStatus::Accepted) && exists|
                                q: int,
                            |
                                0 <= q < pairs.len() && (#[trigger] pairs[q]).1 == work@[z].1
                                    && spec_uuid_bytes(&self.entries@[work@[z].0 as int].patch)
                                    == pairs[q].0 by {
                                if z < prev_work.len() {
                                    assert(work@[z] == prev_work[z]);
                                } else {
                                    assert(pairs[k as int].1 == work@[z].1 && spec_uuid_bytes(
                                        &self.entries@[work@[z].0 as int].patch,
                                    ) == pairs[k as int].0);
                                }
                            }
                        }
                    },
                    None => {
                        proof {
                            assert(forall|j2: int|
                                0 <= j2 < self.entries@.len() ==> spec_uuid_bytes(
                                    &self.entries@[j2].patch,
                                ) != pairs[k as int].0);
                        }
                    },
                }
            } else {
                proof {
                    assert(accepted_only && pairs[k as int].1 != PatchStatus::Accepted);
                }
            }
            proof {
                assert forall|q: int|
                    0 <= q < k + 1 && (!accepted_only || (#[trigger] pairs[q]).1
                        == PatchStatus::Accepted) && (exists|j2: int|
                        0 <= j2 < self.entries@.len() && spec_uuid_bytes(&self.entries@[j2].patch)
                            == pairs[q].0) implies exists|z: int|
                        0 <= z < work@.len() && (#[trigger] work@[z]).1 == pairs[q].1
                            && spec_uuid_bytes(&self.entries@[work@[z].0 as int].patch)
                            == pairs[q].0 by {
                    if q < k {
                        let z = choose|z: int|
                            0 <= z < prev_work.len() && (#[trigger] prev_work[z]).1 == pairs[q].1
                                && spec_uuid_bytes(&self.entries@[prev_work[z].0 as int].patch)
                                == pairs[q].0;
                        assert(work@[z] == prev_work[z]);
                    }
                }
            }
            k = k + 1;
        }
        let ghost all_work = work@;
        let mut sorted: Vec<(usize, PatchStatus)> = Vec::new();
        let mut rest = work;
        proof {
            broadcast use vstd::seq_lib::group_to_multiset_ensures;
            broadcast use vstd::multiset::group_multiset_axioms;

            assert(sorted@.to_multiset().add(rest@.to_multiset()) =~= all_work.to_multiset());
        }
        while rest.len() > 0
            invariant
                self.wf(),
                *self == *old(self),
                sorted@.to_multiset().add(rest@.to_multiset()) == all_work.to_multiset(),
                forall|z: int|
                    0 <= z < rest@.len() ==> 0 <= (#[trigger] rest@[z]).0 < self.entries@.len()
                        && rest@[z].1 != PatchStatus::Unknown,
                forall|z: int|
                    0 <= z < sorted@.len() ==> 0 <= (#[trigger] sorted@[z]).0
                        < self.entries@.len() && sorted@[z].1 != PatchStatus::Unknown,
                forall|a: int, b: int|
                    0 <= a < b < sorted@.len() ==> sorted@[a].1.rank() <= sorted@[b].1.rank(),
                forall|a: int, b: int|
                    0 <= a < sorted@.len() && 0 <= b < rest@.len() ==> sorted@[a].1.rank()
                        <= rest@[b].1.rank(),
            decreases rest@.len(),
        {
            let mut best: usize = 0;
            let rn = rest.len();
            let mut z: usize = 1;
            while z < rn
                invariant
                    rn == rest@.len(),
                    0 < rn,
                    0 <= best < rn,
                    1 <= z <= rn,
                    forall|y: int| 0 <= y < z ==> rest@[best as int].1.rank() <= rest@[y].1.rank(),
                decreases rn - z,
            {
                if rest[z].1.rank_u8() < rest[best].1.rank_u8() {
                    best = z;
                }
                z = z + 1;
            }
            let ghost pre_sorted = sorted@;
            let ghost pre_rest = rest@;
            let item = rest.remove(best);
            let ghost gitem = item;
            sorted.push(item);
            proof {
                broadcast use vstd::seq_lib::group_to_multiset_ensures;
                broadcast use vstd::multiset::group_multiset_axioms;

                assert(gitem == pre_rest[best as int]);
                assert(rest@.to_multiset() =~= pre_rest.to_multiset().remove(gitem));
                assert(sorted@.to_multiset() =~= pre_sorted.to_multiset().insert(gitem));
                assert(pre_rest.to_multiset().count(gitem) > 0) by {
                    assert(pre_rest.contains(gitem));
                }
                assert(sorted@.to_multiset().add(rest@.to_multiset()) =~= all_work.to_multiset());
                assert forall|x: int| 0 <= x < rest@.len() implies rest@[x] == pre_rest[
                    if x < best {
                        x
                    } else {
                        x + 1
                    }
                ] by {}
                assert forall|a: int, b: int|
                    0 <= a < b < sorted@.len() implies sorted@[a].1.rank()
                    <= sorted@[b].1.rank() by {
                    if b == sorted@.len() - 1 {
                        assert(sorted@[a] == pre_sorted[a]);
                        assert(sorted@[b] == gitem);
                    } else {
                        assert(sorted@[a] == pre_sorted[a] && sorted@[b] == pre_sorted[b]);
                    }
                }
                assert forall|a: int, b: int|
                    0 <= a < sorted@.len() && 0 <= b < rest@.len() implies sorted@[a].1.rank()
                    <= rest@[b].1.rank() by {
                    let ob = if b < best { b } else { b + 1 };
                    assert(rest@[b] == pre_rest[ob]);
                    if a == sorted@.len() - 1 {
                        assert(sorted@[a] == gitem);
                    } else {
                        assert(sorted@[a] == pre_sorted[a]);
                    }
                }
            }
        }
        let ghost planv = Seq::new(sorted@.len() as nat, |z: int| (sorted@[z].0 as int, sorted@[z].1));
        proof {
            broadcast use vstd::seq_lib::group_to_multiset_ensures;
            broadcast use vstd::multiset::group_multiset_axioms;

            assert(rest@.to_multiset() =~= vstd::multiset::Multiset::empty());
            assert(sorted@.to_multiset() == all_work.to_multiset());
            // Soundness and completeness carry from the work list to
            // the sorted plan through the multiset.
            assert forall|z: int|
                0 <= z < planv.len() implies 0 <= (#[trigger] planv[z]).0
                < old(self).entries@.len() && planv[z].1 != PatchStatus::Unknown && (accepted_only
                ==> planv[z].1 == PatchStatus::Accepted) && exists|q: int|
                0 <= q < pairs.len() && (#[trigger] pairs[q]).1 == planv[z].1 && spec_uuid_bytes(
                    &old(self).entries@[planv[z].0].patch,
                ) == pairs[q].0 by {
                let item = sorted@[z];
                assert(sorted@.contains(item));
                assert(sorted@.to_multiset().count(item) > 0);
                assert(all_work.to_multiset().count(item) > 0);
                assert(all_work.contains(item));
                let wz = choose|wz: int| 0 <= wz < all_work.len() && all_work[wz] == item;
            }
            assert forall|q: int|
                0 <= q < pairs.len() && (!accepted_only || (#[trigger] pairs[q]).1
                    == PatchStatus::Accepted) && (exists|j: int|
                    0 <= j < old(self).entries@.len() && spec_uuid_bytes(
                        &old(self).entries@[j].patch,
                    ) == pairs[q].0) implies exists|z: int|
                0 <= z < planv.len() && (#[trigger] planv[z]).1 == pairs[q].1 && spec_uuid_bytes(
                    &old(self).entries@[planv[z].0].patch,
                ) == pairs[q].0 by {
                let wz = choose|wz: int|
                    0 <= wz < all_work.len() && (#[trigger] all_work[wz]).1 == pairs[q].1
                        && spec_uuid_bytes(&old(self).entries@[all_work[wz].0 as int].patch)
                        == pairs[q].0;
                let item = all_work[wz];
                assert(all_work.contains(item));
                assert(all_work.to_multiset().count(item) > 0);
                assert(sorted@.to_multiset().count(item) > 0);
                assert(sorted@.contains(item));
                let z = choose|z: int| 0 <= z < sorted@.len() && sorted@[z] == item;
                assert(planv[z].1 == item.1);
            }
            assert(spec_plan_ok(*old(self), pairs, accepted_only, planv));
            assert(spec_replay_effect(*old(self), *self, env, planv.take(0))) by {
                assert(planv.take(0).len() == 0);
            }
        }
        let s = sorted.len();
        let mut q: usize = 0;
        while q < s
            invariant
                self.wf(),
                content is Some,
                crate::codec::spec_parse(content.unwrap()@) is Some,
                s == sorted@.len(),
                0 <= q <= s,
                self.entries@.len() == old(self).entries@.len(),
                forall|j: int|
                    0 <= j < old(self).entries@.len() ==> self.entries@[j].patch == old(self).entries@[j].patch,
                forall|z: int|
                    0 <= z < sorted@.len() ==> 0 <= (#[trigger] sorted@[z]).0
                        < self.entries@.len() && sorted@[z].1 != PatchStatus::Unknown,
                planv == Seq::new(
                    sorted@.len() as nat,
                    |z: int| (sorted@[z].0 as int, sorted@[z].1),
                ),
                spec_replay_effect(*old(self), *self, env, planv.take(q as int)),
            decreases s - q,
        {
            let (idx, st) = sorted[q];
            let ghost before_step = *self;
            match self.do_status_transition(env, idx, st) {
                Err(e) => {
                    return Err(e);
                },
                Ok(_) => {},
            }
            proof {
                assert(spec_transition_outcome(before_step, *self, env, idx as int, st));
                lemma_replay_effect_push(
                    *old(self),
                    before_step,
                    *self,
                    env,
                    planv.take(q as int),
                    (idx as int, st),
                );
                assert(planv.take(q as int).push((idx as int, st)) =~= planv.take(q as int + 1));
            }
            q = q + 1;
        }
        proof {
            assert(planv.take(s as int) =~= planv);
        }
        Ok(())
    }

}

impl PatchManager {
    fn find_by_uuid_bytes(&self, uuid_bytes: &[u8]) -> (r: Option<usize>)
        ensures
            match r {
                Some(i) => 0 <= i < self.entries@.len() && spec_uuid_bytes(
                    &self.entries@[i as int].patch,
                ) == uuid_bytes@,
                None => forall|i: int|
                    0 <= i < self.entries@.len() ==> spec_uuid_bytes(&self.entries@[i].patch)
                        != uuid_bytes@,
            },
    {
        let n = self.entries.len();
        let mut i: usize = 0;
        while i < n
            invariant
                n == self.entries@.len(),
                0 <= i <= n,
                forall|j: int|
                    0 <= j < i ==> spec_uuid_bytes(&self.entries@[j].patch) != uuid_bytes@,
            decreases n - i,
        {
            if bytes_eq(self.entries[i].patch.uuid.as_str().as_bytes(), uuid_bytes) {
                return Some(i);
            }
            i = i + 1;
        }
        None
    }

    /// Whether the entries are already in entity-name order.
    fn entries_sorted(&self) -> (r: bool)
        ensures
            r == spec_entries_sorted(self.entries@),
    {
        let n = self.entries.len();
        if n == 0 {
            return true;
        }
        let mut i: usize = 0;
        while i + 1 < n
            invariant
                n == self.entries@.len(),
                0 <= i < n,
                forall|a: int, b: int|
                    0 <= a < b <= i ==> crate::bytestr::spec_lex_le(
                        vstd::utf8::encode_utf8(self.entries@[a].patch.entity_name@),
                        vstd::utf8::encode_utf8(self.entries@[b].patch.entity_name@),
                    ),
            decreases n - i,
        {
            if !lex_le(
                self.entries[i].patch.entity_name.as_str().as_bytes(),
                self.entries[i + 1].patch.entity_name.as_str().as_bytes(),
            ) {
                return false;
            }
            proof {
                assert forall|a: int, b: int|
                    0 <= a < b <= i + 1 implies crate::bytestr::spec_lex_le(
                    vstd::utf8::encode_utf8(self.entries@[a].patch.entity_name@),
                    vstd::utf8::encode_utf8(self.entries@[b].patch.entity_name@),
                ) by {
                    if b == i + 1 && a < i {
                        crate::bytestr::lemma_lex_trans(
                            vstd::utf8::encode_utf8(self.entries@[a].patch.entity_name@),
                            vstd::utf8::encode_utf8(self.entries@[i as int].patch.entity_name@),
                            vstd::utf8::encode_utf8(self.entries@[i + 1].patch.entity_name@),
                        );
                    }
                }
            }
            i = i + 1;
        }
        true
    }

    /// Sorts the entries by entity name.
    fn sort_entries(&mut self)
        requires
            old(self).wf(),
        ensures
            final(self).wf(),
            spec_entries_sorted(final(self).entries@),
            final(self).kdriver == old(self).kdriver,
            final(self).udriver == old(self).udriver,
            final(self).entries@.len() == old(self).entries@.len(),
            final(self).entries@.to_multiset() == old(self).entries@.to_multiset(),
    {
        let mut rest: Vec<PatchEntry> = Vec::new();
        proof {
            assert(self.entries@ =~= old(self).entries@.subrange(
                0,
                old(self).entries@.len() - rest@.len(),
            ));
            assert(rest@ =~= old(self).entries@.subrange(
                old(self).entries@.len() as int,
                old(self).entries@.len() as int,
            ));
        }
        while self.entries.len() > 0
            invariant
                rest@.len() <= old(self).entries@.len(),
                rest@ == old(self).entries@.subrange(
                    old(self).entries@.len() - rest@.len(),
                    old(self).entries@.len() as int,
                ),
                self.entries@ == old(self).entries@.subrange(
                    0,
                    old(self).entries@.len() - rest@.len(),
                ),
                self.kdriver == old(self).kdriver,
                self.udriver == old(self).udriver,
            decreases self.entries@.len(),
        {
            let ghost pre_entries = self.entries@;
            let ghost pre_rest = rest@;
            let ghost total = old(self).entries@.len() as int;
            let last = self.entries.len() - 1;
            let item = self.entries.remove(last);
            let ghost gitem = item;
            rest.insert(0, item);
            proof {
                assert(gitem == pre_entries[last as int]);
                assert(rest@ =~= seq![gitem] + pre_rest);
                assert(rest@.len() == pre_rest.len() + 1);
                assert forall|x: int| 0 <= x < rest@.len() implies rest@[x] == old(self).entries@[total - rest@.len() + x] by {
                    if x == 0 {
                        assert(rest@[0] == gitem);
                        assert(pre_entries[last as int] == old(self).entries@[last as int]);
                    } else {
                        assert(rest@[x] == pre_rest[x - 1]);
                        assert(pre_rest[x - 1] == old(self).entries@[total - pre_rest.len() + (x
                            - 1)]);
                    }
                }
                assert(rest@ =~= old(self).entries@.subrange(total - rest@.len(), total));
                assert(self.entries@ =~= old(self).entries@.subrange(
                    0,
                    total - rest@.len(),
                ));
            }
        }
        proof {
            assert(rest@ =~= old(self).entries@);
            assert(self.entries@.len() == 0);
        }
        let ghost all = rest@;
        proof {
            broadcast use vstd::seq_lib::group_to_multiset_ensures;

            assert(self.entries@.to_multiset().add(rest@.to_multiset()) =~= all.to_multiset());
        }
        while rest.len() > 0
            invariant
                self.kdriver == old(self).kdriver,
                self.udriver == old(self).udriver,
                self.kdriver.wf(),
                self.udriver.wf(),
                self.udriver.target_inv(),
                self.entries@.len() + rest@.len() == all.len(),
                self.entries@.to_multiset().add(rest@.to_multiset()) == all.to_multiset(),
                forall|a: int, b: int|
                    0 <= a < b < self.entries@.len() ==> spec_uuid_bytes(&self.entries@[a].patch)
                        != spec_uuid_bytes(&self.entries@[b].patch),
                forall|a: int, b: int|
                    0 <= a < b < rest@.len() ==> spec_uuid_bytes(&rest@[a].patch)
                        != spec_uuid_bytes(&rest@[b].patch),
                forall|a: int, b: int|
                    0 <= a < self.entries@.len() && 0 <= b < rest@.len() ==> spec_uuid_bytes(
                        &self.entries@[a].patch,
                    ) != spec_uuid_bytes(&rest@[b].patch),
                forall|i: int|
                    0 <= i < self.entries@.len() ==> (#[trigger] self.entries@[i].patch).wf(),
                forall|i: int| 0 <= i < rest@.len() ==> (#[trigger] rest@[i].patch).wf(),
                forall|i: int|
                    0 <= i < self.entries@.len() && (#[trigger] self.entries@[i].patch).spec_kind()
                        == PatchType::UserPatch ==> self.udriver.uuid_elf_ok(
                        self.entries@[i].patch.uuid@,
                        self.entries@[i].patch.spec_user_ext().target_elf@,
                    ),
                forall|i: int|
                    0 <= i < rest@.len() && (#[trigger] rest@[i].patch).spec_kind()
                        == PatchType::UserPatch ==> self.udriver.uuid_elf_ok(
                        rest@[i].patch.uuid@,
                        rest@[i].patch.spec_user_ext().target_elf@,
                    ),
                spec_entries_sorted(self.entries@),
                forall|a: int, b: int|
                    0 <= a < self.entries@.len() && 0 <= b < rest@.len()
                        ==> crate::bytestr::spec_lex_le(
                        vstd::utf8::encode_utf8(self.entries@[a].patch.entity_name@),
                        vstd::utf8::encode_utf8(rest@[b].patch.entity_name@),
                    ),
            decreases rest@.len(),
        {
            let rn = rest.len();
            let mut best: usize = 0;
            let mut z: usize = 1;
            proof {
                crate::bytestr::lemma_lex_refl(
                    vstd::utf8::encode_utf8(rest@[0].patch.entity_name@),
                );
            }
            while z < rn
                invariant
                    rn == rest@.len(),
                    0 < rn,
                    0 <= best < rn,
                    1 <= z <= rn,
                    forall|y: int|
                        0 <= y < z ==> crate::bytestr::spec_lex_le(
                            vstd::utf8::encode_utf8(rest@[best as int].patch.entity_name@),
                            vstd::utf8::encode_utf8(rest@[y].patch.entity_name@),
                        ),
                decreases rn - z,
            {
                if !lex_le(
                    rest[best].patch.entity_name.as_str().as_bytes(),
                    rest[z].patch.entity_name.as_str().as_bytes(),
                ) {
                    proof {
                        crate::bytestr::lemma_lex_total(
                            vstd::utf8::encode_utf8(rest@[best as int].patch.entity_name@),
                            vstd::utf8::encode_utf8(rest@[z as int].patch.entity_name@),
                        );
                        assert forall|y: int|
                            0 <= y < z + 1 implies crate::bytestr::spec_lex_le(
                            vstd::utf8::encode_utf8(rest@[z as int].patch.entity_name@),
                            vstd::utf8::encode_utf8(rest@[y].patch.entity_name@),
                        ) by {
                            if y < z {
                                crate::bytestr::lemma_lex_trans(
                                    vstd::utf8::encode_utf8(rest@[z as int].patch.entity_name@),
                                    vstd::utf8::encode_utf8(
                                        rest@[best as int].patch.entity_name@,
                                    ),
                                    vstd::utf8::encode_utf8(rest@[y].patch.entity_name@),
                                );
                            } else {
                                crate::bytestr::lemma_lex_refl(
                                    vstd::utf8::encode_utf8(rest@[z as int].patch.entity_name@),
                                );
                            }
                        }
                    }
                    best = z;
                }
                z = z + 1;
            }
            let ghost pre_entries = self.entries@;
            let ghost pre_rest = rest@;
            let item = rest.remove(best);
            let ghost gitem = item;
            self.entries.push(item);
            proof {
                assert forall|x: int| 0 <= x < rest@.len() implies rest@[x] == pre_rest[
                    if x < best {
                        x
                    } else {
                        x + 1
                    }
                ] by {}
                assert(gitem == pre_rest[best as int]);
                assert(self.entries@ =~= pre_entries.push(gitem));
                assert(self.entries@.to_multiset().add(rest@.to_multiset())
                    =~= all.to_multiset()) by {
                    broadcast use vstd::seq_lib::group_to_multiset_ensures;

                    assert(rest@.to_multiset() =~= pre_rest.to_multiset().remove(gitem));
                    assert(self.entries@.to_multiset() =~= pre_entries.to_multiset().insert(
                        gitem,
                    ));
                    assert(pre_rest.to_multiset().count(gitem) > 0) by {
                        assert(pre_rest.contains(gitem)) by {
                            assert(pre_rest[best as int] == gitem);
                        }
                    }
                }
                assert(spec_entries_sorted(self.entries@)) by {
                    assert forall|a: int, b: int|
                        0 <= a < b < self.entries@.len() implies crate::bytestr::spec_lex_le(
                        vstd::utf8::encode_utf8(self.entries@[a].patch.entity_name@),
                        vstd::utf8::encode_utf8(self.entries@[b].patch.entity_name@),
                    ) by {
                        if b == self.entries@.len() - 1 {
                            assert(self.entries@[a] == pre_entries[a]);
                            assert(self.entries@[b] == pre_rest[best as int]);
                        } else {
                            assert(self.entries@[a] == pre_entries[a]);
                            assert(self.entries@[b] == pre_entries[b]);
                        }
                    }
                }
            }
        }
        proof {
            assert forall|j: int|
                0 <= j < all.len() implies exists|j2: int|
                0 <= j2 < self.entries@.len() && self.entries@[j2] == #[trigger] all[j] by {
                broadcast use vstd::seq_lib::group_to_multiset_ensures;

                assert(all.contains(all[j]));
                assert(all.to_multiset().count(all[j]) > 0);
                assert(rest@.to_multiset() =~= vstd::multiset::Multiset::empty());
                assert(self.entries@.to_multiset().count(all[j]) > 0);
                assert(self.entries@.contains(all[j]));
                let j2 = choose|j2: int|
                    0 <= j2 < self.entries@.len() && self.entries@[j2] == all[j];
            }
            assert(all == old(self).entries@);
            assert(self.entries@.to_multiset() =~= old(self).entries@.to_multiset()) by {
                broadcast use vstd::seq_lib::group_to_multiset_ensures;

                assert(rest@.to_multiset() =~= vstd::multiset::Multiset::empty());
            }
        }
    }

    /// Ingests freshly scanned patches: a malformed or already known
    /// patch is skipped, new patches start `Unknown`, and the entries
    /// end sorted by entity name.  A rescan that brings nothing new to
    /// a sorted map leaves it untouched.
    pub fn rescan(&mut self, scanned: Vec<Patch>)
        requires
            old(self).wf(),
        ensures
            final(self).wf(),
            spec_entries_sorted(final(self).entries@),
            final(self).kdriver == old(self).kdriver,
            final(self).udriver == old(self).udriver,
            (spec_entries_sorted(old(self).entries@) && spec_all_scanned_known(
                old(self).entries@,
                scanned@,
            )) ==> final(self).entries@ == old(self).entries@,
            final(self).entries@.len() >= old(self).entries@.len(),
            old(self).entries@.to_multiset().subset_of(final(self).entries@.to_multiset()),
            forall|k: int| #![trigger scanned@[k]]
                0 <= k < scanned@.len() && spec_scan_admissible(*old(self), scanned@, k)
                    ==> exists|j: int|
                    0 <= j < final(self).entries@.len() && final(self).entries@[j].patch
                        == scanned@[k] && final(self).entries@[j].status == PatchStatus::Unknown,
    {
        let ghost orig_scanned = scanned@;
        let mut scanned = scanned;
        let mut added = false;
        proof {
            assert(scanned@ =~= orig_scanned.skip(orig_scanned.len() - scanned@.len()));
        }
        while scanned.len() > 0
            invariant
                self.wf(),
                self.kdriver == old(self).kdriver,
                self.udriver == old(self).udriver,
                forall|j: int|
                    0 <= j < old(self).entries@.len() ==> self.entries@[j] == old(self).entries@[j],
                self.entries@.len() >= old(self).entries@.len(),
                !added ==> self.entries@ == old(self).entries@,
                spec_all_scanned_known(old(self).entries@, orig_scanned) ==> !added,
                scanned@.len() <= orig_scanned.len(),
                scanned@ == orig_scanned.skip(orig_scanned.len() - scanned@.len()),
                forall|k: int| #![trigger orig_scanned[k]]
                    0 <= k < orig_scanned.len() - scanned@.len() && spec_scan_admissible(
                        *old(self),
                        orig_scanned,
                        k,
                    ) ==> exists|j: int|
                        0 <= j < self.entries@.len() && self.entries@[j].patch == orig_scanned[k]
                            && self.entries@[j].status == PatchStatus::Unknown,
                forall|j: int| #![trigger self.entries@[j]]
                    old(self).entries@.len() <= j < self.entries@.len() ==> exists|k: int|
                        0 <= k < orig_scanned.len() - scanned@.len() && self.entries@[j].patch
                            == orig_scanned[k],
            decreases scanned@.len(),
        {
            let ghost pre_scanned = scanned@;
            let p = scanned.remove(0);
            let ghost gp = p;
            proof {
                assert(gp == pre_scanned[0]);
                let ghost start = orig_scanned.len() - pre_scanned.len();
                assert(pre_scanned == orig_scanned.skip(start));
                assert(orig_scanned.skip(start)[0] == orig_scanned[start]);
                assert(gp == orig_scanned[start]);
                assert(scanned@ =~= pre_scanned.skip(1));
                assert forall|x: int|
                    0 <= x < scanned@.len() implies scanned@[x] == orig_scanned[start + 1 + x] by {
                    assert(scanned@[x] == pre_scanned[x + 1]);
                    assert(pre_scanned[x + 1] == orig_scanned.skip(start)[x + 1]);
                }
                assert(scanned@ =~= orig_scanned.skip(start + 1));
                assert(start + 1 == orig_scanned.len() - scanned@.len());
            }
            let uuid_ok = !p.uuid.as_str().is_empty() && p.uuid.as_str().is_ascii()
                && uuid_bytes_clean(p.uuid.as_str().as_bytes());
            proof {
                if uuid_ok {
                    vstd::utf8::is_ascii_chars_encode_utf8(gp.uuid@);
                    assert(gp.wf()) by {
                        assert forall|i: int|
                            0 <= i < gp.uuid@.len() implies gp.uuid@[i] != ' ' && gp.uuid@[i]
                            != '\n' by {
                            assert(vstd::utf8::encode_utf8(gp.uuid@)[i] == gp.uuid@[i] as u8);
                            if gp.uuid@[i] == ' ' {
                                assert(gp.uuid@[i] as u8 == 32);
                            }
                            if gp.uuid@[i] == '\n' {
                                assert(gp.uuid@[i] as u8 == 10);
                            }
                        }
                    }
                } else {
                    if gp.wf() {
                        vstd::utf8::is_ascii_chars_encode_utf8(gp.uuid@);
                        assert forall|i: int|
                            0 <= i < vstd::utf8::encode_utf8(gp.uuid@).len() implies #[trigger] vstd::utf8::encode_utf8(gp.uuid@)[i] != 32 && vstd::utf8::encode_utf8(
                            gp.uuid@,
                        )[i] != 10 by {
                            assert(vstd::utf8::encode_utf8(gp.uuid@)[i] == gp.uuid@[i] as u8);
                            if gp.uuid@[i] as u8 == 32 {
                                assert(gp.uuid@[i] == ' ');
                            }
                            if gp.uuid@[i] as u8 == 10 {
                                assert(gp.uuid@[i] == '\n');
                            }
                        }
                        assert(false);
                    }
                }
            }
            let dup = if uuid_ok {
                self.find_by_uuid_bytes(p.uuid.as_str().as_bytes()).is_some()
            } else {
                false
            };
            let consistent = if uuid_ok && !dup {
                match p.kind() {
                    PatchType::KernelPatch => true,
                    PatchType::UserPatch => self.udriver.check_uuid_elf(
                        &p.uuid,
                        p.user_ext().target_elf.as_slice(),
                    ),
                }
            } else {
                false
            };
            let ghost pre = self.entries@;
            if uuid_ok && !dup && consistent {
                proof {
                    if spec_all_scanned_known(old(self).entries@, orig_scanned) {
                        let k2 = orig_scanned.len() - pre_scanned.len();
                        assert(orig_scanned[k2 as int] == gp);
                        let j = choose|j: int|
                            0 <= j < old(self).entries@.len() && spec_uuid_bytes(
                                &old(self).entries@[j].patch,
                            ) == spec_uuid_bytes(&orig_scanned[k2 as int]);
                        assert(self.entries@[j] == old(self).entries@[j]);
                        assert(spec_uuid_bytes(&self.entries@[j].patch) == spec_uuid_bytes(&gp));
                        assert(false);
                    }
                }
                self.entries.push(PatchEntry { patch: p, status: PatchStatus::Unknown });
                added = true;
                proof {
                    assert forall|j: int|
                        0 <= j < old(self).entries@.len() implies self.entries@[j] == old(self).entries@[j] by {
                        assert(self.entries@[j] == pre[j]);
                    }
                    assert(self.entries@[pre.len() as int].patch == gp);
                    assert(self.entries@[pre.len() as int].status == PatchStatus::Unknown);
                }
            }
            proof {
                let ghost consumed = orig_scanned.len() - scanned@.len();
                assert(gp == orig_scanned[consumed - 1]);
                assert forall|k: int| #![trigger orig_scanned[k]]
                    0 <= k < consumed && spec_scan_admissible(
                    *old(self),
                    orig_scanned,
                    k,
                ) implies exists|j: int|
                    0 <= j < self.entries@.len() && self.entries@[j].patch == orig_scanned[k]
                        && self.entries@[j].status == PatchStatus::Unknown by {
                    if k < consumed - 1 {
                        let j = choose|j: int|
                            0 <= j < pre.len() && pre[j].patch == orig_scanned[k] && pre[j].status
                                == PatchStatus::Unknown;
                        assert(self.entries@[j] == pre[j]);
                    } else {
                        // The freshly consumed patch: admissibility forces
                        // every runtime check through.
                        assert(gp.wf());
                        assert(uuid_ok);
                        assert(!dup) by {
                            if dup {
                                let j = choose|j: int|
                                    0 <= j < pre.len() && spec_uuid_bytes(&pre[j].patch)
                                        == vstd::utf8::encode_utf8(gp.uuid@);
                                if j < old(self).entries@.len() {
                                    assert(pre[j] == old(self).entries@[j]);
                                } else {
                                    let k2 = choose|k2: int|
                                        0 <= k2 < consumed - 1 && pre[j].patch == orig_scanned[k2];
                                    assert(spec_uuid_bytes(&orig_scanned[k2]) == spec_uuid_bytes(
                                        &orig_scanned[k],
                                    ));
                                }
                            }
                        }
                        assert(consistent);
                        assert(self.entries@[pre.len() as int].patch == gp
                            && self.entries@[pre.len() as int].status == PatchStatus::Unknown);
                    }
                }
            }
        }
        let ghost pre_sort = self.entries@;
        if added || !self.entries_sorted() {
            self.sort_entries();
        }
        proof {
            broadcast use vstd::seq_lib::group_to_multiset_ensures;
            broadcast use vstd::multiset::group_multiset_axioms;

            lemma_prefix_submultiset(old(self).entries@, pre_sort);
            assert(self.entries@.to_multiset() == pre_sort.to_multiset() || self.entries@
                == pre_sort);
            assert(old(self).entries@.to_multiset().subset_of(self.entries@.to_multiset()));
            assert forall|k: int| #![trigger orig_scanned[k]]
                0 <= k < orig_scanned.len() && spec_scan_admissible(
                *old(self),
                orig_scanned,
                k,
            ) implies exists|j: int|
                0 <= j < self.entries@.len() && self.entries@[j].patch == orig_scanned[k]
                    && self.entries@[j].status == PatchStatus::Unknown by {
                let j0 = choose|j0: int|
                    0 <= j0 < pre_sort.len() && pre_sort[j0].patch == orig_scanned[k]
                        && pre_sort[j0].status == PatchStatus::Unknown;
                assert(pre_sort.contains(pre_sort[j0]));
                assert(pre_sort.to_multiset().count(pre_sort[j0]) > 0);
                assert(self.entries@.to_multiset().count(pre_sort[j0]) > 0);
                assert(self.entries@.contains(pre_sort[j0]));
                let j = choose|j: int|
                    0 <= j < self.entries@.len() && self.entries@[j] == pre_sort[j0];
            }
        }
    }
}

/// A sequence's multiset is contained in any extension's.
proof fn lemma_prefix_submultiset(a: Seq<PatchEntry>, b: Seq<PatchEntry>)
    requires
        a.len() <= b.len(),
        forall|j: int| 0 <= j < a.len() ==> b[j] == a[j],
    ensures
        a.to_multiset().subset_of(b.to_multiset()),
    decreases b.len() - a.len(),
{
    broadcast use vstd::seq_lib::group_to_multiset_ensures;
    broadcast use vstd::multiset::group_multiset_axioms;

    if a.len() == b.len() {
        assert(a =~= b);
    } else {
        let b2 = b.drop_last();
        lemma_prefix_submultiset(a, b2);
        assert(b =~= b2.push(b.last()));
        assert(b.to_multiset() =~= b2.to_multiset().insert(b.last()));
        assert forall|x: PatchEntry|
            a.to_multiset().count(x) <= b.to_multiset().count(x) by {
            assert(a.to_multiset().count(x) <= b2.to_multiset().count(x));
        }
    }
}

/// No byte of a uuid is the record separator or the line break.
fn uuid_bytes_clean(bytes: &[u8]) -> (r: bool)
    ensures
        r == (forall|i: int| 0 <= i < bytes@.len() ==> bytes@[i] != 32 && bytes@[i] != 10),
{
    let n = bytes.len();
    let mut i: usize = 0;
    while i < n
        invariant
            n == bytes@.len(),
            0 <= i <= n,
            forall|j: int| 0 <= j < i ==> bytes@[j] != 32 && bytes@[j] != 10,
        decreases n - i,
    {
        if bytes[i] == 32 || bytes[i] == 10 {
            return false;
        }
        i = i + 1;
    }
    true
}

} // verus!
