//! The user-space patch driver.
//!
//! Per target ELF the driver keeps a function registry for conflict and
//! override detection and, per patch, a [`PatchEntity`] tracking which
//! processes carry the patch.  Process discovery and the per-process
//! injection primitives happen outside; their outcomes arrive through
//! the [`DriverEnv`] observations.
use vstd::prelude::*;

use crate::bytestr::{bytes_eq, bytes_vec_contains, copy_bytes, pid_vec_contains};
use crate::entity::{Patch, PatchType};
use crate::error::{ErrorKind, PatchError};
use crate::registry::PatchTarget;
use crate::status::PatchStatus;
use crate::world::{spec_process_lookup, DriverEnv, PatchOpFlag};

verus! {

/// Process bookkeeping of one active patch: which live processes carry
/// it and which are left alone after a failed injection.
#[derive(Debug)]
pub struct PatchEntity {
    /// Path of the patch object file.
    pub patch_file: Vec<u8>,
    /// Processes the patch was injected into.
    pub active_pids: Vec<i32>,
    /// Processes where injection failed; they are not retried.
    pub ignored_pids: Vec<i32>,
}

impl PatchEntity {
    /// Pid lists hold no duplicates and do not overlap.
    pub open spec fn wf(&self) -> bool {
        &&& forall|a: int, b: int|
            0 <= a < b < self.active_pids@.len() ==> self.active_pids@[a] != self.active_pids@[b]
        &&& forall|a: int, b: int|
            0 <= a < b < self.ignored_pids@.len() ==> self.ignored_pids@[a]
                != self.ignored_pids@[b]
        &&& forall|a: int, b: int|
            0 <= a < self.active_pids@.len() && 0 <= b < self.ignored_pids@.len()
                ==> self.active_pids@[a] != self.ignored_pids@[b]
    }

    /// A fresh entity: no process carries the patch yet.
    pub fn new(patch_file: Vec<u8>) -> (r: PatchEntity)
        ensures
            r.wf(),
            r.patch_file@ == patch_file@,
            r.active_pids@.len() == 0,
            r.ignored_pids@.len() == 0,
    {
        PatchEntity { patch_file, active_pids: Vec::new(), ignored_pids: Vec::new() }
    }

    /// The live processes that do not carry the patch yet, without
    /// duplicates.
    pub fn need_actived(&self, process_list: &Vec<i32>) -> (r: Vec<i32>)
        ensures
            forall|p: i32|
                r@.contains(p) <==> (process_list@.contains(p) && !self.active_pids@.contains(p)),
            forall|a: int, b: int| 0 <= a < b < r@.len() ==> r@[a] != r@[b],
    {
        let mut r: Vec<i32> = Vec::new();
        let n = process_list.len();
        let mut i: usize = 0;
        while i < n
            invariant
                n == process_list@.len(),
                0 <= i <= n,
                forall|p: i32|
                    r@.contains(p) <==> (exists|j: int| 0 <= j < i && process_list@[j] == p)
                        && !self.active_pids@.contains(p),
                forall|a: int, b: int| 0 <= a < b < r@.len() ==> r@[a] != r@[b],
            decreases n - i,
        {
            let ghost prev = r@;
            let pid = process_list[i];
            if !pid_vec_contains(&self.active_pids, pid) && !pid_vec_contains(&r, pid) {
                r.push(pid);
                proof {
                    assert forall|p: i32| r@.contains(p) implies ((exists|j: int|
                        0 <= j < i + 1 && process_list@[j] == p) && !self.active_pids@.contains(
                        p,
                    )) by {
                        let k = choose|k: int| 0 <= k < r@.len() && r@[k] == p;
                        if k < prev.len() {
                            assert(prev.contains(p));
                        } else {
                            assert(p == pid);
                            assert(process_list@[i as int] == p);
                        }
                    }
                    assert forall|p: i32|
                        ((exists|j: int| 0 <= j < i + 1 && process_list@[j] == p)
                            && !self.active_pids@.contains(p)) implies r@.contains(p) by {
                        if p == pid {
                            assert(r@[prev.len() as int] == p);
                        } else {
                            let j = choose|j: int| 0 <= j < i + 1 && process_list@[j] == p;
                            assert(j < i);
                            assert(prev.contains(p));
                            let k = choose|k: int| 0 <= k < prev.len() && prev[k] == p;
                            assert(r@[k] == p);
                        }
                    }
                }
            } else {
                proof {
                    assert forall|p: i32|
                        ((exists|j: int| 0 <= j < i + 1 && process_list@[j] == p)
                            && !self.active_pids@.contains(p)) implies r@.contains(p) by {
                        let j = choose|j: int| 0 <= j < i + 1 && process_list@[j] == p;
                        if j == i {
                            assert(p == pid);
                        }
                    }
                }
            }
            i = i + 1;
        }
        r
    }

    /// The patched processes that are still alive, without duplicates.
    pub fn need_deactived(&self, process_list: &Vec<i32>) -> (r: Vec<i32>)
        requires
            self.wf(),
        ensures
            forall|p: i32|
                r@.contains(p) <==> (self.active_pids@.contains(p) && process_list@.contains(p)),
            forall|a: int, b: int| 0 <= a < b < r@.len() ==> r@[a] != r@[b],
    {
        let mut r: Vec<i32> = Vec::new();
        let n = self.active_pids.len();
        let mut i: usize = 0;
        while i < n
            invariant
                self.wf(),
                n == self.active_pids@.len(),
                0 <= i <= n,
                forall|p: i32|
                    r@.contains(p) <==> ((exists|j: int| 0 <= j < i && self.active_pids@[j] == p)
                        && process_list@.contains(p)),
                forall|a: int, b: int| 0 <= a < b < r@.len() ==> r@[a] != r@[b],
            decreases n - i,
        {
            let ghost prev = r@;
            let pid = self.active_pids[i];
            if pid_vec_contains(process_list, pid) {
                r.push(pid);
                proof {
                    assert forall|p: i32| r@.contains(p) implies ((exists|j: int|
                        0 <= j < i + 1 && self.active_pids@[j] == p) && process_list@.contains(
                        p,
                    )) by {
                        let k = choose|k: int| 0 <= k < r@.len() && r@[k] == p;
                        if k < prev.len() {
                            assert(prev.contains(p));
                        } else {
                            assert(self.active_pids@[i as int] == p);
                        }
                    }
                    assert forall|p: i32|
                        ((exists|j: int| 0 <= j < i + 1 && self.active_pids@[j] == p)
                            && process_list@.contains(p)) implies r@.contains(p) by {
                        let j = choose|j: int| 0 <= j < i + 1 && self.active_pids@[j] == p;
                        if j == i {
                            assert(r@[prev.len() as int] == p);
                        } else {
                            assert(prev.contains(p));
                            let k = choose|k: int| 0 <= k < prev.len() && prev[k] == p;
                            assert(r@[k] == p);
                        }
                    }
                    assert forall|a: int, b: int| 0 <= a < b < r@.len() implies r@[a] != r@[b] by {
                        if b == r@.len() - 1 {
                            if prev.contains(pid) {
                                let j = choose|j: int|
                                    0 <= j < i && self.active_pids@[j] == pid;
                                assert(false);
                            }
                        }
                    }
                }
            } else {
                proof {
                    assert forall|p: i32|
                        ((exists|j: int| 0 <= j < i + 1 && self.active_pids@[j] == p)
                            && process_list@.contains(p)) implies r@.contains(p) by {
                        let j = choose|j: int| 0 <= j < i + 1 && self.active_pids@[j] == p;
                        if j == i {
                            assert(p == pid);
                            assert(false);
                        }
                    }
                }
            }
            i = i + 1;
        }
        r
    }

    /// Forgets processes that are no longer alive, in both pid sets.
    pub fn clean_dead_process(&mut self, process_list: &Vec<i32>)
        requires
            old(self).wf(),
        ensures
            final(self).wf(),
            final(self).patch_file@ == old(self).patch_file@,
            forall|p: i32|
                final(self).active_pids@.contains(p) <==> (old(self).active_pids@.contains(p)
                    && process_list@.contains(p)),
            forall|p: i32|
                final(self).ignored_pids@.contains(p) <==> (old(self).ignored_pids@.contains(p)
                    && process_list@.contains(p)),
    {
        let kept_active = self.need_deactived(process_list);
        let mut kept_ignored: Vec<i32> = Vec::new();
        let n = self.ignored_pids.len();
        let mut i: usize = 0;
        while i < n
            invariant
                old(self).wf(),
                *self == *old(self),
                n == self.ignored_pids@.len(),
                0 <= i <= n,
                forall|p: i32|
                    kept_ignored@.contains(p) <==> ((exists|j: int|
                        0 <= j < i && self.ignored_pids@[j] == p) && process_list@.contains(p)),
                forall|a: int, b: int|
                    0 <= a < b < kept_ignored@.len() ==> kept_ignored@[a] != kept_ignored@[b],
            decreases n - i,
        {
            let ghost prev = kept_ignored@;
            let pid = self.ignored_pids[i];
            if pid_vec_contains(process_list, pid) {
                kept_ignored.push(pid);
                proof {
                    assert forall|p: i32| kept_ignored@.contains(p) implies ((exists|j: int|
                        0 <= j < i + 1 && self.ignored_pids@[j] == p) && process_list@.contains(
                        p,
                    )) by {
                        let k = choose|k: int| 0 <= k < kept_ignored@.len() && kept_ignored@[k] == p;
                        if k < prev.len() {
                            assert(prev.contains(p));
                        } else {
                            assert(self.ignored_pids@[i as int] == p);
                        }
                    }
                    assert forall|p: i32|
                        ((exists|j: int| 0 <= j < i + 1 && self.ignored_pids@[j] == p)
                            && process_list@.contains(p)) implies kept_ignored@.contains(p) by {
                        let j = choose|j: int| 0 <= j < i + 1 && self.ignored_pids@[j] == p;
                        if j == i {
                            assert(kept_ignored@[prev.len() as int] == p);
                        } else {
                            assert(prev.contains(p));
                            let k = choose|k: int| 0 <= k < prev.len() && prev[k] == p;
                            assert(kept_ignored@[k] == p);
                        }
                    }
                    assert forall|a: int, b: int|
                        0 <= a < b < kept_ignored@.len() implies kept_ignored@[a]
                        != kept_ignored@[b] by {
                        if b == kept_ignored@.len() - 1 {
                            if prev.contains(pid) {
                                let j = choose|j: int|
                                    0 <= j < i && self.ignored_pids@[j] == pid;
                                assert(false);
                            }
                        }
                    }
                }
            } else {
                proof {
                    assert forall|p: i32|
                        ((exists|j: int| 0 <= j < i + 1 && self.ignored_pids@[j] == p)
                            && process_list@.contains(p)) implies kept_ignored@.contains(p) by {
                        let j = choose|j: int| 0 <= j < i + 1 && self.ignored_pids@[j] == p;
                        if j == i {
                            assert(false);
                        }
                    }
                }
            }
            i = i + 1;
        }
        proof {
            assert forall|p: i32| kept_active@.contains(p) implies !kept_ignored@.contains(p) by {
                if kept_ignored@.contains(p) {
                    let a = choose|a: int|
                        0 <= a < old(self).active_pids@.len() && old(self).active_pids@[a] == p;
                    let b = choose|b: int|
                        0 <= b < old(self).ignored_pids@.len() && old(self).ignored_pids@[b] == p;
                    assert(false);
                }
            }
        }
        self.active_pids = kept_active;
        self.ignored_pids = kept_ignored;
        proof {
            assert forall|a: int, b: int|
                0 <= a < self.active_pids@.len() && 0 <= b < self.ignored_pids@.len() implies
                self.active_pids@[a] != self.ignored_pids@[b] by {
                if self.active_pids@[a] == self.ignored_pids@[b] {
                    assert(self.active_pids@.contains(self.active_pids@[a]));
                    assert(self.ignored_pids@.contains(self.active_pids@[a]));
                }
            }
        }
    }

    /// Records a successful injection into process `pid`.
    pub fn add_process(&mut self, pid: i32)
        requires
            old(self).wf(),
            !old(self).ignored_pids@.contains(pid),
        ensures
            final(self).wf(),
            final(self).patch_file@ == old(self).patch_file@,
            final(self).ignored_pids@ == old(self).ignored_pids@,
            forall|p: i32|
                final(self).active_pids@.contains(p) <==> (old(self).active_pids@.contains(p) || p
                    == pid),
    {
        if !pid_vec_contains(&self.active_pids, pid) {
            let ghost prev = self.active_pids@;
            self.active_pids.push(pid);
            proof {
                assert forall|p: i32| self.active_pids@.contains(p) implies (old(self).active_pids@.contains(p) || p == pid) by {
                    let k = choose|k: int|
                        0 <= k < self.active_pids@.len() && self.active_pids@[k] == p;
                    if k < prev.len() {
                        assert(prev.contains(p));
                    }
                }
                assert forall|p: i32|
                    (old(self).active_pids@.contains(p) || p == pid) implies self.active_pids@.contains(p) by {
                    if p == pid {
                        assert(self.active_pids@[prev.len() as int] == p);
                    } else {
                        let k = choose|k: int| 0 <= k < prev.len() && prev[k] == p;
                        assert(self.active_pids@[k] == p);
                    }
                }
            }
        }
    }

    /// Records a failed injection: process `pid` is left alone.
    pub fn ignore_process(&mut self, pid: i32)
        requires
            old(self).wf(),
            !old(self).active_pids@.contains(pid),
        ensures
            final(self).wf(),
            final(self).patch_file@ == old(self).patch_file@,
            final(self).active_pids@ == old(self).active_pids@,
            forall|p: i32|
                final(self).ignored_pids@.contains(p) <==> (old(self).ignored_pids@.contains(p)
                    || p == pid),
    {
        if !pid_vec_contains(&self.ignored_pids, pid) {
            let ghost prev = self.ignored_pids@;
            self.ignored_pids.push(pid);
            proof {
                assert forall|p: i32| self.ignored_pids@.contains(p) implies (old(self).ignored_pids@.contains(p) || p == pid) by {
                    let k = choose|k: int|
                        0 <= k < self.ignored_pids@.len() && self.ignored_pids@[k] == p;
                    if k < prev.len() {
                        assert(prev.contains(p));
                    }
                }
                assert forall|p: i32|
                    (old(self).ignored_pids@.contains(p) || p == pid) implies self.ignored_pids@.contains(p) by {
                    if p == pid {
                        assert(self.ignored_pids@[prev.len() as int] == p);
                    } else {
                        let k = choose|k: int| 0 <= k < prev.len() && prev[k] == p;
                        assert(self.ignored_pids@[k] == p);
                    }
                }
            }
        }
    }

    /// Forgets process `pid` after a successful ejection.
    pub fn remove_process(&mut self, pid: i32)
        requires
            old(self).wf(),
        ensures
            final(self).wf(),
            final(self).patch_file@ == old(self).patch_file@,
            final(self).ignored_pids@ == old(self).ignored_pids@,
            forall|p: i32|
                final(self).active_pids@.contains(p) <==> (old(self).active_pids@.contains(p) && p
                    != pid),
    {
        let n = self.active_pids.len();
        let mut i: usize = 0;
        while i < n
            invariant
                old(self).wf(),
                *self == *old(self),
                n == self.active_pids@.len(),
                0 <= i <= n,
                forall|j: int| 0 <= j < i ==> self.active_pids@[j] != pid,
            decreases n - i,
        {
            if self.active_pids[i] == pid {
                let ghost prev = self.active_pids@;
                self.active_pids.remove(i);
                proof {
                    assert forall|p: i32| self.active_pids@.contains(p) implies (old(self).active_pids@.contains(p) && p != pid) by {
                        let k = choose|k: int|
                            0 <= k < self.active_pids@.len() && self.active_pids@[k] == p;
                        let ok = if k < i { k } else { k + 1 };
                        assert(prev[ok] == p);
                        assert(ok != i);
                    }
                    assert forall|p: i32|
                        (old(self).active_pids@.contains(p) && p != pid) implies self.active_pids@.contains(p) by {
                        let ok = choose|ok: int| 0 <= ok < prev.len() && prev[ok] == p;
                        assert(ok != i);
                        let k = if ok < i { ok } else { ok - 1 };
                        assert(self.active_pids@[k] == p);
                    }
                }
                return ;
            }
            i = i + 1;
        }
        proof {
            assert forall|p: i32|
                (old(self).active_pids@.contains(p) && p != pid) implies self.active_pids@.contains(
                    p,
                ) by {}
        }
    }
}

impl PatchEntity {
    /// Catch-up pass of the monitor: forget dead processes, then
    /// inject into every live process that neither carries the patch
    /// nor failed before.
    pub fn catch_up(&mut self, env: &DriverEnv, proc: &Vec<i32>)
        requires
            old(self).wf(),
        ensures
            final(self).wf(),
            final(self).patch_file@ == old(self).patch_file@,
            forall|p: i32|
                final(self).active_pids@.contains(p) <==> (proc@.contains(p) && (old(self).active_pids@.contains(p) || (!old(self).active_pids@.contains(p) && !old(self).ignored_pids@.contains(p) && !env.inject_failures@.contains(p)))),
            forall|p: i32|
                final(self).ignored_pids@.contains(p) <==> (proc@.contains(p) && (old(self).ignored_pids@.contains(p) || (!old(self).active_pids@.contains(p) && !old(self).ignored_pids@.contains(p) && env.inject_failures@.contains(p)))),
    {
        self.clean_dead_process(proc);
        let ghost cleaned = *self;
        let need = self.need_actived(proc);
        let n = need.len();
        let mut i: usize = 0;
        while i < n
            invariant
                self.wf(),
                n == need@.len(),
                self.patch_file@ == cleaned.patch_file@,
                0 <= i <= n,
                forall|p: i32|
                    need@.contains(p) <==> (proc@.contains(p) && !cleaned.active_pids@.contains(
                        p,
                    )),
                forall|a: int, b: int| 0 <= a < b < need@.len() ==> need@[a] != need@[b],
                forall|p: i32|
                    self.active_pids@.contains(p) <==> (cleaned.active_pids@.contains(p) || (
                    (exists|j: int| 0 <= j < i && need@[j] == p)
                        && !cleaned.ignored_pids@.contains(p) && !env.inject_failures@.contains(
                        p,
                    ))),
                forall|p: i32|
                    self.ignored_pids@.contains(p) <==> (cleaned.ignored_pids@.contains(p) || (
                    (exists|j: int| 0 <= j < i && need@[j] == p)
                        && !cleaned.ignored_pids@.contains(p) && env.inject_failures@.contains(
                        p,
                    ))),
            decreases n - i,
        {
            let pid = need[i];
            proof {
                assert(need@.contains(pid));
            }
            let ghost prev = *self;
            if !pid_vec_contains(&self.ignored_pids, pid) {
                if env.inject_ok(pid) {
                    self.add_process(pid);
                } else {
                    proof {
                        assert(!self.active_pids@.contains(pid)) by {
                            if cleaned.active_pids@.contains(pid) {
                                assert(false);
                            }
                        }
                    }
                    self.ignore_process(pid);
                }
            } else {
                proof {
                    assert(cleaned.ignored_pids@.contains(pid));
                }
            }
            proof {
                assert forall|p: i32|
                    self.active_pids@.contains(p) <==> (cleaned.active_pids@.contains(p) || (
                    (exists|j: int| 0 <= j < i + 1 && need@[j] == p)
                        && !cleaned.ignored_pids@.contains(p) && !env.inject_failures@.contains(
                        p,
                    ))) by {
                    if p != pid {
                        assert((exists|j: int| 0 <= j < i + 1 && need@[j] == p) == (exists|j: int|
                            0 <= j < i && need@[j] == p)) by {
                            if exists|j: int| 0 <= j < i + 1 && need@[j] == p {
                                let j = choose|j: int| 0 <= j < i + 1 && need@[j] == p;
                                assert(j < i);
                            }
                        }
                    }
                }
                assert forall|p: i32|
                    self.ignored_pids@.contains(p) <==> (cleaned.ignored_pids@.contains(p) || (
                    (exists|j: int| 0 <= j < i + 1 && need@[j] == p)
                        && !cleaned.ignored_pids@.contains(p) && env.inject_failures@.contains(
                        p,
                    ))) by {
                    if p != pid {
                        assert((exists|j: int| 0 <= j < i + 1 && need@[j] == p) == (exists|j: int|
                            0 <= j < i && need@[j] == p)) by {
                            if exists|j: int| 0 <= j < i + 1 && need@[j] == p {
                                let j = choose|j: int| 0 <= j < i + 1 && need@[j] == p;
                                assert(j < i);
                            }
                        }
                    }
                }
            }
            i = i + 1;
        }
        proof {
            assert forall|p: i32|
                final(self).active_pids@.contains(p) <==> (proc@.contains(p) && (old(self).active_pids@.contains(p) || (!old(self).active_pids@.contains(p) && !old(self).ignored_pids@.contains(p) && !env.inject_failures@.contains(p)))) by {
                if self.active_pids@.contains(p) {
                    if !cleaned.active_pids@.contains(p) {
                        assert(need@.contains(p));
                    }
                }
                if proc@.contains(p) && !old(self).active_pids@.contains(p) && !old(self).ignored_pids@.contains(p) && !env.inject_failures@.contains(p) {
                    assert(!cleaned.active_pids@.contains(p));
                    assert(need@.contains(p));
                    let j = choose|j: int| 0 <= j < need@.len() && need@[j] == p;
                    assert(!cleaned.ignored_pids@.contains(p));
                }
            }
            assert forall|p: i32|
                final(self).ignored_pids@.contains(p) <==> (proc@.contains(p) && (old(self).ignored_pids@.contains(p) || (!old(self).active_pids@.contains(p) && !old(self).ignored_pids@.contains(p) && env.inject_failures@.contains(p)))) by {
                if self.ignored_pids@.contains(p) {
                    if !cleaned.ignored_pids@.contains(p) {
                        assert(need@.contains(p));
                    }
                }
                if proc@.contains(p) && !old(self).ignored_pids@.contains(p) && !old(self).active_pids@.contains(p) && env.inject_failures@.contains(p) {
                    assert(!cleaned.active_pids@.contains(p));
                    assert(need@.contains(p));
                    let j = choose|j: int| 0 <= j < need@.len() && need@[j] == p;
                    assert(!cleaned.ignored_pids@.contains(p));
                }
            }
        }
    }
}

/// The process-matching rule of target discovery: a process belongs to
/// a target when its executable resolves to it or one of its mapped
/// files carries the target's inode.
pub fn process_matches(exe_is_target: bool, mapped_inodes: &Vec<u64>, target_inode: u64) -> (r:
    bool)
    ensures
        r == (exe_is_target || mapped_inodes@.contains(target_inode)),
{
    if exe_is_target {
        return true;
    }
    let n = mapped_inodes.len();
    let mut i: usize = 0;
    while i < n
        invariant
            n == mapped_inodes@.len(),
            0 <= i <= n,
            forall|j: int| 0 <= j < i ==> mapped_inodes@[j] != target_inode,
        decreases n - i,
    {
        if mapped_inodes[i] == target_inode {
            assert(mapped_inodes@.contains(target_inode));
            return true;
        }
        i = i + 1;
    }
    assert(!mapped_inodes@.contains(target_inode));
    false
}

/// Cached lifecycle state of one user patch, with the target it binds.
#[derive(Debug)]
pub struct UserStatusRecord {
    pub uuid: String,
    pub target_elf: Vec<u8>,
    pub status: PatchStatus,
}

/// Some record carries `uuid`.
pub open spec fn spec_has_record(s: Seq<UserStatusRecord>, uuid: Seq<char>) -> bool {
    exists|i: int| 0 <= i < s.len() && (#[trigger] s[i]).uuid@ == uuid
}

/// Lifecycle state recorded for `uuid`; an unrecorded patch reads
/// `NotApplied`.
pub open spec fn spec_status_lookup(s: Seq<UserStatusRecord>, uuid: Seq<char>) -> PatchStatus
    decreases s.len(),
{
    if s.len() == 0 {
        PatchStatus::NotApplied
    } else if s[0].uuid@ == uuid {
        s[0].status
    } else {
        spec_status_lookup(s.skip(1), uuid)
    }
}

/// Per-target state: the function registry and the process bookkeeping
/// of each active patch.
#[derive(Debug)]
pub struct UserTarget {
    /// Function registry for conflict and override detection.
    pub functions: PatchTarget,
    /// Process bookkeeping per active patch uuid.
    pub entities: Vec<(String, PatchEntity)>,
}

impl UserTarget {
    /// Registry well formed, entity uuids unique, entities well formed.
    pub open spec fn wf(&self) -> bool {
        &&& self.functions.wf()
        &&& forall|a: int, b: int|
            0 <= a < b < self.entities@.len() ==> self.entities@[a].0@ != self.entities@[b].0@
        &&& forall|a: int| 0 <= a < self.entities@.len() ==> (#[trigger] self.entities@[a].1).wf()
    }

    /// A target no patch has touched.
    pub fn new() -> (r: UserTarget)
        ensures
            r.wf(),
            r.functions.records@.len() == 0,
            r.entities@.len() == 0,
    {
        UserTarget { functions: PatchTarget::new(), entities: Vec::new() }
    }

    fn find_entity(&self, uuid: &String) -> (r: Option<usize>)
        ensures
            match r {
                Some(i) => 0 <= i < self.entities@.len() && self.entities@[i as int].0@ == uuid@,
                None => forall|i: int|
                    0 <= i < self.entities@.len() ==> self.entities@[i].0@ != uuid@,
            },
    {
        let n = self.entities.len();
        let mut i: usize = 0;
        while i < n
            invariant
                n == self.entities@.len(),
                0 <= i <= n,
                forall|j: int| 0 <= j < i ==> self.entities@[j].0@ != uuid@,
            decreases n - i,
        {
            if self.entities[i].0.eq(uuid) {
                return Some(i);
            }
            i = i + 1;
        }
        None
    }
}

/// Builds the process bookkeeping of a fresh activation: every live
/// process is injected once; failures are recorded, not retried.
fn build_entity(env: &DriverEnv, patch_file: &Vec<u8>, proc: &Vec<i32>) -> (r: PatchEntity)
    ensures
        r.wf(),
        r.patch_file@ == patch_file@,
        forall|p: i32|
            r.active_pids@.contains(p) <==> (proc@.contains(p) && !env.inject_failures@.contains(
                p,
            )),
        forall|p: i32|
            r.ignored_pids@.contains(p) <==> (proc@.contains(p) && env.inject_failures@.contains(
                p,
            )),
{
    let mut ent = PatchEntity::new(copy_bytes(patch_file));
    let n = proc.len();
    let mut i: usize = 0;
    while i < n
        invariant
            n == proc@.len(),
            0 <= i <= n,
            ent.wf(),
            ent.patch_file@ == patch_file@,
            forall|p: i32|
                ent.active_pids@.contains(p) <==> ((exists|j: int| 0 <= j < i && proc@[j] == p)
                    && !env.inject_failures@.contains(p)),
            forall|p: i32|
                ent.ignored_pids@.contains(p) <==> ((exists|j: int| 0 <= j < i && proc@[j] == p)
                    && env.inject_failures@.contains(p)),
        decreases n - i,
    {
        let pid = proc[i];
        let seen = pid_vec_contains(&ent.active_pids, pid) || pid_vec_contains(
            &ent.ignored_pids,
            pid,
        );
        if !seen {
            if env.inject_ok(pid) {
                ent.add_process(pid);
            } else {
                ent.ignore_process(pid);
            }
        }
        proof {
            assert(proc@[i as int] == pid);
            assert forall|p: i32|
                ent.active_pids@.contains(p) <==> ((exists|j: int|
                    0 <= j < i + 1 && proc@[j] == p) && !env.inject_failures@.contains(p)) by {
                if p != pid {
                    assert((exists|j: int| 0 <= j < i + 1 && proc@[j] == p) == (exists|j: int|
                        0 <= j < i && proc@[j] == p)) by {
                        if exists|j: int| 0 <= j < i + 1 && proc@[j] == p {
                            let j = choose|j: int| 0 <= j < i + 1 && proc@[j] == p;
                            assert(j < i);
                        }
                    }
                }
            }
            assert forall|p: i32|
                ent.ignored_pids@.contains(p) <==> ((exists|j: int|
                    0 <= j < i + 1 && proc@[j] == p) && env.inject_failures@.contains(p)) by {
                if p != pid {
                    assert((exists|j: int| 0 <= j < i + 1 && proc@[j] == p) == (exists|j: int|
                        0 <= j < i && proc@[j] == p)) by {
                        if exists|j: int| 0 <= j < i + 1 && proc@[j] == p {
                            let j = choose|j: int| 0 <= j < i + 1 && proc@[j] == p;
                            assert(j < i);
                        }
                    }
                }
            }
        }
        i = i + 1;
    }
    ent
}

impl UserTarget {
    /// The patch `uuid` tracks processes here.
    pub open spec fn has_entity(&self, uuid: Seq<char>) -> bool {
        exists|e: int| 0 <= e < self.entities@.len() && self.entities@[e].0@ == uuid
    }

    /// Process `p` carries the patch `uuid`.
    pub open spec fn entity_active(&self, uuid: Seq<char>, p: i32) -> bool {
        exists|e: int|
            0 <= e < self.entities@.len() && self.entities@[e].0@ == uuid
                && self.entities@[e].1.active_pids@.contains(p)
    }

    /// Process `p` is left alone for the patch `uuid`.
    pub open spec fn entity_ignored(&self, uuid: Seq<char>, p: i32) -> bool {
        exists|e: int|
            0 <= e < self.entities@.len() && self.entities@[e].0@ == uuid
                && self.entities@[e].1.ignored_pids@.contains(p)
    }

    /// Injects a newly activated patch into every live process and
    /// registers its functions.  Succeeds when some process took the
    /// patch or none was alive.
    #[verifier::rlimit(100)]
    fn activate_entity(
        &mut self,
        env: &DriverEnv,
        uuid: &String,
        patch_file: &Vec<u8>,
        functions: &Vec<Vec<u8>>,
        proc: &Vec<i32>,
    ) -> (r: Result<(), PatchError>)
        requires
            old(self).wf(),
        ensures
            final(self).wf(),
            match r {
                Ok(()) => {
                    &&& !old(self).has_entity(uuid@)
                    &&& (proc@.len() == 0 || exists|p: i32|
                        proc@.contains(p) && !env.inject_failures@.contains(p))
                    &&& final(self).has_entity(uuid@)
                    &&& forall|u: Seq<char>|
                        u != uuid@ ==> final(self).has_entity(u) == old(self).has_entity(u)
                    &&& forall|p: i32|
                        final(self).entity_active(uuid@, p) <==> (proc@.contains(p)
                            && !env.inject_failures@.contains(p))
                    &&& forall|p: i32|
                        final(self).entity_ignored(uuid@, p) <==> (proc@.contains(p)
                            && env.inject_failures@.contains(p))
                    &&& forall|u: Seq<char>, p: i32|
                        u != uuid@ ==> (final(self).entity_active(u, p) == old(self).entity_active(
                            u,
                            p,
                        ) && final(self).entity_ignored(u, p) == old(self).entity_ignored(u, p))
                    &&& forall|u: Seq<char>, f: Seq<u8>|
                        final(self).functions.covers(u, f) <==> (old(self).functions.covers(u, f)
                            || (u == uuid@ && exists|k: int|
                            0 <= k < functions@.len() && functions@[k]@ == f))
                },
                Err(e) => {
                    &&& *final(self) == *old(self)
                    &&& ((e.kind == ErrorKind::DriverFailure && old(self).has_entity(uuid@)) || (
                    e.kind == ErrorKind::DriverFailure && !old(self).has_entity(uuid@)
                        && proc@.len() > 0 && forall|p: i32|
                        proc@.contains(p) ==> env.inject_failures@.contains(p)))
                },
            },
    {
        if self.find_entity(uuid).is_some() {
            return Err(PatchError::of(ErrorKind::DriverFailure, "Patch is already applied"));
        }
        let ent = build_entity(env, patch_file, proc);
        if proc.len() > 0 && ent.active_pids.len() == 0 {
            proof {
                assert forall|p: i32| proc@.contains(p) implies env.inject_failures@.contains(
                    p,
                ) by {
                    if !env.inject_failures@.contains(p) {
                        assert(ent.active_pids@.contains(p));
                    }
                }
            }
            return Err(PatchError::of(ErrorKind::DriverFailure, "Failed to active patch"));
        }
        proof {
            if proc@.len() > 0 {
                assert(ent.active_pids@.len() > 0);
                let p0 = ent.active_pids@[0];
                assert(ent.active_pids@.contains(p0));
                assert(proc@.contains(p0) && !env.inject_failures@.contains(p0));
                assert(exists|p: i32| proc@.contains(p) && !env.inject_failures@.contains(p));
            }
        }
        let ghost before = *self;
        let ghost gent = ent;
        self.entities.push((uuid.clone(), ent));
        let ghost mid = *self;
        proof {
            let last = before.entities@.len() as int;
            assert(mid.entities@[last].0@ == uuid@ && mid.entities@[last].1 == gent);
            assert forall|e: int| 0 <= e < before.entities@.len() implies mid.entities@[e]
                == before.entities@[e] by {}
            assert(mid.has_entity(uuid@));
            assert forall|u: Seq<char>| u != uuid@ implies mid.has_entity(u) == before.has_entity(
                u,
            ) by {
                if mid.has_entity(u) {
                    let e = choose|e: int|
                        0 <= e < mid.entities@.len() && mid.entities@[e].0@ == u;
                    assert(e != last);
                    assert(before.entities@[e].0@ == u);
                }
                if before.has_entity(u) {
                    let e = choose|e: int|
                        0 <= e < before.entities@.len() && before.entities@[e].0@ == u;
                    assert(mid.entities@[e].0@ == u);
                }
            }
            assert forall|p: i32| mid.entity_active(uuid@, p) <==> (proc@.contains(p)
                && !env.inject_failures@.contains(p)) by {
                assert(gent.active_pids@.contains(p) == (proc@.contains(p)
                    && !env.inject_failures@.contains(p)));
                if mid.entity_active(uuid@, p) {
                    let e = choose|e: int|
                        0 <= e < mid.entities@.len() && mid.entities@[e].0@ == uuid@
                            && mid.entities@[e].1.active_pids@.contains(p);
                    assert(e == last);
                    assert(gent.active_pids@.contains(p));
                }
                if proc@.contains(p) && !env.inject_failures@.contains(p) {
                    assert(gent.active_pids@.contains(p));
                    assert(mid.entities@[last].1.active_pids@.contains(p));
                }
            }
            assert forall|p: i32| mid.entity_ignored(uuid@, p) <==> (proc@.contains(p)
                && env.inject_failures@.contains(p)) by {
                assert(gent.ignored_pids@.contains(p) == (proc@.contains(p)
                    && env.inject_failures@.contains(p)));
                if mid.entity_ignored(uuid@, p) {
                    let e = choose|e: int|
                        0 <= e < mid.entities@.len() && mid.entities@[e].0@ == uuid@
                            && mid.entities@[e].1.ignored_pids@.contains(p);
                    assert(e == last);
                    assert(gent.ignored_pids@.contains(p));
                }
                if proc@.contains(p) && env.inject_failures@.contains(p) {
                    assert(gent.ignored_pids@.contains(p));
                    assert(mid.entities@[last].1.ignored_pids@.contains(p));
                }
            }
            assert forall|u: Seq<char>, p: i32| u != uuid@ implies (mid.entity_active(u, p)
                == before.entity_active(u, p) && mid.entity_ignored(u, p)
                == before.entity_ignored(u, p)) by {
                if mid.entity_active(u, p) {
                    let e = choose|e: int|
                        0 <= e < mid.entities@.len() && mid.entities@[e].0@ == u
                            && mid.entities@[e].1.active_pids@.contains(p);
                    assert(e != last);
                    assert(before.entities@[e].0@ == u
                        && before.entities@[e].1.active_pids@.contains(p));
                }
                if before.entity_active(u, p) {
                    let e = choose|e: int|
                        0 <= e < before.entities@.len() && before.entities@[e].0@ == u
                            && before.entities@[e].1.active_pids@.contains(p);
                    assert(mid.entities@[e].0@ == u
                        && mid.entities@[e].1.active_pids@.contains(p));
                }
                if mid.entity_ignored(u, p) {
                    let e = choose|e: int|
                        0 <= e < mid.entities@.len() && mid.entities@[e].0@ == u
                            && mid.entities@[e].1.ignored_pids@.contains(p);
                    assert(e != last);
                    assert(before.entities@[e].0@ == u
                        && before.entities@[e].1.ignored_pids@.contains(p));
                }
                if before.entity_ignored(u, p) {
                    let e = choose|e: int|
                        0 <= e < before.entities@.len() && before.entities@[e].0@ == u
                            && before.entities@[e].1.ignored_pids@.contains(p);
                    assert(mid.entities@[e].0@ == u
                        && mid.entities@[e].1.ignored_pids@.contains(p));
                }
            }
        }
        self.functions.add_symbols(uuid, functions);
        proof {
            assert(self.entities@ == mid.entities@);
            assert forall|u: Seq<char>| #![all_triggers] true implies self.has_entity(u)
                == mid.has_entity(u) by {}
            assert forall|u: Seq<char>, p: i32| #![all_triggers] true implies (self.entity_active(
                u,
                p,
            ) == mid.entity_active(u, p) && self.entity_ignored(u, p) == mid.entity_ignored(
                u,
                p,
            )) by {}
            assert(!old(self).has_entity(uuid@)) by {
                if old(self).has_entity(uuid@) {
                    let e = choose|e: int|
                        0 <= e < old(self).entities@.len() && old(self).entities@[e].0@ == uuid@;
                }
            }

            assert(self.wf()) by {
                assert forall|a: int, b: int|
                    0 <= a < b < self.entities@.len() implies self.entities@[a].0@
                    != self.entities@[b].0@ by {
                    if b == self.entities@.len() - 1 {
                        assert(self.entities@[a] == old(self).entities@[a]);
                    } else {
                        assert(self.entities@[a] == old(self).entities@[a]);
                        assert(self.entities@[b] == old(self).entities@[b]);
                    }
                }
                assert forall|a: int|
                    0 <= a < self.entities@.len() implies (#[trigger] self.entities@[a].1).wf() by {
                    if a < self.entities@.len() - 1 {
                        assert(self.entities@[a] == old(self).entities@[a]);
                    } else {
                        assert(self.entities@[a].1 == gent);
                    }
                }
            }
        }
        Ok(())
    }
}

impl UserTarget {
    /// Ejects the patch `uuid` from every live process that carries
    /// it, then unregisters it.  Any injection failure is fatal: the
    /// half-deactivated bookkeeping is kept and an error returned.
    #[verifier::rlimit(60)]
    fn deactivate_entity(&mut self, env: &DriverEnv, uuid: &String, proc: &Vec<i32>) -> (r: Result<
        (),
        PatchError,
    >)
        requires
            old(self).wf(),
        ensures
            final(self).wf(),
            forall|u: Seq<char>|
                u != uuid@ ==> final(self).has_entity(u) == old(self).has_entity(u),
            forall|u: Seq<char>, p: i32|
                u != uuid@ ==> (final(self).entity_active(u, p) == old(self).entity_active(u, p)
                    && final(self).entity_ignored(u, p) == old(self).entity_ignored(u, p)),
            match r {
                Ok(()) => {
                    &&& old(self).has_entity(uuid@)
                    &&& !final(self).has_entity(uuid@)
                    &&& forall|u: Seq<char>, f: Seq<u8>|
                        final(self).functions.covers(u, f) <==> (old(self).functions.covers(u, f)
                            && u != uuid@)
                    &&& forall|p: i32|
                        old(self).entity_active(uuid@, p) && proc@.contains(p) && !(old(self).entity_ignored(uuid@, p)) ==> !env.inject_failures@.contains(p)
                },
                Err(e) => {
                    &&& forall|u: Seq<char>, f: Seq<u8>|
                        final(self).functions.covers(u, f) == old(self).functions.covers(u, f)
                    &&& final(self).has_entity(uuid@) == old(self).has_entity(uuid@)
                    &&& ((e.kind == ErrorKind::NotFound && !old(self).has_entity(uuid@)) || (
                    e.kind == ErrorKind::DriverFailure && exists|p: i32|
                        old(self).entity_active(uuid@, p) && proc@.contains(p) && !old(
                            self,
                        ).entity_ignored(uuid@, p) && env.inject_failures@.contains(p)))
                },
            },
    {
        let idx = match self.find_entity(uuid) {
            None => {
                proof {
                    if old(self).has_entity(uuid@) {
                        let e = choose|e: int|
                            0 <= e < old(self).entities@.len() && old(self).entities@[e].0@
                                == uuid@;
                    }
                }
                return Err(PatchError::of(ErrorKind::NotFound, "Cannot find patch entity"));
            },
            Some(e) => e,
        };
        let ghost start = *self;
        let ent = &mut self.entities[idx];
        let ghost old_ent = ent.1;
        ent.1.clean_dead_process(proc);
        let need = ent.1.need_deactived(proc);
        let ghost cleaned = ent.1;
        let n = need.len();
        let mut any_fail = false;
        let mut i: usize = 0;
        while i < n
            invariant
                cleaned.wf(),
                ent.1.wf(),
                ent.0 == start.entities@[idx as int].0,
                n == need@.len(),
                0 <= i <= n,
                forall|p: i32|
                    need@.contains(p) <==> (cleaned.active_pids@.contains(p) && proc@.contains(
                        p,
                    )),
                forall|a: int, b: int| 0 <= a < b < need@.len() ==> need@[a] != need@[b],
                ent.1.ignored_pids@ == cleaned.ignored_pids@,
                ent.1.patch_file@ == cleaned.patch_file@,
                forall|p: i32|
                    ent.1.active_pids@.contains(p) <==> (cleaned.active_pids@.contains(p) && !(
                    (exists|j: int| 0 <= j < i && need@[j] == p)
                        && !cleaned.ignored_pids@.contains(p) && !env.inject_failures@.contains(
                        p,
                    ))),
                any_fail == (exists|j: int|
                    0 <= j < i && !cleaned.ignored_pids@.contains(need@[j])
                        && env.inject_failures@.contains(need@[j])),
            decreases n - i,
        {
            let pid = need[i];
            proof {
                assert(need@.contains(pid));
            }
            if !pid_vec_contains(&ent.1.ignored_pids, pid) {
                if env.inject_ok(pid) {
                    ent.1.remove_process(pid);
                } else {
                    any_fail = true;
                    proof {
                        assert(!cleaned.ignored_pids@.contains(need@[i as int])
                            && env.inject_failures@.contains(need@[i as int]));
                    }
                }
            }
            proof {
                assert forall|p: i32|
                    ent.1.active_pids@.contains(p) <==> (cleaned.active_pids@.contains(p) && !(
                    (exists|j: int| 0 <= j < i + 1 && need@[j] == p)
                        && !cleaned.ignored_pids@.contains(p) && !env.inject_failures@.contains(
                        p,
                    ))) by {
                    if p != pid {
                        assert((exists|j: int| 0 <= j < i + 1 && need@[j] == p) == (exists|j: int|
                            0 <= j < i && need@[j] == p)) by {
                            if exists|j: int| 0 <= j < i + 1 && need@[j] == p {
                                let j = choose|j: int| 0 <= j < i + 1 && need@[j] == p;
                                assert(j < i);
                            }
                        }
                    }
                }
                if any_fail {
                } else {
                    assert forall|j: int|
                        0 <= j < i + 1 implies !(!cleaned.ignored_pids@.contains(need@[j])
                            && env.inject_failures@.contains(need@[j])) by {}
                }
            }
            i = i + 1;
        }
        let ghost after_loop = *self;
        proof {
            assert forall|e: int|
                0 <= e < self.entities@.len() && e != idx implies self.entities@[e]
                == start.entities@[e] by {}
        }
        if any_fail {
            proof {
                lemma_entity_mutation_frame(start, after_loop, idx as int);
                lemma_unique_entity_specs(start, start.entities@[idx as int].0@, idx as int);
                let j = choose|j: int|
                    0 <= j < need@.len() && !cleaned.ignored_pids@.contains(need@[j])
                        && env.inject_failures@.contains(need@[j]);
                let pid = need@[j];
                assert(need@.contains(pid));
                assert(proc@.contains(pid) && env.inject_failures@.contains(pid));
                assert(cleaned.active_pids@.contains(pid));
                assert(old_ent.active_pids@.contains(pid));
                assert(start.entities@[idx as int].0@ == uuid@);
                assert(start.entity_active(uuid@, pid));
                assert(!old_ent.ignored_pids@.contains(pid)) by {
                    if old_ent.ignored_pids@.contains(pid) {
                        assert(cleaned.ignored_pids@.contains(pid));
                    }
                }
                assert(!start.entity_ignored(uuid@, pid));
            }
            return Err(PatchError::of(ErrorKind::DriverFailure, "Failed to deactive patch"));
        }
        let ghost before_rm = *self;
        self.entities.remove(idx);
        self.functions.remove_patch(uuid);
        proof {
            assert forall|e: int| 0 <= e < self.entities@.len() implies self.entities@[e]
                == start.entities@[(if e < idx { e } else { e + 1 })] by {}
            assert(!self.has_entity(uuid@)) by {
                if self.has_entity(uuid@) {
                    let e = choose|e: int|
                        0 <= e < self.entities@.len() && self.entities@[e].0@ == uuid@;
                    let oe = if e < idx { e } else { e + 1 };
                    assert(start.entities@[oe].0@ == uuid@);
                    assert(oe != idx);
                    assert(false);
                }
            }
            assert forall|u: Seq<char>| u != uuid@ implies self.has_entity(u) == start.has_entity(
                u,
            ) by {
                if self.has_entity(u) {
                    let e = choose|e: int|
                        0 <= e < self.entities@.len() && self.entities@[e].0@ == u;
                    let oe = if e < idx { e } else { e + 1 };
                    assert(start.entities@[oe].0@ == u);
                }
                if start.has_entity(u) {
                    let oe = choose|oe: int|
                        0 <= oe < start.entities@.len() && start.entities@[oe].0@ == u;
                    assert(oe != idx);
                    let e = if oe < idx { oe } else { oe - 1 };
                    assert(self.entities@[e].0@ == u);
                }
            }
            assert forall|u: Seq<char>, p: i32| u != uuid@ implies (self.entity_active(u, p)
                == start.entity_active(u, p) && self.entity_ignored(u, p) == start.entity_ignored(
                u,
                p,
            )) by {
                if self.entity_active(u, p) {
                    let e = choose|e: int|
                        0 <= e < self.entities@.len() && self.entities@[e].0@ == u
                            && self.entities@[e].1.active_pids@.contains(p);
                    let oe = if e < idx { e } else { e + 1 };
                    assert(start.entities@[oe].0@ == u
                        && start.entities@[oe].1.active_pids@.contains(p));
                }
                if start.entity_active(u, p) {
                    let oe = choose|oe: int|
                        0 <= oe < start.entities@.len() && start.entities@[oe].0@ == u
                            && start.entities@[oe].1.active_pids@.contains(p);
                    assert(oe != idx);
                    let e = if oe < idx { oe } else { oe - 1 };
                    assert(self.entities@[e].0@ == u
                        && self.entities@[e].1.active_pids@.contains(p));
                }
                if self.entity_ignored(u, p) {
                    let e = choose|e: int|
                        0 <= e < self.entities@.len() && self.entities@[e].0@ == u
                            && self.entities@[e].1.ignored_pids@.contains(p);
                    let oe = if e < idx { e } else { e + 1 };
                    assert(start.entities@[oe].0@ == u
                        && start.entities@[oe].1.ignored_pids@.contains(p));
                }
                if start.entity_ignored(u, p) {
                    let oe = choose|oe: int|
                        0 <= oe < start.entities@.len() && start.entities@[oe].0@ == u
                            && start.entities@[oe].1.ignored_pids@.contains(p);
                    assert(oe != idx);
                    let e = if oe < idx { oe } else { oe - 1 };
                    assert(self.entities@[e].0@ == u
                        && self.entities@[e].1.ignored_pids@.contains(p));
                }
            }
            assert forall|p: i32|
                start.entity_active(uuid@, p) && proc@.contains(p) && !(start.entity_ignored(
                    uuid@,
                    p,
                )) implies !env.inject_failures@.contains(p) by {
                if start.entity_active(uuid@, p) {
                    let e = choose|e: int|
                        0 <= e < start.entities@.len() && start.entities@[e].0@ == uuid@
                            && start.entities@[e].1.active_pids@.contains(p);
                    assert(e == idx);
                    assert(old_ent.active_pids@.contains(p));
                    if proc@.contains(p) {
                        assert(cleaned.active_pids@.contains(p));
                        assert(need@.contains(p));
                        let j = choose|j: int| 0 <= j < need@.len() && need@[j] == p;
                        if !start.entity_ignored(uuid@, p) {
                            assert(!old_ent.ignored_pids@.contains(p)) by {
                                if old_ent.ignored_pids@.contains(p) {
                                    assert(start.entities@[idx as int].1.ignored_pids@.contains(
                                        p,
                                    ));
                                    assert(start.entity_ignored(uuid@, p));
                                }
                            }
                            assert(!cleaned.ignored_pids@.contains(p));
                            if env.inject_failures@.contains(p) {
                                assert(!cleaned.ignored_pids@.contains(need@[j])
                                    && env.inject_failures@.contains(need@[j]));
                                assert(false);
                            }
                        }
                    }
                }
            }
        }
        Ok(())
    }

    /// Catch-up pass over every patch of this target.
    fn catch_up_all(&mut self, env: &DriverEnv, proc: &Vec<i32>)
        requires
            old(self).wf(),
        ensures
            final(self).wf(),
            forall|u: Seq<char>, f: Seq<u8>|
                final(self).functions.covers(u, f) == old(self).functions.covers(u, f),
            forall|u: Seq<char>| final(self).has_entity(u) == old(self).has_entity(u),
            forall|u: Seq<char>, p: i32|
                old(self).has_entity(u) ==> (final(self).entity_active(u, p) <==> (proc@.contains(
                    p,
                ) && (old(self).entity_active(u, p) || (!old(self).entity_active(u, p) && !old(self).entity_ignored(u, p) && !env.inject_failures@.contains(p))))),
            forall|u: Seq<char>, p: i32|
                old(self).has_entity(u) ==> (final(self).entity_ignored(u, p) <==> (proc@.contains(
                    p,
                ) && (old(self).entity_ignored(u, p) || (!old(self).entity_active(u, p) && !old(self).entity_ignored(u, p) && env.inject_failures@.contains(p))))),
    {
        let n = self.entities.len();
        let mut e: usize = 0;
        while e < n
            invariant
                self.wf(),
                n == self.entities@.len(),
                0 <= e <= n,
                self.functions == old(self).functions,
                self.entities@.len() == old(self).entities@.len(),
                forall|z: int| 0 <= z < n ==> self.entities@[z].0 == old(self).entities@[z].0,
                forall|z: int| e <= z < n ==> self.entities@[z] == old(self).entities@[z],
                forall|z: int, p: i32|
                    0 <= z < e ==> ((#[trigger] self.entities@[z].1.active_pids@.contains(p))
                        <==> (proc@.contains(p) && (old(self).entities@[z].1.active_pids@.contains(
                        p,
                    ) || (!old(self).entities@[z].1.active_pids@.contains(p) && !old(self).entities@[z].1.ignored_pids@.contains(p) && !env.inject_failures@.contains(
                        p,
                    ))))),
                forall|z: int, p: i32|
                    0 <= z < e ==> ((#[trigger] self.entities@[z].1.ignored_pids@.contains(p))
                        <==> (proc@.contains(p) && (old(self).entities@[z].1.ignored_pids@.contains(p) || (!old(self).entities@[z].1.active_pids@.contains(p) && !old(self).entities@[z].1.ignored_pids@.contains(p) && env.inject_failures@.contains(
                        p,
                    ))))),
            decreases n - e,
        {
            let ghost before = *self;
            let ent = &mut self.entities[e];
            ent.1.catch_up(env, proc);
            proof {
                assert forall|z: int|
                    0 <= z < self.entities@.len() && z != e implies self.entities@[z]
                    == before.entities@[z] by {}
            }
            e = e + 1;
        }
        proof {
            assert forall|u: Seq<char>, p: i32|
                old(self).has_entity(u) implies (final(self).entity_active(u, p) <==> (
            proc@.contains(p) && (old(self).entity_active(u, p) || (!old(self).entity_active(u, p)
                && !old(self).entity_ignored(u, p) && !env.inject_failures@.contains(p))))) by {
                let z = choose|z: int|
                    0 <= z < old(self).entities@.len() && old(self).entities@[z].0@ == u;
                lemma_unique_entity_specs(*old(self), u, z);
                lemma_unique_entity_specs(*self, u, z);
            }
            assert forall|u: Seq<char>, p: i32|
                old(self).has_entity(u) implies (final(self).entity_ignored(u, p) <==> (
            proc@.contains(p) && (old(self).entity_ignored(u, p) || (!old(self).entity_active(
                u,
                p,
            ) && !old(self).entity_ignored(u, p) && env.inject_failures@.contains(p))))) by {
                let z = choose|z: int|
                    0 <= z < old(self).entities@.len() && old(self).entities@[z].0@ == u;
                lemma_unique_entity_specs(*old(self), u, z);
                lemma_unique_entity_specs(*self, u, z);
            }
            assert forall|u: Seq<char>| final(self).has_entity(u) == old(self).has_entity(u) by {
                if final(self).has_entity(u) {
                    let z = choose|z: int|
                        0 <= z < self.entities@.len() && self.entities@[z].0@ == u;
                    assert(old(self).entities@[z].0@ == u);
                }
                if old(self).has_entity(u) {
                    let z = choose|z: int|
                        0 <= z < old(self).entities@.len() && old(self).entities@[z].0@ == u;
                    assert(self.entities@[z].0@ == u);
                }
            }
        }
    }
}

/// With unique entity uuids, the entity predicates of `u` are decided
/// by its single entity record.
proof fn lemma_unique_entity_specs(t: UserTarget, u: Seq<char>, z: int)
    requires
        t.wf(),
        0 <= z < t.entities@.len(),
        t.entities@[z].0@ == u,
    ensures
        forall|p: i32| t.entity_active(u, p) == t.entities@[z].1.active_pids@.contains(p),
        forall|p: i32| t.entity_ignored(u, p) == t.entities@[z].1.ignored_pids@.contains(p),
        t.has_entity(u),
{
    assert forall|p: i32| t.entity_active(u, p) == t.entities@[z].1.active_pids@.contains(p) by {
        if t.entity_active(u, p) {
            let e = choose|e: int|
                0 <= e < t.entities@.len() && t.entities@[e].0@ == u
                    && t.entities@[e].1.active_pids@.contains(p);
            assert(e == z);
        }
    }
    assert forall|p: i32| t.entity_ignored(u, p) == t.entities@[z].1.ignored_pids@.contains(p) by {
        if t.entity_ignored(u, p) {
            let e = choose|e: int|
                0 <= e < t.entities@.len() && t.entities@[e].0@ == u
                    && t.entities@[e].1.ignored_pids@.contains(p);
            assert(e == z);
        }
    }
}

/// Mutating one entity's pid sets leaves uuids, the registry and the
/// other entities alone.
proof fn lemma_entity_mutation_frame(b: UserTarget, a: UserTarget, idx: int)
    requires
        b.wf(),
        a.functions == b.functions,
        a.entities@.len() == b.entities@.len(),
        0 <= idx < b.entities@.len(),
        forall|e: int| 0 <= e < b.entities@.len() && e != idx ==> a.entities@[e] == b.entities@[e],
        a.entities@[idx].0 == b.entities@[idx].0,
    ensures
        forall|u: Seq<char>| a.has_entity(u) == b.has_entity(u),
        forall|u: Seq<char>, f: Seq<u8>| a.functions.covers(u, f) == b.functions.covers(u, f),
        forall|u: Seq<char>, p: i32|
            u != b.entities@[idx].0@ ==> (a.entity_active(u, p) == b.entity_active(u, p)
                && a.entity_ignored(u, p) == b.entity_ignored(u, p)),
{
    assert forall|u: Seq<char>| a.has_entity(u) == b.has_entity(u) by {
        if a.has_entity(u) {
            let e = choose|e: int| 0 <= e < a.entities@.len() && a.entities@[e].0@ == u;
            assert(b.entities@[e].0@ == u);
        }
        if b.has_entity(u) {
            let e = choose|e: int| 0 <= e < b.entities@.len() && b.entities@[e].0@ == u;
            assert(a.entities@[e].0@ == u);
        }
    }
    assert forall|u: Seq<char>, p: i32|
        u != b.entities@[idx].0@ implies (a.entity_active(u, p) == b.entity_active(u, p)
            && a.entity_ignored(u, p) == b.entity_ignored(u, p)) by {
        if a.entity_active(u, p) {
            let e = choose|e: int|
                0 <= e < a.entities@.len() && a.entities@[e].0@ == u
                    && a.entities@[e].1.active_pids@.contains(p);
            assert(e != idx);
            assert(b.entities@[e].0@ == u && b.entities@[e].1.active_pids@.contains(p));
        }
        if b.entity_active(u, p) {
            let e = choose|e: int|
                0 <= e < b.entities@.len() && b.entities@[e].0@ == u
                    && b.entities@[e].1.active_pids@.contains(p);
            assert(e != idx);
            assert(a.entities@[e].0@ == u && a.entities@[e].1.active_pids@.contains(p));
        }
        if a.entity_ignored(u, p) {
            let e = choose|e: int|
                0 <= e < a.entities@.len() && a.entities@[e].0@ == u
                    && a.entities@[e].1.ignored_pids@.contains(p);
            assert(e != idx);
            assert(b.entities@[e].0@ == u && b.entities@[e].1.ignored_pids@.contains(p));
        }
        if b.entity_ignored(u, p) {
            let e = choose|e: int|
                0 <= e < b.entities@.len() && b.entities@[e].0@ == u
                    && b.entities@[e].1.ignored_pids@.contains(p);
            assert(e != idx);
            assert(a.entities@[e].0@ == u && a.entities@[e].1.ignored_pids@.contains(p));
        }
    }
}

/// The user patch driver: per-patch statuses, per-target registries and
/// process bookkeeping, and the set of watched target paths.
#[derive(Debug)]
pub struct UserPatchDriver {
    /// Cached lifecycle state per patch uuid.
    pub status_map: Vec<UserStatusRecord>,
    /// Per-target registries and process bookkeeping.
    pub target_map: Vec<(Vec<u8>, UserTarget)>,
    /// Target paths the monitor is asked to watch.
    pub watched: Vec<Vec<u8>>,
}

impl UserPatchDriver {
    /// Status uuids unique, target keys unique, targets well formed.
    pub open spec fn wf(&self) -> bool {
        &&& forall|a: int, b: int|
            0 <= a < b < self.status_map@.len() ==> self.status_map@[a].uuid@
                != self.status_map@[b].uuid@
        &&& forall|a: int, b: int|
            0 <= a < b < self.target_map@.len() ==> self.target_map@[a].0@
                != self.target_map@[b].0@
        &&& forall|a: int| 0 <= a < self.target_map@.len() ==> (#[trigger] self.target_map@[a].1).wf()
        &&& forall|a: int, b: int|
            0 <= a < b < self.watched@.len() ==> self.watched@[a]@ != self.watched@[b]@
        &&& forall|i: int|
            0 <= i < self.status_map@.len() ==> (#[trigger] self.status_map@[i]).status
                != PatchStatus::Unknown
    }

    /// Some patch of the target at `elf` is at least applied.
    pub open spec fn spec_applied(&self, elf: Seq<u8>) -> bool {
        exists|i: int|
            0 <= i < self.status_map@.len() && self.status_map@[i].target_elf@ == elf
                && self.status_map@[i].status.rank() >= PatchStatus::Deactived.rank()
    }

    /// The target at `elf` has an entry in the target map.
    pub open spec fn spec_target_present(&self, elf: Seq<u8>) -> bool {
        exists|t: int| 0 <= t < self.target_map@.len() && self.target_map@[t].0@ == elf
    }

    /// A target is kept in the registry exactly while at least one
    /// patch of it is applied.
    pub open spec fn target_inv(&self) -> bool {
        forall|elf: Seq<u8>| self.spec_target_present(elf) <==> self.spec_applied(elf)
    }

    /// Every status record of `uuid` binds it to the target at `elf`.
    pub open spec fn uuid_elf_ok(&self, uuid: Seq<char>, elf: Seq<u8>) -> bool {
        forall|i: int|
            0 <= i < self.status_map@.len() && (#[trigger] self.status_map@[i]).uuid@ == uuid
                ==> self.status_map@[i].target_elf@ == elf
    }

    /// The patch `uuid` covers the function `f` of the target at `elf`.
    pub open spec fn user_covers(&self, elf: Seq<u8>, uuid: Seq<char>, f: Seq<u8>) -> bool {
        exists|t: int|
            0 <= t < self.target_map@.len() && self.target_map@[t].0@ == elf
                && self.target_map@[t].1.functions.covers(uuid, f)
    }

    /// The target at `elf` tracks processes for the patch `uuid`.
    pub open spec fn spec_has_entity(&self, elf: Seq<u8>, uuid: Seq<char>) -> bool {
        exists|t: int, e: int|
            0 <= t < self.target_map@.len() && self.target_map@[t].0@ == elf && 0 <= e
                < self.target_map@[t].1.entities@.len() && self.target_map@[t].1.entities@[e].0@
                == uuid
    }

    /// The patch `uuid` is injected into process `p` of the target at
    /// `elf`.
    pub open spec fn spec_entity_active(&self, elf: Seq<u8>, uuid: Seq<char>, p: i32) -> bool {
        exists|t: int, e: int|
            0 <= t < self.target_map@.len() && self.target_map@[t].0@ == elf && 0 <= e
                < self.target_map@[t].1.entities@.len() && self.target_map@[t].1.entities@[e].0@
                == uuid && self.target_map@[t].1.entities@[e].1.active_pids@.contains(p)
    }

    /// Process `p` of the target at `elf` is left alone for `uuid`.
    pub open spec fn spec_entity_ignored(&self, elf: Seq<u8>, uuid: Seq<char>, p: i32) -> bool {
        exists|t: int, e: int|
            0 <= t < self.target_map@.len() && self.target_map@[t].0@ == elf && 0 <= e
                < self.target_map@[t].1.entities@.len() && self.target_map@[t].1.entities@[e].0@
                == uuid && self.target_map@[t].1.entities@[e].1.ignored_pids@.contains(p)
    }

    /// The monitor is asked to watch the target at `elf`.
    pub open spec fn spec_watched(&self, elf: Seq<u8>) -> bool {
        exists|i: int| 0 <= i < self.watched@.len() && self.watched@[i]@ == elf
    }

    /// An empty driver.
    pub fn new() -> (r: UserPatchDriver)
        ensures
            r.wf(),
            r.target_inv(),
            r.status_map@.len() == 0,
            r.target_map@.len() == 0,
            r.watched@.len() == 0,
    {
        let r = UserPatchDriver { status_map: Vec::new(), target_map: Vec::new(), watched: Vec::new() };
        proof {
            assert forall|elf: Seq<u8>|
                r.spec_target_present(elf) == r.spec_applied(elf) by {}
        }
        r
    }

    fn find_target(&self, elf: &[u8]) -> (r: Option<usize>)
        ensures
            match r {
                Some(t) => 0 <= t < self.target_map@.len() && self.target_map@[t as int].0@
                    == elf@,
                None => forall|t: int|
                    0 <= t < self.target_map@.len() ==> self.target_map@[t].0@ != elf@,
            },
    {
        let n = self.target_map.len();
        let mut i: usize = 0;
        while i < n
            invariant
                n == self.target_map@.len(),
                0 <= i <= n,
                forall|j: int| 0 <= j < i ==> self.target_map@[j].0@ != elf@,
            decreases n - i,
        {
            if bytes_eq(self.target_map[i].0.as_slice(), elf) {
                return Some(i);
            }
            i = i + 1;
        }
        None
    }

    fn find_status(&self, uuid: &String) -> (r: Option<usize>)
        ensures
            match r {
                Some(i) => 0 <= i < self.status_map@.len() && self.status_map@[i as int].uuid@
                    == uuid@,
                None => forall|i: int|
                    0 <= i < self.status_map@.len() ==> self.status_map@[i].uuid@ != uuid@,
            },
    {
        let n = self.status_map.len();
        let mut i: usize = 0;
        while i < n
            invariant
                n == self.status_map@.len(),
                0 <= i <= n,
                forall|j: int| 0 <= j < i ==> self.status_map@[j].uuid@ != uuid@,
            decreases n - i,
        {
            if self.status_map[i].uuid.eq(uuid) {
                return Some(i);
            }
            i = i + 1;
        }
        None
    }

    /// Lifecycle state the driver answers for `uuid`: its record, or
    /// the state the injection module reports for a patch it has not
    /// seen (an invalid or unknown report reads `NotApplied`).
    pub open spec fn spec_resolved_status(&self, env: &DriverEnv, uuid: Seq<char>) -> PatchStatus {
        if spec_has_record(self.status_map@, uuid) {
            spec_status_lookup(self.status_map@, uuid)
        } else {
            match crate::world::spec_upatch_lookup(env.upatch_states@, uuid) {
                Some(st) => if st.rank() >= PatchStatus::Deactived.rank() {
                    st
                } else {
                    PatchStatus::NotApplied
                },
                None => PatchStatus::NotApplied,
            }
        }
    }

    /// Resolves the state of `patch`, adopting an at-least-applied
    /// observed state into the records (and registering its target) so
    /// that later transitions act on what is really loaded.
    pub fn resolve_status(&mut self, env: &DriverEnv, patch: &Patch) -> (r: PatchStatus)
        requires
            old(self).wf(),
            old(self).target_inv(),
            patch.spec_kind() == PatchType::UserPatch,
            old(self).uuid_elf_ok(patch.uuid@, patch.spec_user_ext().target_elf@),
        ensures
            final(self).wf(),
            final(self).target_inv(),
            final(self).uuid_elf_ok(patch.uuid@, patch.spec_user_ext().target_elf@),
            forall|u: Seq<char>, e: Seq<u8>|
                u != patch.uuid@ && old(self).uuid_elf_ok(u, e) ==> final(self).uuid_elf_ok(u, e),
            r == old(self).spec_resolved_status(env, patch.uuid@),
            r != PatchStatus::Unknown,
            spec_status_lookup(final(self).status_map@, patch.uuid@) == r,
            spec_has_record(final(self).status_map@, patch.uuid@) || r == PatchStatus::NotApplied,
            forall|u: Seq<char>|
                u != patch.uuid@ ==> spec_status_lookup(final(self).status_map@, u)
                    == spec_status_lookup(old(self).status_map@, u),
            forall|u: Seq<char>|
                u != patch.uuid@ ==> #[trigger] spec_has_record(final(self).status_map@, u)
                    == spec_has_record(old(self).status_map@, u),
            forall|e: Seq<u8>, u: Seq<char>, f: Seq<u8>|
                final(self).user_covers(e, u, f) == old(self).user_covers(e, u, f),
            forall|e: Seq<u8>, u: Seq<char>|
                final(self).spec_has_entity(e, u) == old(self).spec_has_entity(e, u),
            forall|e: Seq<u8>, u: Seq<char>, p: i32|
                final(self).spec_entity_active(e, u, p) == old(self).spec_entity_active(e, u, p)
                    && final(self).spec_entity_ignored(e, u, p) == old(self).spec_entity_ignored(
                    e,
                    u,
                    p,
                ),
            final(self).watched@ == old(self).watched@,
    {
        match self.find_status(&patch.uuid) {
            Some(i) => {
                proof {
                    lemma_status_lookup_unique(self.status_map@, patch.uuid@, i as int);
                }
                return self.status_map[i].status;
            },
            None => {
                proof {
                    lemma_status_lookup_absent(self.status_map@, patch.uuid@);
                }
            },
        }
        let observed = match env.upatch_state_of(&patch.uuid) {
            None => {
                return PatchStatus::NotApplied;
            },
            Some(st) => st,
        };
        if observed.rank_u8() < 2 {
            return PatchStatus::NotApplied;
        }
        // Adopt the observed state: register the target and record it.
        let ext = patch.user_ext();
        let ghost elf = patch.spec_user_ext().target_elf@;
        if self.find_target(ext.target_elf.as_slice()).is_none() {
            let ghost before = *self;
            let fresh = copy_bytes(&ext.target_elf);
            self.target_map.push((fresh, UserTarget::new()));
            proof {
                lemma_user_target_push_frame(before, *self, elf);
            }
        }
        let ghost mid = *self;
        self.set_status(&patch.uuid, &ext.target_elf, observed);
        proof {
            assert(self.target_map@ == mid.target_map@);
            lemma_same_targets(mid, *self);
            assert(self.target_inv()) by {
                assert forall|e: Seq<u8>|
                    self.spec_target_present(e) <==> self.spec_applied(e) by {
                    if e == elf {
                        assert(self.spec_target_present(elf));
                        assert(self.spec_applied(elf));
                    } else {
                        assert(self.spec_applied(e) == mid.spec_applied(e));
                        assert(mid.spec_target_present(e) == old(self).spec_target_present(e));
                        assert(mid.spec_applied(e) == old(self).spec_applied(e));
                    }
                }
            }
        }
        observed
    }

    /// Cached lifecycle state of `patch`.
    pub fn status(&self, patch: &Patch) -> (r: PatchStatus)
        requires
            self.wf(),
            patch.spec_kind() == PatchType::UserPatch,
        ensures
            r == spec_status_lookup(self.status_map@, patch.uuid@),
    {
        match self.find_status(&patch.uuid) {
            Some(i) => {
                proof {
                    lemma_status_lookup_unique(self.status_map@, patch.uuid@, i as int);
                }
                self.status_map[i].status
            },
            None => {
                proof {
                    lemma_status_lookup_absent(self.status_map@, patch.uuid@);
                }
                PatchStatus::NotApplied
            },
        }
    }
}

impl UserPatchDriver {
    /// Some patch of the target at `elf` is at least applied.
    fn has_applied(&self, elf: &[u8]) -> (r: bool)
        ensures
            r == self.spec_applied(elf@),
    {
        let n = self.status_map.len();
        let mut i: usize = 0;
        while i < n
            invariant
                n == self.status_map@.len(),
                0 <= i <= n,
                forall|j: int|
                    0 <= j < i ==> !(self.status_map@[j].target_elf@ == elf@
                        && self.status_map@[j].status.rank() >= PatchStatus::Deactived.rank()),
            decreases n - i,
        {
            if bytes_eq(self.status_map[i].target_elf.as_slice(), elf)
                && self.status_map[i].status.rank_u8() >= 2 {
                return true;
            }
            i = i + 1;
        }
        false
    }

    /// Records the lifecycle state of the patch `uuid`, bound to the
    /// target at `elf`.  Nothing else moves.
    fn set_status(&mut self, uuid: &String, elf: &Vec<u8>, st: PatchStatus)
        requires
            old(self).wf(),
            old(self).uuid_elf_ok(uuid@, elf@),
            st != PatchStatus::Unknown,
        ensures
            final(self).wf(),
            final(self).target_map@ == old(self).target_map@,
            final(self).watched@ == old(self).watched@,
            final(self).uuid_elf_ok(uuid@, elf@),
            forall|u: Seq<char>, e: Seq<u8>|
                u != uuid@ && old(self).uuid_elf_ok(u, e) ==> final(self).uuid_elf_ok(u, e),
            spec_status_lookup(final(self).status_map@, uuid@) == st,
            forall|u: Seq<char>|
                u != uuid@ ==> spec_status_lookup(final(self).status_map@, u)
                    == spec_status_lookup(old(self).status_map@, u),
            forall|u: Seq<char>|
                #[trigger] spec_has_record(final(self).status_map@, u) <==> (spec_has_record(
                    old(self).status_map@,
                    u,
                ) || u == uuid@),
            forall|e: Seq<u8>| e != elf@ ==> final(self).spec_applied(e) == old(self).spec_applied(e),
            st.rank() >= PatchStatus::Deactived.rank() ==> final(self).spec_applied(elf@),
    {
        let ghost mid = *self;
        match self.find_status(uuid) {
            Some(i) => {
                let rec = &mut self.status_map[i];
                rec.status = st;
                proof {
                    assert(self.status_map@ =~= mid.status_map@.update(
                        i as int,
                        self.status_map@[i as int],
                    ));
                    lemma_status_lookup_update(
                        mid.status_map@,
                        i as int,
                        self.status_map@[i as int],
                    );
                    assert(self.status_map@[i as int].uuid@ == uuid@
                        && self.status_map@[i as int].target_elf@ == elf@
                        && self.status_map@[i as int].status == st);
                    assert forall|j: int|
                        0 <= j < mid.status_map@.len() && (#[trigger] mid.status_map@[j]).uuid@
                            != uuid@ implies self.status_map@[j] == mid.status_map@[j] by {
                        assert(j != i);
                    }
                    assert forall|u: Seq<char>|
                        #[trigger] spec_has_record(self.status_map@, u) <==> (spec_has_record(
                            mid.status_map@,
                            u,
                        ) || u == uuid@) by {
                        if spec_has_record(self.status_map@, u) {
                            let z = choose|z: int|
                                0 <= z < self.status_map@.len() && self.status_map@[z].uuid@ == u;
                            assert(mid.status_map@[z].uuid@ == u);
                        }
                        if spec_has_record(mid.status_map@, u) {
                            let z = choose|z: int|
                                0 <= z < mid.status_map@.len() && mid.status_map@[z].uuid@ == u;
                            assert(self.status_map@[z].uuid@ == u);
                        }
                        if u == uuid@ {
                            assert(self.status_map@[i as int].uuid@ == u);
                        }
                    }
                }
            },
            None => {
                let rec = UserStatusRecord {
                    uuid: uuid.clone(),
                    target_elf: crate::bytestr::copy_bytes(elf),
                    status: st,
                };
                let ghost grec = rec;
                self.status_map.push(rec);
                proof {
                    lemma_status_lookup_push(mid.status_map@, grec);
                    let last = self.status_map@.len() - 1;
                    assert(self.status_map@[last].uuid@ == uuid@
                        && self.status_map@[last].target_elf@ == elf@
                        && self.status_map@[last].status == st);
                    assert forall|u: Seq<char>|
                        #[trigger] spec_has_record(self.status_map@, u) <==> (spec_has_record(
                            mid.status_map@,
                            u,
                        ) || u == uuid@) by {
                        if spec_has_record(self.status_map@, u) {
                            let z = choose|z: int|
                                0 <= z < self.status_map@.len() && self.status_map@[z].uuid@ == u;
                            if z < mid.status_map@.len() {
                                assert(mid.status_map@[z].uuid@ == u);
                            } else {
                                assert(u == uuid@);
                            }
                        }
                        if spec_has_record(mid.status_map@, u) {
                            let z = choose|z: int|
                                0 <= z < mid.status_map@.len() && mid.status_map@[z].uuid@ == u;
                            assert(self.status_map@[z].uuid@ == u);
                        }
                        if u == uuid@ {
                            assert(self.status_map@[last].uuid@ == u);
                        }
                    }
                }
            },
        }
        proof {
            assert forall|e: Seq<u8>|
                e != elf@ implies self.spec_applied(e) == mid.spec_applied(e) by {
                if self.spec_applied(e) {
                    let i = choose|i: int|
                        0 <= i < self.status_map@.len() && self.status_map@[i].target_elf@ == e
                            && self.status_map@[i].status.rank() >= PatchStatus::Deactived.rank();
                    assert(self.status_map@[i].uuid@ != uuid@);
                    assert(i < mid.status_map@.len() && mid.status_map@[i] == self.status_map@[i]);
                }
                if mid.spec_applied(e) {
                    let i = choose|i: int|
                        0 <= i < mid.status_map@.len() && mid.status_map@[i].target_elf@ == e
                            && mid.status_map@[i].status.rank() >= PatchStatus::Deactived.rank();
                    assert(mid.status_map@[i].uuid@ != uuid@);
                    assert(self.status_map@[i] == mid.status_map@[i]);
                }
            }
            if self.spec_applied(elf@) && !mid.spec_applied(elf@) {
                assert(spec_status_lookup(self.status_map@, uuid@) == st);
            }
            if mid.spec_applied(elf@) && !self.spec_applied(elf@) {
            }
        }
    }

    /// Registers the target of `patch` (creating an empty per-target
    /// state if needed) and marks the patch applied.  Never fails.
    pub fn apply(&mut self, patch: &Patch) -> (r: Result<(), PatchError>)
        requires
            old(self).wf(),
            old(self).target_inv(),
            patch.spec_kind() == PatchType::UserPatch,
            old(self).uuid_elf_ok(patch.uuid@, patch.spec_user_ext().target_elf@),
        ensures
            final(self).wf(),
            final(self).target_inv(),
            final(self).uuid_elf_ok(patch.uuid@, patch.spec_user_ext().target_elf@),
            forall|u: Seq<char>, e: Seq<u8>|
                u != patch.uuid@ && old(self).uuid_elf_ok(u, e) ==> final(self).uuid_elf_ok(u, e),
            r is Ok,
            spec_status_lookup(final(self).status_map@, patch.uuid@) == PatchStatus::Deactived,
            forall|u: Seq<char>|
                u != patch.uuid@ ==> spec_status_lookup(final(self).status_map@, u)
                    == spec_status_lookup(old(self).status_map@, u),
            forall|e: Seq<u8>, u: Seq<char>, f: Seq<u8>|
                final(self).user_covers(e, u, f) == old(self).user_covers(e, u, f),
            forall|e: Seq<u8>, u: Seq<char>|
                final(self).spec_has_entity(e, u) == old(self).spec_has_entity(e, u),
            forall|e: Seq<u8>, u: Seq<char>, p: i32|
                final(self).spec_entity_active(e, u, p) == old(self).spec_entity_active(e, u, p)
                    && final(self).spec_entity_ignored(e, u, p) == old(self).spec_entity_ignored(
                    e,
                    u,
                    p,
                ),
            final(self).watched@ == old(self).watched@,
            final(self).spec_target_present(patch.spec_user_ext().target_elf@),
    {
        let ext = patch.user_ext();
        let ghost elf = patch.spec_user_ext().target_elf@;
        if self.find_target(ext.target_elf.as_slice()).is_none() {
            let ghost before = *self;
            let fresh = copy_bytes(&ext.target_elf);
            self.target_map.push((fresh, UserTarget::new()));
            proof {
                lemma_user_target_push_frame(before, *self, elf);
            }
        }
        let ghost mid = *self;
        self.set_status(&patch.uuid, &ext.target_elf, PatchStatus::Deactived);
        proof {
            assert(self.target_map@ == mid.target_map@);
            lemma_same_targets(mid, *self);
            assert(self.target_inv()) by {
                assert forall|e: Seq<u8>|
                    self.spec_target_present(e) <==> self.spec_applied(e) by {
                    if e == elf {
                        assert(self.spec_target_present(elf));
                        assert(self.spec_applied(elf));
                    } else {
                        assert(self.spec_applied(e) == mid.spec_applied(e));
                        assert(mid.spec_target_present(e) == old(self).spec_target_present(e));
                        assert(mid.spec_applied(e) == old(self).spec_applied(e));
                    }
                }
            }
        }
        Ok(())
    }

    /// Clears the cached state of `patch` and drops its target when no
    /// other patch of that target stays applied.  Never fails.
    #[verifier::rlimit(100)]
    pub fn remove(&mut self, patch: &Patch) -> (r: Result<(), PatchError>)
        requires
            old(self).wf(),
            old(self).target_inv(),
            patch.spec_kind() == PatchType::UserPatch,
            old(self).uuid_elf_ok(patch.uuid@, patch.spec_user_ext().target_elf@),
        ensures
            final(self).wf(),
            final(self).target_inv(),
            forall|u: Seq<char>, e: Seq<u8>|
                old(self).uuid_elf_ok(u, e) ==> final(self).uuid_elf_ok(u, e),
            r is Ok,
            spec_status_lookup(final(self).status_map@, patch.uuid@) == PatchStatus::NotApplied,
            forall|u: Seq<char>|
                u != patch.uuid@ ==> spec_status_lookup(final(self).status_map@, u)
                    == spec_status_lookup(old(self).status_map@, u),
            forall|e: Seq<u8>, u: Seq<char>, f: Seq<u8>|
                e != patch.spec_user_ext().target_elf@ ==> final(self).user_covers(e, u, f) == old(self).user_covers(e, u, f),
            forall|u: Seq<char>, f: Seq<u8>|
                final(self).user_covers(patch.spec_user_ext().target_elf@, u, f) == (old(self).user_covers(patch.spec_user_ext().target_elf@, u, f) && final(self).spec_applied(
                    patch.spec_user_ext().target_elf@,
                )),
            final(self).watched@ == old(self).watched@,
    {
        let ext = patch.user_ext();
        let ghost elf = patch.spec_user_ext().target_elf@;
        let ghost start = *self;
        match self.find_status(&patch.uuid) {
            Some(i) => {
                proof {
                    lemma_status_lookup_remove(self.status_map@, i as int);
                }
                self.status_map.remove(i);
                proof {
                    assert forall|j: int|
                        0 <= j < start.status_map@.len() && (#[trigger] start.status_map@[j]).uuid@
                            != patch.uuid@ implies exists|i2: int|
                        0 <= i2 < self.status_map@.len() && self.status_map@[i2]
                            == start.status_map@[j] by {
                        assert(j != i);
                        let i2 = if j < i { j } else { j - 1 };
                        assert(self.status_map@[i2] == start.status_map@[j]);
                    }
                    assert forall|i2: int|
                        0 <= i2 < self.status_map@.len() && (#[trigger] self.status_map@[i2]).uuid@
                            != patch.uuid@ implies exists|j: int|
                        0 <= j < start.status_map@.len() && start.status_map@[j]
                            == self.status_map@[i2] by {
                        let j = if i2 < i { i2 } else { i2 + 1 };
                        assert(start.status_map@[j] == self.status_map@[i2]);
                    }
                }
            },
            None => {
                proof {
                    lemma_status_lookup_absent(self.status_map@, patch.uuid@);
                }
            },
        }
        let ghost mid = *self;
        proof {
            lemma_user_status_change_frame(start, mid, patch.uuid@, elf);
        }
        if !self.has_applied(ext.target_elf.as_slice()) {
            match self.find_target(ext.target_elf.as_slice()) {
                Some(t) => {
                    let ghost before = *self;
                    self.target_map.remove(t);
                    proof {
                        lemma_user_target_remove_frame(before, *self, t as int, elf);
                    }
                },
                None => {},
            }
        }
        proof {
            assert(self.target_inv()) by {
                assert forall|e: Seq<u8>|
                    self.spec_target_present(e) <==> self.spec_applied(e) by {
                    assert(self.spec_applied(e) == mid.spec_applied(e));
                    if e == elf {
                        if mid.spec_applied(elf) {
                            assert(old(self).spec_applied(elf));
                            assert(old(self).spec_target_present(elf));
                            assert(self.spec_target_present(elf));
                        } else {
                            assert(!self.spec_target_present(elf));
                        }
                    } else {
                        assert(mid.spec_target_present(e) == old(self).spec_target_present(e));
                        assert(self.spec_target_present(e) == mid.spec_target_present(e));
                        assert(mid.spec_applied(e) == old(self).spec_applied(e));
                    }
                }
            }
            assert forall|u: Seq<char>, f: Seq<u8>|
                self.user_covers(elf, u, f) == (old(self).user_covers(elf, u, f)
                    && self.spec_applied(elf)) by {
                if self.user_covers(elf, u, f) {
                    assert(self.spec_target_present(elf));
                    assert(self.spec_applied(elf));
                }
            }
        }
        Ok(())
    }
}

/// Two drivers with the same target map agree on presence, covers and
/// entities.
proof fn lemma_same_targets(b: UserPatchDriver, a: UserPatchDriver)
    requires
        a.target_map@ == b.target_map@,
    ensures
        forall|e: Seq<u8>| a.spec_target_present(e) == b.spec_target_present(e),
        forall|e: Seq<u8>, u: Seq<char>, f: Seq<u8>|
            a.user_covers(e, u, f) == b.user_covers(e, u, f),
        forall|e: Seq<u8>, u: Seq<char>| a.spec_has_entity(e, u) == b.spec_has_entity(e, u),
        forall|e: Seq<u8>, u: Seq<char>, p: i32|
            a.spec_entity_active(e, u, p) == b.spec_entity_active(e, u, p)
                && a.spec_entity_ignored(e, u, p) == b.spec_entity_ignored(e, u, p),
{
}

/// Pushing a fresh empty target changes only that target's presence.
proof fn lemma_user_target_push_frame(b: UserPatchDriver, a: UserPatchDriver, elf: Seq<u8>)
    requires
        b.wf(),
        forall|t: int| 0 <= t < b.target_map@.len() ==> b.target_map@[t].0@ != elf,
        a.status_map@ == b.status_map@,
        a.watched@ == b.watched@,
        a.target_map@.len() == b.target_map@.len() + 1,
        forall|t: int| 0 <= t < b.target_map@.len() ==> a.target_map@[t] == b.target_map@[t],
        a.target_map@.last().0@ == elf,
        a.target_map@.last().1.functions.records@.len() == 0,
        a.target_map@.last().1.entities@.len() == 0,
        a.target_map@.last().1.wf(),
    ensures
        a.wf(),
        a.spec_target_present(elf),
        forall|e: Seq<u8>|
            e != elf ==> a.spec_target_present(e) == b.spec_target_present(e),
        forall|e: Seq<u8>, u: Seq<char>, f: Seq<u8>|
            a.user_covers(e, u, f) == b.user_covers(e, u, f),
        forall|e: Seq<u8>, u: Seq<char>|
            a.spec_has_entity(e, u) == b.spec_has_entity(e, u),
        forall|e: Seq<u8>, u: Seq<char>, p: i32|
            a.spec_entity_active(e, u, p) == b.spec_entity_active(e, u, p)
                && a.spec_entity_ignored(e, u, p) == b.spec_entity_ignored(e, u, p),
{
    let last = b.target_map@.len() as int;
    assert(a.target_map@[last].0@ == elf);
    assert forall|e: Seq<u8>| e != elf implies a.spec_target_present(e) == b.spec_target_present(
        e,
    ) by {
        if a.spec_target_present(e) {
            let t = choose|t: int| 0 <= t < a.target_map@.len() && a.target_map@[t].0@ == e;
            assert(t < last);
            assert(b.target_map@[t].0@ == e);
        }
        if b.spec_target_present(e) {
            let t = choose|t: int| 0 <= t < b.target_map@.len() && b.target_map@[t].0@ == e;
            assert(a.target_map@[t].0@ == e);
        }
    }
    assert forall|e: Seq<u8>, u: Seq<char>, f: Seq<u8>|
        a.user_covers(e, u, f) == b.user_covers(e, u, f) by {
        if a.user_covers(e, u, f) {
            let t = choose|t: int|
                0 <= t < a.target_map@.len() && a.target_map@[t].0@ == e
                    && a.target_map@[t].1.functions.covers(u, f);
            if t == last {
                assert(false);
            } else {
                assert(b.target_map@[t].0@ == e && b.target_map@[t].1.functions.covers(u, f));
            }
        }
        if b.user_covers(e, u, f) {
            let t = choose|t: int|
                0 <= t < b.target_map@.len() && b.target_map@[t].0@ == e
                    && b.target_map@[t].1.functions.covers(u, f);
            assert(a.target_map@[t].0@ == e && a.target_map@[t].1.functions.covers(u, f));
        }
    }
    assert forall|e: Seq<u8>, u: Seq<char>|
        a.spec_has_entity(e, u) == b.spec_has_entity(e, u) by {
        if a.spec_has_entity(e, u) {
            let (t, en) = choose|t: int, en: int|
                0 <= t < a.target_map@.len() && a.target_map@[t].0@ == e && 0 <= en
                    < a.target_map@[t].1.entities@.len() && a.target_map@[t].1.entities@[en].0@
                    == u;
            assert(t != last);
            assert(b.target_map@[t].0@ == e && b.target_map@[t].1.entities@[en].0@ == u);
        }
        if b.spec_has_entity(e, u) {
            let (t, en) = choose|t: int, en: int|
                0 <= t < b.target_map@.len() && b.target_map@[t].0@ == e && 0 <= en
                    < b.target_map@[t].1.entities@.len() && b.target_map@[t].1.entities@[en].0@
                    == u;
            assert(a.target_map@[t].0@ == e && a.target_map@[t].1.entities@[en].0@ == u);
        }
    }
    assert forall|e: Seq<u8>, u: Seq<char>, p: i32|
        a.spec_entity_active(e, u, p) == b.spec_entity_active(e, u, p)
            && a.spec_entity_ignored(e, u, p) == b.spec_entity_ignored(e, u, p) by {
        if a.spec_entity_active(e, u, p) {
            let (t, en) = choose|t: int, en: int|
                0 <= t < a.target_map@.len() && a.target_map@[t].0@ == e && 0 <= en
                    < a.target_map@[t].1.entities@.len() && a.target_map@[t].1.entities@[en].0@
                    == u && a.target_map@[t].1.entities@[en].1.active_pids@.contains(p);
            assert(t != last);
            assert(b.target_map@[t].0@ == e && b.target_map@[t].1.entities@[en].0@ == u
                && b.target_map@[t].1.entities@[en].1.active_pids@.contains(p));
        }
        if b.spec_entity_active(e, u, p) {
            let (t, en) = choose|t: int, en: int|
                0 <= t < b.target_map@.len() && b.target_map@[t].0@ == e && 0 <= en
                    < b.target_map@[t].1.entities@.len() && b.target_map@[t].1.entities@[en].0@
                    == u && b.target_map@[t].1.entities@[en].1.active_pids@.contains(p);
            assert(a.target_map@[t].0@ == e && a.target_map@[t].1.entities@[en].0@ == u
                && a.target_map@[t].1.entities@[en].1.active_pids@.contains(p));
        }
        if a.spec_entity_ignored(e, u, p) {
            let (t, en) = choose|t: int, en: int|
                0 <= t < a.target_map@.len() && a.target_map@[t].0@ == e && 0 <= en
                    < a.target_map@[t].1.entities@.len() && a.target_map@[t].1.entities@[en].0@
                    == u && a.target_map@[t].1.entities@[en].1.ignored_pids@.contains(p);
            assert(t != last);
            assert(b.target_map@[t].0@ == e && b.target_map@[t].1.entities@[en].0@ == u
                && b.target_map@[t].1.entities@[en].1.ignored_pids@.contains(p));
        }
        if b.spec_entity_ignored(e, u, p) {
            let (t, en) = choose|t: int, en: int|
                0 <= t < b.target_map@.len() && b.target_map@[t].0@ == e && 0 <= en
                    < b.target_map@[t].1.entities@.len() && b.target_map@[t].1.entities@[en].0@
                    == u && b.target_map@[t].1.entities@[en].1.ignored_pids@.contains(p);
            assert(a.target_map@[t].0@ == e && a.target_map@[t].1.entities@[en].0@ == u
                && a.target_map@[t].1.entities@[en].1.ignored_pids@.contains(p));
        }
    }
}

/// Removing a target entry clears only that target's state.
proof fn lemma_user_target_remove_frame(
    b: UserPatchDriver,
    a: UserPatchDriver,
    t0: int,
    elf: Seq<u8>,
)
    requires
        b.wf(),
        0 <= t0 < b.target_map@.len(),
        b.target_map@[t0].0@ == elf,
        a.status_map@ == b.status_map@,
        a.watched@ == b.watched@,
        a.target_map@ == b.target_map@.remove(t0),
    ensures
        a.wf(),
        !a.spec_target_present(elf),
        forall|e: Seq<u8>|
            e != elf ==> a.spec_target_present(e) == b.spec_target_present(e),
        forall|e: Seq<u8>, u: Seq<char>, f: Seq<u8>|
            e != elf ==> a.user_covers(e, u, f) == b.user_covers(e, u, f),
        forall|u: Seq<char>, f: Seq<u8>| !a.user_covers(elf, u, f),
        forall|e: Seq<u8>, u: Seq<char>|
            e != elf ==> a.spec_has_entity(e, u) == b.spec_has_entity(e, u),
        forall|e: Seq<u8>, u: Seq<char>, p: i32|
            e != elf ==> (a.spec_entity_active(e, u, p) == b.spec_entity_active(e, u, p)
                && a.spec_entity_ignored(e, u, p) == b.spec_entity_ignored(e, u, p)),
{
    assert forall|z: int| 0 <= z < a.target_map@.len() implies a.target_map@[z] == b.target_map@[
        if z < t0 {
            z
        } else {
            z + 1
        }
    ] by {}
    assert forall|e: Seq<u8>| #![all_triggers] true implies (e != elf ==> (a.spec_target_present(e)
        == b.spec_target_present(e))) && (e == elf ==> !a.spec_target_present(e)) by {
        if a.spec_target_present(e) {
            let z = choose|z: int| 0 <= z < a.target_map@.len() && a.target_map@[z].0@ == e;
            let oz = if z < t0 { z } else { z + 1 };
            assert(b.target_map@[oz].0@ == e);
            if e == elf {
                assert(oz != t0);
                assert(false);
            }
        }
        if e != elf && b.spec_target_present(e) {
            let oz = choose|oz: int| 0 <= oz < b.target_map@.len() && b.target_map@[oz].0@ == e;
            assert(oz != t0);
            let z = if oz < t0 { oz } else { oz - 1 };
            assert(a.target_map@[z].0@ == e);
        }
    }
    assert forall|e: Seq<u8>, u: Seq<char>, f: Seq<u8>| #![all_triggers] true implies (e != elf
        ==> a.user_covers(e, u, f) == b.user_covers(e, u, f)) && (e == elf ==> !a.user_covers(
        e,
        u,
        f,
    )) by {
        if a.user_covers(e, u, f) {
            let z = choose|z: int|
                0 <= z < a.target_map@.len() && a.target_map@[z].0@ == e
                    && a.target_map@[z].1.functions.covers(u, f);
            let oz = if z < t0 { z } else { z + 1 };
            assert(b.target_map@[oz].0@ == e && b.target_map@[oz].1.functions.covers(u, f));
            if e == elf {
                assert(oz != t0);
                assert(false);
            }
        }
        if e != elf && b.user_covers(e, u, f) {
            let oz = choose|oz: int|
                0 <= oz < b.target_map@.len() && b.target_map@[oz].0@ == e
                    && b.target_map@[oz].1.functions.covers(u, f);
            assert(oz != t0);
            let z = if oz < t0 { oz } else { oz - 1 };
            assert(a.target_map@[z].0@ == e && a.target_map@[z].1.functions.covers(u, f));
        }
    }
    assert forall|e: Seq<u8>, u: Seq<char>| e != elf implies a.spec_has_entity(e, u)
        == b.spec_has_entity(e, u) by {
        if a.spec_has_entity(e, u) {
            let (z, en) = choose|z: int, en: int|
                0 <= z < a.target_map@.len() && a.target_map@[z].0@ == e && 0 <= en
                    < a.target_map@[z].1.entities@.len() && a.target_map@[z].1.entities@[en].0@
                    == u;
            let oz = if z < t0 { z } else { z + 1 };
            assert(b.target_map@[oz].0@ == e && b.target_map@[oz].1.entities@[en].0@ == u);
        }
        if b.spec_has_entity(e, u) {
            let (oz, en) = choose|oz: int, en: int|
                0 <= oz < b.target_map@.len() && b.target_map@[oz].0@ == e && 0 <= en
                    < b.target_map@[oz].1.entities@.len() && b.target_map@[oz].1.entities@[en].0@
                    == u;
            assert(oz != t0);
            let z = if oz < t0 { oz } else { oz - 1 };
            assert(a.target_map@[z].0@ == e && a.target_map@[z].1.entities@[en].0@ == u);
        }
    }
    assert forall|e: Seq<u8>, u: Seq<char>, p: i32| e != elf implies (a.spec_entity_active(e, u, p)
        == b.spec_entity_active(e, u, p) && a.spec_entity_ignored(e, u, p)
        == b.spec_entity_ignored(e, u, p)) by {
        if a.spec_entity_active(e, u, p) {
            let (z, en) = choose|z: int, en: int|
                0 <= z < a.target_map@.len() && a.target_map@[z].0@ == e && 0 <= en
                    < a.target_map@[z].1.entities@.len() && a.target_map@[z].1.entities@[en].0@
                    == u && a.target_map@[z].1.entities@[en].1.active_pids@.contains(p);
            let oz = if z < t0 { z } else { z + 1 };
            assert(b.target_map@[oz].0@ == e && b.target_map@[oz].1.entities@[en].0@ == u
                && b.target_map@[oz].1.entities@[en].1.active_pids@.contains(p));
        }
        if b.spec_entity_active(e, u, p) {
            let (oz, en) = choose|oz: int, en: int|
                0 <= oz < b.target_map@.len() && b.target_map@[oz].0@ == e && 0 <= en
                    < b.target_map@[oz].1.entities@.len() && b.target_map@[oz].1.entities@[en].0@
                    == u && b.target_map@[oz].1.entities@[en].1.active_pids@.contains(p);
            assert(oz != t0);
            let z = if oz < t0 { oz } else { oz - 1 };
            assert(a.target_map@[z].0@ == e && a.target_map@[z].1.entities@[en].0@ == u
                && a.target_map@[z].1.entities@[en].1.active_pids@.contains(p));
        }
        if a.spec_entity_ignored(e, u, p) {
            let (z, en) = choose|z: int, en: int|
                0 <= z < a.target_map@.len() && a.target_map@[z].0@ == e && 0 <= en
                    < a.target_map@[z].1.entities@.len() && a.target_map@[z].1.entities@[en].0@
                    == u && a.target_map@[z].1.entities@[en].1.ignored_pids@.contains(p);
            let oz = if z < t0 { z } else { z + 1 };
            assert(b.target_map@[oz].0@ == e && b.target_map@[oz].1.entities@[en].0@ == u
                && b.target_map@[oz].1.entities@[en].1.ignored_pids@.contains(p));
        }
        if b.spec_entity_ignored(e, u, p) {
            let (oz, en) = choose|oz: int, en: int|
                0 <= oz < b.target_map@.len() && b.target_map@[oz].0@ == e && 0 <= en
                    < b.target_map@[oz].1.entities@.len() && b.target_map@[oz].1.entities@[en].0@
                    == u && b.target_map@[oz].1.entities@[en].1.ignored_pids@.contains(p);
            assert(oz != t0);
            let z = if oz < t0 { oz } else { oz - 1 };
            assert(a.target_map@[z].0@ == e && a.target_map@[z].1.entities@[en].0@ == u
                && a.target_map@[z].1.entities@[en].1.ignored_pids@.contains(p));
        }
    }
}

/// A status change of one uuid bound to `elf` leaves other targets'
/// applied state alone.
proof fn lemma_user_status_change_frame(
    b: UserPatchDriver,
    a: UserPatchDriver,
    uuid: Seq<char>,
    elf: Seq<u8>,
)
    requires
        a.target_map@ == b.target_map@,
        a.watched@ == b.watched@,
        forall|i: int|
            0 <= i < a.status_map@.len() && (#[trigger] a.status_map@[i]).uuid@ != uuid
                ==> exists|j: int|
                0 <= j < b.status_map@.len() && b.status_map@[j] == a.status_map@[i],
        forall|j: int|
            0 <= j < b.status_map@.len() && (#[trigger] b.status_map@[j]).uuid@ != uuid
                ==> exists|i: int|
                0 <= i < a.status_map@.len() && a.status_map@[i] == b.status_map@[j],
        forall|i: int|
            0 <= i < a.status_map@.len() && (#[trigger] a.status_map@[i]).uuid@ == uuid
                ==> a.status_map@[i].target_elf@ == elf,
        forall|j: int|
            0 <= j < b.status_map@.len() && (#[trigger] b.status_map@[j]).uuid@ == uuid
                ==> b.status_map@[j].target_elf@ == elf,
    ensures
        forall|e: Seq<u8>| e != elf ==> a.spec_applied(e) == b.spec_applied(e),
        forall|e: Seq<u8>| a.spec_target_present(e) == b.spec_target_present(e),
        forall|e: Seq<u8>, u: Seq<char>, f: Seq<u8>|
            a.user_covers(e, u, f) == b.user_covers(e, u, f),
        forall|e: Seq<u8>, u: Seq<char>| a.spec_has_entity(e, u) == b.spec_has_entity(e, u),
        forall|e: Seq<u8>, u: Seq<char>, p: i32|
            a.spec_entity_active(e, u, p) == b.spec_entity_active(e, u, p)
                && a.spec_entity_ignored(e, u, p) == b.spec_entity_ignored(e, u, p),
{
    assert forall|e: Seq<u8>| e != elf implies a.spec_applied(e) == b.spec_applied(e) by {
        if a.spec_applied(e) {
            let i = choose|i: int|
                0 <= i < a.status_map@.len() && a.status_map@[i].target_elf@ == e
                    && a.status_map@[i].status.rank() >= PatchStatus::Deactived.rank();
            assert(a.status_map@[i].uuid@ != uuid);
            let j = choose|j: int|
                0 <= j < b.status_map@.len() && b.status_map@[j] == a.status_map@[i];
            assert(b.spec_applied(e));
        }
        if b.spec_applied(e) {
            let j = choose|j: int|
                0 <= j < b.status_map@.len() && b.status_map@[j].target_elf@ == e
                    && b.status_map@[j].status.rank() >= PatchStatus::Deactived.rank();
            assert(b.status_map@[j].uuid@ != uuid);
            let i = choose|i: int|
                0 <= i < a.status_map@.len() && a.status_map@[i] == b.status_map@[j];
            assert(a.spec_applied(e));
        }
    }
}

impl UserPatchDriver {
    /// Some registered patch covers one of `p`'s functions in its
    /// target's registry, `excl` left out.
    pub open spec fn spec_user_conflict(&self, p: &Patch, excl: Option<Seq<char>>) -> bool {
        exists|u: Seq<char>, k: int|
            0 <= k < p.spec_user_ext().functions@.len() && self.user_covers(
                p.spec_user_ext().target_elf@,
                u,
                p.spec_user_ext().functions@[k]@,
            ) && (match excl {
                Some(e) => u != e,
                None => true,
            })
    }

    /// A sound, complete and duplicate-free account of the registered
    /// patches covering one of `p`'s functions, `excl` left out.
    pub open spec fn spec_user_hit_list_ok(
        &self,
        p: &Patch,
        excl: Option<Seq<char>>,
        l: Seq<Seq<char>>,
    ) -> bool {
        &&& forall|k: int|
            0 <= k < l.len() ==> (exists|j: int|
                0 <= j < p.spec_user_ext().functions@.len() && self.user_covers(
                    p.spec_user_ext().target_elf@,
                    #[trigger] l[k],
                    p.spec_user_ext().functions@[j]@,
                )) && (match excl {
                Some(e) => l[k] != e,
                None => true,
            })
        &&& forall|u: Seq<char>, j: int|
            0 <= j < p.spec_user_ext().functions@.len() && #[trigger] self.user_covers(
                p.spec_user_ext().target_elf@,
                u,
                p.spec_user_ext().functions@[j]@,
            ) && (match excl {
                Some(e) => u != e,
                None => true,
            }) ==> l.contains(u)
        &&& forall|a: int, b: int| 0 <= a < b < l.len() ==> l[a] != l[b]
    }

    fn function_hits(&self, patch: &Patch, excl: Option<&String>) -> (r: Vec<String>)
        requires
            self.wf(),
            patch.spec_kind() == PatchType::UserPatch,
        ensures
            (r@.len() == 0) <==> !self.spec_user_conflict(
                patch,
                match excl {
                    Some(e) => Some(e@),
                    None => None,
                },
            ),
            forall|a: int, b: int|
                0 <= a < b < r.deep_view().len() ==> r.deep_view()[a] != r.deep_view()[b],
            self.spec_user_hit_list_ok(
                patch,
                match excl {
                    Some(e) => Some(e@),
                    None => None,
                },
                r.deep_view(),
            ),
    {
        let ghost spec_excl: Option<Seq<char>> = match excl {
            Some(e) => Some(e@),
            None => None,
        };
        let ext = patch.user_ext();
        let ghost elf = patch.spec_user_ext().target_elf@;
        match self.find_target(ext.target_elf.as_slice()) {
            None => {
                let out: Vec<String> = Vec::new();
                proof {
                    if self.spec_user_conflict(patch, spec_excl) {
                        let (u, k) = choose|u: Seq<char>, k: int|
                            0 <= k < ext.functions@.len() && self.user_covers(
                                elf,
                                u,
                                ext.functions@[k]@,
                            ) && (match spec_excl {
                                Some(e) => u != e,
                                None => true,
                            });
                        let t = choose|t: int|
                            0 <= t < self.target_map@.len() && self.target_map@[t].0@ == elf
                                && self.target_map@[t].1.functions.covers(u, ext.functions@[k]@);
                        assert(false);
                    }
                    crate::bytestr::lemma_string_vec_deep_view(&out);
                    assert forall|u: Seq<char>, j: int|
                        0 <= j < ext.functions@.len() && #[trigger] self.user_covers(
                            elf,
                            u,
                            ext.functions@[j]@,
                        ) && (match spec_excl {
                            Some(e) => u != e,
                            None => true,
                        }) implies out.deep_view().contains(u) by {
                        let t = choose|t: int|
                            0 <= t < self.target_map@.len() && self.target_map@[t].0@ == elf
                                && self.target_map@[t].1.functions.covers(u, ext.functions@[j]@);
                        assert(false);
                    }
                }
                out
            },
            Some(t) => {
                let hits = match excl {
                    Some(e) => self.target_map[t].1.functions.get_overrides(e, &ext.functions),
                    None => self.target_map[t].1.functions.get_conflicts(&ext.functions),
                };
                proof {
                    let recs = self.target_map@[t as int].1.functions.records@;
                    let syms = ext.functions.deep_view();
                    crate::registry::lemma_hit_uuids_empty(recs, syms, spec_excl);
                    crate::bytestr::lemma_bytes_deep_view(&ext.functions);
                    crate::bytestr::lemma_string_vec_deep_view(&hits);
                    assert((hits@.len() == 0) == (hits.deep_view().len() == 0));
                    assert forall|i: int|
                        0 <= i < recs.len() implies ((#[trigger] recs[i].hits(syms)) == exists|
                        k: int,
                        j: int,
                    |
                        0 <= k < ext.functions@.len() && 0 <= j < recs[i].symbols@.len()
                            && recs[i].symbols@[j]@ == ext.functions@[k]@) by {
                        if recs[i].hits(syms) {
                            let j = choose|j: int|
                                0 <= j < recs[i].symbols@.len() && syms.contains(
                                    recs[i].symbols@[j]@,
                                );
                            let k = choose|k: int|
                                0 <= k < syms.len() && syms[k] == recs[i].symbols@[j]@;
                            assert(ext.functions@[k]@ == recs[i].symbols@[j]@);
                        }
                        if exists|k: int, j: int|
                            0 <= k < ext.functions@.len() && 0 <= j < recs[i].symbols@.len()
                                && recs[i].symbols@[j]@ == ext.functions@[k]@ {
                            let (k, j) = choose|k: int, j: int|
                                0 <= k < ext.functions@.len() && 0 <= j < recs[i].symbols@.len()
                                    && recs[i].symbols@[j]@ == ext.functions@[k]@;
                            assert(syms[k] == ext.functions@[k]@);
                            assert(syms.contains(recs[i].symbols@[j]@));
                        }
                    }
                    assert((hits@.len() == 0) == !self.spec_user_conflict(patch, spec_excl)) by {
                        if hits@.len() == 0 {
                            if self.spec_user_conflict(patch, spec_excl) {
                                let (u, k) = choose|u: Seq<char>, k: int|
                                    0 <= k < ext.functions@.len() && self.user_covers(
                                        elf,
                                        u,
                                        ext.functions@[k]@,
                                    ) && (match spec_excl {
                                        Some(e) => u != e,
                                        None => true,
                                    });
                                let tt = choose|tt: int|
                                    0 <= tt < self.target_map@.len() && self.target_map@[tt].0@
                                        == elf && self.target_map@[tt].1.functions.covers(
                                        u,
                                        ext.functions@[k]@,
                                    );
                                assert(tt == t);
                                let (ri, rj) = choose|ri: int, rj: int|
                                    0 <= ri < recs.len() && recs[ri].uuid@ == u && 0 <= rj
                                        < recs[ri].symbols@.len() && recs[ri].symbols@[rj]@
                                        == ext.functions@[k]@;
                                assert(recs[ri].hits(syms));
                                assert(false);
                            }
                        } else {
                            let l = crate::registry::spec_hit_uuids(recs, syms, spec_excl);
                            crate::registry::lemma_hit_uuids_sound(recs, syms, spec_excl);
                            assert(l.len() > 0);
                            let i = choose|i: int|
                                0 <= i < recs.len() && recs[i].uuid@ == l[0] && recs[i].hits(syms)
                                    && (match spec_excl {
                                    Some(e) => recs[i].uuid@ != e,
                                    None => true,
                                });
                            let (k, j) = choose|k: int, j: int|
                                0 <= k < ext.functions@.len() && 0 <= j < recs[i].symbols@.len()
                                    && recs[i].symbols@[j]@ == ext.functions@[k]@;
                            assert(self.target_map@[t as int].1.functions.covers(
                                recs[i].uuid@,
                                ext.functions@[k]@,
                            ));
                            assert(self.user_covers(elf, recs[i].uuid@, ext.functions@[k]@));
                            assert(self.spec_user_conflict(patch, spec_excl));
                        }
                    }
                    crate::registry::lemma_hit_uuids_distinct(recs, syms, spec_excl);
                    crate::registry::lemma_hit_uuids_sound(recs, syms, spec_excl);
                    crate::registry::lemma_hit_uuids_complete(recs, syms, spec_excl);
                    let hl = hits.deep_view();
                    assert forall|kk: int|
                        0 <= kk < hl.len() implies (exists|j: int|
                        0 <= j < ext.functions@.len() && self.user_covers(
                            elf,
                            #[trigger] hl[kk],
                            ext.functions@[j]@,
                        )) && (match spec_excl {
                        Some(e) => hl[kk] != e,
                        None => true,
                    }) by {
                        let i = choose|i: int|
                            0 <= i < recs.len() && recs[i].uuid@ == hl[kk] && recs[i].hits(syms)
                                && (match spec_excl {
                                Some(u) => recs[i].uuid@ != u,
                                None => true,
                            });
                        let (k2, j2) = choose|k2: int, j2: int|
                            0 <= k2 < ext.functions@.len() && 0 <= j2 < recs[i].symbols@.len()
                                && recs[i].symbols@[j2]@ == ext.functions@[k2]@;
                        assert(self.target_map@[t as int].1.functions.covers(
                            recs[i].uuid@,
                            ext.functions@[k2]@,
                        ));
                        assert(self.target_map@[t as int].0@ == elf);
                        assert(self.user_covers(elf, hl[kk], ext.functions@[k2]@));
                    }
                    assert forall|u: Seq<char>, j: int|
                        0 <= j < ext.functions@.len() && #[trigger] self.user_covers(
                            elf,
                            u,
                            ext.functions@[j]@,
                        ) && (match spec_excl {
                            Some(e) => u != e,
                            None => true,
                        }) implies hl.contains(u) by {
                        let tt = choose|tt: int|
                            0 <= tt < self.target_map@.len() && self.target_map@[tt].0@ == elf
                                && self.target_map@[tt].1.functions.covers(u, ext.functions@[j]@);
                        assert(tt == t);
                        let (ri, rj) = choose|ri: int, rj: int|
                            0 <= ri < recs.len() && recs[ri].uuid@ == u && 0 <= rj < recs[ri].symbols@.len()
                                && recs[ri].symbols@[rj]@ == ext.functions@[j]@;
                        assert(recs[ri].hits(syms));
                        assert(crate::registry::spec_hit_uuids(recs, syms, spec_excl).contains(u));
                    }
                }
                hits
            },
        }
    }

    /// Fails with `Conflict` when a registered patch already covers one
    /// of `patch`'s functions.
    pub fn check_conflict_functions(&self, patch: &Patch) -> (r: Result<(), PatchError>)
        requires
            self.wf(),
            patch.spec_kind() == PatchType::UserPatch,
        ensures
            match r {
                Ok(()) => !self.spec_user_conflict(patch, None),
                Err(e) => e.kind == ErrorKind::Conflict && self.spec_user_conflict(patch, None)
                    && exists|l: Seq<Seq<char>>|
                    self.spec_user_hit_list_ok(patch, None, l) && e.message@
                        == crate::error::spec_uuid_list_message("Patch is conflicted with"@, l),
            },
    {
        let hits = self.function_hits(patch, None);
        if hits.len() == 0 {
            Ok(())
        } else {
            let msg = crate::error::uuid_list_message("Patch is conflicted with", &hits);
            proof {
                crate::bytestr::lemma_string_vec_deep_view(&hits);
                assert(self.spec_user_hit_list_ok(patch, None, hits.deep_view()) && msg@
                    == crate::error::spec_uuid_list_message(
                    "Patch is conflicted with"@,
                    hits.deep_view(),
                ));
            }
            Err(PatchError::new(ErrorKind::Conflict, msg))
        }
    }

    /// Fails with `Override` when another registered patch covers one
    /// of `patch`'s functions: deactivation would reveal it.
    pub fn check_override_functions(&self, patch: &Patch) -> (r: Result<(), PatchError>)
        requires
            self.wf(),
            patch.spec_kind() == PatchType::UserPatch,
        ensures
            match r {
                Ok(()) => !self.spec_user_conflict(patch, Some(patch.uuid@)),
                Err(e) => e.kind == ErrorKind::Override && self.spec_user_conflict(
                    patch,
                    Some(patch.uuid@),
                ) && exists|l: Seq<Seq<char>>|
                    self.spec_user_hit_list_ok(patch, Some(patch.uuid@), l) && e.message@
                        == crate::error::spec_uuid_list_message("Patch is overrided by"@, l),
            },
    {
        let hits = self.function_hits(patch, Some(&patch.uuid));
        if hits.len() == 0 {
            Ok(())
        } else {
            let msg = crate::error::uuid_list_message("Patch is overrided by", &hits);
            proof {
                crate::bytestr::lemma_string_vec_deep_view(&hits);
                assert(self.spec_user_hit_list_ok(patch, Some(patch.uuid@), hits.deep_view())
                    && msg@ == crate::error::spec_uuid_list_message(
                    "Patch is overrided by"@,
                    hits.deep_view(),
                ));
            }
            Err(PatchError::new(ErrorKind::Override, msg))
        }
    }

    /// Verifies that `patch` may be loaded: artefact consistency and,
    /// unless forced, absence of conflicts.
    pub fn check(&self, env: &DriverEnv, patch: &Patch, flag: PatchOpFlag) -> (r: Result<
        (),
        PatchError,
    >)
        requires
            self.wf(),
            patch.spec_kind() == PatchType::UserPatch,
        ensures
            ({
                let lookup = crate::world::spec_digest_lookup(
                    env.digests@,
                    patch.spec_user_ext().patch_file@,
                );
                if lookup is None {
                    r matches Err(e) && e.kind == ErrorKind::Io
                } else if lookup != Some(patch.checksum@) {
                    r matches Err(e) && e.kind == ErrorKind::ConsistencyFailure
                } else if flag != PatchOpFlag::Force && self.spec_user_conflict(patch, None) {
                    r matches Err(e) && e.kind == ErrorKind::Conflict
                } else {
                    r is Ok
                }
            }),
    {
        let ext = patch.user_ext();
        match env.digest_of(ext.patch_file.as_slice()) {
            None => {
                return Err(PatchError::of(ErrorKind::Io, "Cannot read patch file digest"));
            },
            Some(d) => {
                if !d.eq(&patch.checksum) {
                    return Err(
                        PatchError::of(
                            ErrorKind::ConsistencyFailure,
                            "Patch consistency check failed",
                        ),
                    );
                }
            },
        }
        if flag != PatchOpFlag::Force {
            match self.check_conflict_functions(patch) {
                Err(e) => {
                    return Err(e);
                },
                Ok(()) => {},
            }
        }
        Ok(())
    }

    /// Whether every status record of `uuid` binds it to `elf`.
    pub fn check_uuid_elf(&self, uuid: &String, elf: &[u8]) -> (r: bool)
        ensures
            r == self.uuid_elf_ok(uuid@, elf@),
    {
        let n = self.status_map.len();
        let mut i: usize = 0;
        while i < n
            invariant
                n == self.status_map@.len(),
                0 <= i <= n,
                forall|j: int|
                    0 <= j < i && (#[trigger] self.status_map@[j]).uuid@ == uuid@
                        ==> self.status_map@[j].target_elf@ == elf@,
            decreases n - i,
        {
            if self.status_map[i].uuid.eq(uuid)
                && !bytes_eq(self.status_map[i].target_elf.as_slice(), elf) {
                return false;
            }
            i = i + 1;
        }
        true
    }

    /// Asks the monitor to watch `elf`.
    fn watch(&mut self, elf: &Vec<u8>)
        requires
            forall|a: int, b: int|
                0 <= a < b < old(self).watched@.len() ==> old(self).watched@[a]@
                    != old(self).watched@[b]@,
        ensures
            forall|a: int, b: int|
                0 <= a < b < final(self).watched@.len() ==> final(self).watched@[a]@
                    != final(self).watched@[b]@,
            final(self).status_map@ == old(self).status_map@,
            final(self).target_map@ == old(self).target_map@,
            final(self).spec_watched(elf@),
            forall|e: Seq<u8>|
                e != elf@ ==> final(self).spec_watched(e) == old(self).spec_watched(e),
    {
        if !bytes_vec_contains(&self.watched, elf.as_slice()) {
            let ghost prev = self.watched@;
            self.watched.push(copy_bytes(elf));
            proof {
                assert(self.watched@.last()@ == elf@);
                assert forall|e: Seq<u8>| e != elf@ implies old(self).spec_watched(e) == self.spec_watched(
                    e,
                ) by {
                    if self.spec_watched(e) {
                        let i = choose|i: int|
                            0 <= i < self.watched@.len() && self.watched@[i]@ == e;
                        assert(i < prev.len());
                        assert(prev[i]@ == e);
                    }
                    if old(self).spec_watched(e) {
                        let i = choose|i: int| 0 <= i < prev.len() && prev[i]@ == e;
                        assert(self.watched@[i]@ == e);
                    }
                }
            }
        } else {
            proof {
                let i = choose|i: int|
                    0 <= i < self.watched@.len() && self.watched@[i]@ == elf@;
            }
        }
    }

    /// Asks the monitor to stop watching `elf`.
    fn unwatch(&mut self, elf: &[u8])
        requires
            forall|a: int, b: int|
                0 <= a < b < old(self).watched@.len() ==> old(self).watched@[a]@
                    != old(self).watched@[b]@,
        ensures
            final(self).status_map@ == old(self).status_map@,
            final(self).target_map@ == old(self).target_map@,
            !final(self).spec_watched(elf@),
            forall|e: Seq<u8>|
                e != elf@ ==> final(self).spec_watched(e) == old(self).spec_watched(e),
            forall|a: int, b: int|
                0 <= a < b < final(self).watched@.len() ==> final(self).watched@[a]@
                    != final(self).watched@[b]@,
    {
        let n = self.watched.len();
        let mut i: usize = 0;
        while i < n
            invariant
                *self == *old(self),
                n == self.watched@.len(),
                0 <= i <= n,
                forall|j: int| 0 <= j < i ==> self.watched@[j]@ != elf@,
                forall|a: int, b: int|
                    0 <= a < b < old(self).watched@.len() ==> old(self).watched@[a]@
                        != old(self).watched@[b]@,
            decreases n - i,
        {
            if bytes_eq(self.watched[i].as_slice(), elf) {
                let ghost prev = self.watched@;
                proof {
                    assert(prev[i as int]@ == elf@);
                }
                self.watched.remove(i);
                proof {
                    assert forall|z: int|
                        0 <= z < self.watched@.len() implies self.watched@[z] == prev[
                        if z < i {
                            z
                        } else {
                            z + 1
                        }
                    ] by {}
                    assert forall|a: int, b: int|
                        0 <= a < b < self.watched@.len() implies self.watched@[a]@
                        != self.watched@[b]@ by {
                        let oa = if a < i { a } else { a + 1 };
                        let ob = if b < i { b } else { b + 1 };
                        assert(self.watched@[a] == prev[oa] && self.watched@[b] == prev[ob]);
                        assert(old(self).watched@[oa]@ != old(self).watched@[ob]@);
                    }
                    assert(!self.spec_watched(elf@)) by {
                        if self.spec_watched(elf@) {
                            let z = choose|z: int|
                                0 <= z < self.watched@.len() && self.watched@[z]@ == elf@;
                            let oz = if z < i { z } else { z + 1 };
                            assert(prev[oz]@ == elf@);
                            assert(oz != i);
                            if oz < i {
                                assert(old(self).watched@[oz]@ != old(self).watched@[i as int]@);
                            } else {
                                assert(old(self).watched@[i as int]@ != old(self).watched@[oz]@);
                            }
                            assert(false);
                        }
                    }
                    assert forall|e: Seq<u8>| e != elf@ implies self.spec_watched(e) == old(self).spec_watched(e) by {
                        if self.spec_watched(e) {
                            let z = choose|z: int|
                                0 <= z < self.watched@.len() && self.watched@[z]@ == e;
                            let oz = if z < i { z } else { z + 1 };
                            assert(prev[oz]@ == e);
                        }
                        if old(self).spec_watched(e) {
                            let oz = choose|oz: int| 0 <= oz < prev.len() && prev[oz]@ == e;
                            assert(oz != i);
                            let z = if oz < i { oz } else { oz - 1 };
                            assert(self.watched@[z]@ == e);
                        }
                    }
                }
                return ;
            }
            i = i + 1;
        }
        proof {
            assert(!self.spec_watched(elf@)) by {
                if self.spec_watched(elf@) {
                    let z = choose|z: int|
                        0 <= z < self.watched@.len() && self.watched@[z]@ == elf@;
                }
            }
        }
    }
}

impl UserPatchDriver {
    /// Activates `patch`: injects it into every live process of its
    /// target, registers its functions, asks the monitor to watch the
    /// target, and marks the patch active.
    #[verifier::rlimit(60)]
    pub fn active(&mut self, env: &DriverEnv, patch: &Patch) -> (r: Result<(), PatchError>)
        requires
            old(self).wf(),
            old(self).target_inv(),
            patch.spec_kind() == PatchType::UserPatch,
            old(self).uuid_elf_ok(patch.uuid@, patch.spec_user_ext().target_elf@),
        ensures
            final(self).wf(),
            final(self).target_inv(),
            final(self).uuid_elf_ok(patch.uuid@, patch.spec_user_ext().target_elf@),
            forall|u: Seq<char>, e: Seq<u8>|
                u != patch.uuid@ && old(self).uuid_elf_ok(u, e) ==> final(self).uuid_elf_ok(u, e),
            ({
                let elf = patch.spec_user_ext().target_elf@;
                let proc = crate::world::spec_process_lookup(env.processes@, elf);
                match r {
                    Ok(()) => {
                        &&& spec_status_lookup(final(self).status_map@, patch.uuid@)
                            == PatchStatus::Actived
                        &&& forall|u: Seq<char>|
                            u != patch.uuid@ ==> spec_status_lookup(final(self).status_map@, u)
                                == spec_status_lookup(old(self).status_map@, u)
                        &&& (proc.len() == 0 || exists|p: i32|
                            proc.contains(p) && !env.inject_failures@.contains(p))
                        &&& forall|p: i32|
                            final(self).spec_entity_active(elf, patch.uuid@, p) <==> (
                            proc.contains(p) && !env.inject_failures@.contains(p))
                        &&& forall|p: i32|
                            final(self).spec_entity_ignored(elf, patch.uuid@, p) <==> (
                            proc.contains(p) && env.inject_failures@.contains(p))
                        &&& forall|e: Seq<u8>, u: Seq<char>, f: Seq<u8>|
                            final(self).user_covers(e, u, f) <==> (old(self).user_covers(e, u, f)
                                || (e == elf && u == patch.uuid@ && exists|k: int|
                                0 <= k < patch.spec_user_ext().functions@.len()
                                    && patch.spec_user_ext().functions@[k]@ == f))
                        &&& final(self).spec_watched(elf)
                    },
                    Err(e) => {
                        &&& forall|u: Seq<char>|
                            spec_status_lookup(final(self).status_map@, u) == spec_status_lookup(
                                old(self).status_map@,
                                u,
                            )
                        &&& (forall|e2: Seq<u8>, u: Seq<char>, f: Seq<u8>|
                            final(self).user_covers(e2, u, f) == old(self).user_covers(e2, u, f))
                        &&& ((e.kind == ErrorKind::NotFound && !old(self).spec_target_present(elf))
                            || (e.kind == ErrorKind::DriverFailure && (old(self).spec_has_entity(
                            elf,
                            patch.uuid@,
                        ) || (proc.len() > 0 && forall|p: i32|
                            proc.contains(p) ==> env.inject_failures@.contains(p)))))
                    },
                }
            }),
    {
        let ext = patch.user_ext();
        let ghost elf = patch.spec_user_ext().target_elf@;
        let proc = env.processes_of(ext.target_elf.as_slice());
        let t = match self.find_target(ext.target_elf.as_slice()) {
            None => {
                proof {
                    if old(self).spec_target_present(elf) {
                        let z = choose|z: int|
                            0 <= z < self.target_map@.len() && self.target_map@[z].0@ == elf;
                    }
                }
                return Err(PatchError::of(ErrorKind::NotFound, "Cannot find patch target"));
            },
            Some(t) => t,
        };
        let ghost before = *self;
        let tgt = &mut self.target_map[t];
        let res = tgt.1.activate_entity(env, &patch.uuid, &ext.patch_file, &ext.functions, &proc);
        proof {
            assert forall|z: int|
                0 <= z < self.target_map@.len() && z != t implies self.target_map@[z]
                == before.target_map@[z] by {}
        }
        match res {
            Err(e) => {
                proof {
                    assert(self.target_map@ =~= before.target_map@);
                    lemma_same_targets(before, *self);
                    if before.target_map@[t as int].1.has_entity(patch.uuid@) {
                        let en = choose|en: int|
                            0 <= en < before.target_map@[t as int].1.entities@.len()
                                && before.target_map@[t as int].1.entities@[en].0@ == patch.uuid@;
                        assert(before.spec_has_entity(elf, patch.uuid@)) by {
                            assert(before.target_map@[t as int].0@ == elf);
                        }
                    }
                }
                return Err(e);
            },
            Ok(()) => {},
        }
        let ghost mid = *self;
        proof {
            lemma_user_target_update_frame(before, mid, t as int, elf);
        }
        self.watch(&ext.target_elf);
        let ghost mid2 = *self;
        proof {
            lemma_same_targets(mid, mid2);
        }
        self.set_status(&patch.uuid, &ext.target_elf, PatchStatus::Actived);
        proof {
            lemma_same_targets(mid2, *self);
            assert(self.target_inv()) by {
                assert forall|e: Seq<u8>|
                    self.spec_target_present(e) <==> self.spec_applied(e) by {
                    if e == elf {
                        assert(self.spec_target_present(elf)) by {
                            assert(mid.target_map@[t as int].0@ == elf);
                        }
                        assert(self.spec_applied(elf));
                    } else {
                        assert(self.spec_applied(e) == mid2.spec_applied(e));
                        assert(mid2.spec_applied(e) == old(self).spec_applied(e));
                        assert(self.spec_target_present(e) == before.spec_target_present(e));
                    }
                }
            }
            let procspec = crate::world::spec_process_lookup(env.processes@, elf);
            assert(procspec == proc@);
            assert forall|p: i32|
                mid.target_map@[t as int].1.entity_active(patch.uuid@, p) <==> (proc@.contains(p)
                    && !env.inject_failures@.contains(p)) by {}
            assert forall|p: i32|
                mid.spec_entity_active(elf, patch.uuid@, p) == mid.target_map@[t as int].1.entity_active(
                    patch.uuid@,
                    p,
                ) by {}
            assert forall|p: i32|
                mid2.spec_entity_active(elf, patch.uuid@, p) == mid.spec_entity_active(
                    elf,
                    patch.uuid@,
                    p,
                ) by {}
            assert forall|p: i32|
                self.spec_entity_active(elf, patch.uuid@, p) == mid2.spec_entity_active(
                    elf,
                    patch.uuid@,
                    p,
                ) by {}
            assert forall|p: i32|
                self.spec_entity_active(elf, patch.uuid@, p) <==> (procspec.contains(p)
                    && !env.inject_failures@.contains(p)) by {}
            assert forall|p: i32|
                mid.target_map@[t as int].1.entity_ignored(patch.uuid@, p) <==> (proc@.contains(p)
                    && env.inject_failures@.contains(p)) by {}
            assert forall|p: i32|
                mid.spec_entity_ignored(elf, patch.uuid@, p) == mid.target_map@[t as int].1.entity_ignored(
                    patch.uuid@,
                    p,
                ) by {}
            assert forall|p: i32|
                mid2.spec_entity_ignored(elf, patch.uuid@, p) == mid.spec_entity_ignored(
                    elf,
                    patch.uuid@,
                    p,
                ) by {}
            assert forall|p: i32|
                self.spec_entity_ignored(elf, patch.uuid@, p) == mid2.spec_entity_ignored(
                    elf,
                    patch.uuid@,
                    p,
                ) by {}
            assert forall|p: i32|
                self.spec_entity_ignored(elf, patch.uuid@, p) <==> (procspec.contains(p)
                    && env.inject_failures@.contains(p)) by {}
            assert forall|e: Seq<u8>, u: Seq<char>, f: Seq<u8>|
                self.user_covers(e, u, f) <==> (old(self).user_covers(e, u, f) || (e == elf && u
                    == patch.uuid@ && exists|k: int|
                    0 <= k < patch.spec_user_ext().functions@.len()
                        && patch.spec_user_ext().functions@[k]@ == f)) by {
                assert(self.user_covers(e, u, f) == mid2.user_covers(e, u, f));
                assert(mid2.user_covers(e, u, f) == mid.user_covers(e, u, f));
                if e == elf {
                    assert(mid.user_covers(elf, u, f) == mid.target_map@[t as int].1.functions.covers(
                        u,
                        f,
                    ));
                    assert(before.user_covers(elf, u, f) == before.target_map@[t as int].1.functions.covers(
                        u,
                        f,
                    ));
                } else {
                    assert(mid.user_covers(e, u, f) == before.user_covers(e, u, f));
                }
            }
        }
        Ok(())
    }

    /// Deactivates `patch`: unless forced refuses when overridden,
    /// ejects it from every live process, unregisters its functions,
    /// and marks it merely applied.  Stops watching a target whose
    /// last patch went dormant.
    #[verifier::rlimit(60)]
    pub fn deactive(&mut self, env: &DriverEnv, patch: &Patch, flag: PatchOpFlag) -> (r: Result<
        (),
        PatchError,
    >)
        requires
            old(self).wf(),
            old(self).target_inv(),
            patch.spec_kind() == PatchType::UserPatch,
            old(self).uuid_elf_ok(patch.uuid@, patch.spec_user_ext().target_elf@),
        ensures
            final(self).wf(),
            final(self).target_inv(),
            final(self).uuid_elf_ok(patch.uuid@, patch.spec_user_ext().target_elf@),
            forall|u: Seq<char>, e: Seq<u8>|
                u != patch.uuid@ && old(self).uuid_elf_ok(u, e) ==> final(self).uuid_elf_ok(u, e),
            ({
                let elf = patch.spec_user_ext().target_elf@;
                let proc = crate::world::spec_process_lookup(env.processes@, elf);
                match r {
                    Ok(()) => {
                        &&& (flag == PatchOpFlag::Force || !old(self).spec_user_conflict(
                            patch,
                            Some(patch.uuid@),
                        ))
                        &&& spec_status_lookup(final(self).status_map@, patch.uuid@)
                            == PatchStatus::Deactived
                        &&& forall|u: Seq<char>|
                            u != patch.uuid@ ==> spec_status_lookup(final(self).status_map@, u)
                                == spec_status_lookup(old(self).status_map@, u)
                        &&& !final(self).spec_has_entity(elf, patch.uuid@)
                        &&& forall|e: Seq<u8>, u: Seq<char>, f: Seq<u8>|
                            final(self).user_covers(e, u, f) <==> (old(self).user_covers(e, u, f)
                                && !(e == elf && u == patch.uuid@))
                        &&& forall|p: i32|
                            old(self).spec_entity_active(elf, patch.uuid@, p) && proc.contains(p)
                                && !old(self).spec_entity_ignored(elf, patch.uuid@, p)
                                ==> !env.inject_failures@.contains(p)
                        &&& ((exists|u: Seq<char>| final(self).spec_has_entity(elf, u))
                            ==> final(self).spec_watched(elf) == old(self).spec_watched(elf))
                        &&& ((forall|u: Seq<char>| !final(self).spec_has_entity(elf, u))
                            ==> !final(self).spec_watched(elf))
                    },
                    Err(e) => {
                        &&& forall|u: Seq<char>|
                            spec_status_lookup(final(self).status_map@, u) == spec_status_lookup(
                                old(self).status_map@,
                                u,
                            )
                        &&& (forall|e2: Seq<u8>, u: Seq<char>, f: Seq<u8>|
                            final(self).user_covers(e2, u, f) == old(self).user_covers(e2, u, f))
                        &&& final(self).spec_has_entity(elf, patch.uuid@) == old(
                            self,
                        ).spec_has_entity(elf, patch.uuid@)
                        &&& ((e.kind == ErrorKind::Override && flag != PatchOpFlag::Force && old(self).spec_user_conflict(patch, Some(patch.uuid@))) || (e.kind
                            == ErrorKind::NotFound && (!old(self).spec_target_present(elf) || !old(
                            self,
                        ).spec_has_entity(elf, patch.uuid@))) || (e.kind == ErrorKind::DriverFailure
                            && exists|p: i32|
                            old(self).spec_entity_active(elf, patch.uuid@, p) && proc.contains(p)
                                && !old(self).spec_entity_ignored(elf, patch.uuid@, p)
                                && env.inject_failures@.contains(p)))
                    },
                }
            }),
    {
        if flag != PatchOpFlag::Force {
            match self.check_override_functions(patch) {
                Err(e) => {
                    return Err(e);
                },
                Ok(()) => {},
            }
        }
        let ext = patch.user_ext();
        let ghost elf = patch.spec_user_ext().target_elf@;
        let proc = env.processes_of(ext.target_elf.as_slice());
        let t = match self.find_target(ext.target_elf.as_slice()) {
            None => {
                proof {
                    if old(self).spec_target_present(elf) {
                        let z = choose|z: int|
                            0 <= z < self.target_map@.len() && self.target_map@[z].0@ == elf;
                    }
                }
                return Err(PatchError::of(ErrorKind::NotFound, "Cannot find patch target"));
            },
            Some(t) => t,
        };
        let ghost before = *self;
        let tgt = &mut self.target_map[t];
        let ghost pre_target = before.target_map@[t as int].1;
        let res = tgt.1.deactivate_entity(env, &patch.uuid, &proc);
        proof {
            assert forall|z: int|
                0 <= z < self.target_map@.len() && z != t implies self.target_map@[z]
                == before.target_map@[z] by {}
        }
        match res {
            Err(e) => {
                proof {
                    lemma_user_target_update_frame(before, *self, t as int, elf);
                    assert forall|e2: Seq<u8>, u: Seq<char>, f: Seq<u8>|
                        self.user_covers(e2, u, f) == before.user_covers(e2, u, f) by {
                        if e2 == elf {
                            assert(self.user_covers(elf, u, f)
                                == self.target_map@[t as int].1.functions.covers(u, f));
                            assert(before.user_covers(elf, u, f)
                                == before.target_map@[t as int].1.functions.covers(u, f));
                        }
                    }
                    assert(self.spec_has_entity(elf, patch.uuid@) == before.spec_has_entity(
                        elf,
                        patch.uuid@,
                    )) by {
                        assert(self.spec_has_entity(elf, patch.uuid@)
                            == self.target_map@[t as int].1.has_entity(patch.uuid@));
                        assert(before.spec_has_entity(elf, patch.uuid@) == pre_target.has_entity(
                            patch.uuid@,
                        ));
                    }
                    if e.kind == ErrorKind::DriverFailure {
                        let pw = choose|pw: i32|
                            pre_target.entity_active(patch.uuid@, pw) && proc@.contains(pw)
                                && !pre_target.entity_ignored(patch.uuid@, pw)
                                && env.inject_failures@.contains(pw);
                        assert(before.spec_entity_active(elf, patch.uuid@, pw)
                            == pre_target.entity_active(patch.uuid@, pw));
                        assert(before.spec_entity_ignored(elf, patch.uuid@, pw)
                            == pre_target.entity_ignored(patch.uuid@, pw));
                    }
                }
                return Err(e);
            },
            Ok(()) => {},
        }
        let ghost mid = *self;
        proof {
            lemma_user_target_update_frame(before, mid, t as int, elf);
        }
        let last_entity = self.target_map[t].1.entities.len() == 0;
        if last_entity {
            self.unwatch(ext.target_elf.as_slice());
        }
        let ghost mid2 = *self;
        proof {
            lemma_same_targets(mid, mid2);
        }
        self.set_status(&patch.uuid, &ext.target_elf, PatchStatus::Deactived);
        proof {
            lemma_same_targets(mid2, *self);
            assert(self.target_inv()) by {
                assert forall|e: Seq<u8>|
                    self.spec_target_present(e) <==> self.spec_applied(e) by {
                    if e == elf {
                        assert(self.spec_target_present(elf)) by {
                            assert(mid.target_map@[t as int].0@ == elf);
                        }
                        assert(self.spec_applied(elf));
                    } else {
                        assert(self.spec_applied(e) == mid2.spec_applied(e));
                        assert(mid2.spec_applied(e) == old(self).spec_applied(e));
                        assert(self.spec_target_present(e) == before.spec_target_present(e));
                    }
                }
            }
            assert forall|u: Seq<char>|
                #![all_triggers]
                true implies self.spec_has_entity(elf, u) == mid.target_map@[t as int].1.has_entity(
                u,
            ) by {
                assert(self.spec_has_entity(elf, u) == mid2.spec_has_entity(elf, u));
                assert(mid2.spec_has_entity(elf, u) == mid.spec_has_entity(elf, u));
                assert(mid.spec_has_entity(elf, u) == mid.target_map@[t as int].1.has_entity(u));
            }
            if last_entity {
                assert forall|u: Seq<char>| !self.spec_has_entity(elf, u) by {
                    if mid.target_map@[t as int].1.has_entity(u) {
                        let en = choose|en: int|
                            0 <= en < mid.target_map@[t as int].1.entities@.len()
                                && mid.target_map@[t as int].1.entities@[en].0@ == u;
                    }
                }
                assert(!self.spec_watched(elf));
            } else {
                assert(mid.target_map@[t as int].1.entities@.len() > 0);
                assert(self.spec_has_entity(elf, mid.target_map@[t as int].1.entities@[0].0@)) by {
                    assert(mid.target_map@[t as int].1.has_entity(
                        mid.target_map@[t as int].1.entities@[0].0@,
                    ));
                }
                assert(self.spec_watched(elf) == old(self).spec_watched(elf)) by {
                    assert(mid2.watched@ == mid.watched@);
                    assert(mid.watched@ == before.watched@);
                }
            }
        }
        Ok(())
    }

    /// Monitor callback: a watched target may have spawned a new
    /// process, so give every patch of it a catch-up pass.
    pub fn patch_new_process(&mut self, env: &DriverEnv, target_elf: &Vec<u8>)
        requires
            old(self).wf(),
            old(self).target_inv(),
        ensures
            final(self).wf(),
            final(self).target_inv(),
            final(self).status_map@ == old(self).status_map@,
            final(self).watched@ == old(self).watched@,
            forall|u: Seq<char>, e: Seq<u8>|
                old(self).uuid_elf_ok(u, e) ==> final(self).uuid_elf_ok(u, e),
            forall|e: Seq<u8>, u: Seq<char>, f: Seq<u8>|
                final(self).user_covers(e, u, f) == old(self).user_covers(e, u, f),
            forall|e: Seq<u8>, u: Seq<char>|
                final(self).spec_has_entity(e, u) == old(self).spec_has_entity(e, u),
            ({
                let elf = target_elf@;
                let proc = crate::world::spec_process_lookup(env.processes@, elf);
                forall|u: Seq<char>, p: i32|
                    old(self).spec_has_entity(elf, u) ==> ((final(self).spec_entity_active(
                        elf,
                        u,
                        p,
                    ) <==> (proc.contains(p) && (old(self).spec_entity_active(elf, u, p) || (!old(self).spec_entity_active(elf, u, p) && !old(self).spec_entity_ignored(elf, u, p)
                        && !env.inject_failures@.contains(p))))) && (final(self).spec_entity_ignored(elf, u, p) <==> (proc.contains(p) && (old(self).spec_entity_ignored(elf, u, p) || (!old(self).spec_entity_active(elf, u, p)
                        && !old(self).spec_entity_ignored(elf, u, p)
                        && env.inject_failures@.contains(p))))))
            }),
            forall|e: Seq<u8>, u: Seq<char>, p: i32|
                e != target_elf@ ==> (final(self).spec_entity_active(e, u, p) == old(self).spec_entity_active(e, u, p) && final(self).spec_entity_ignored(e, u, p) == old(self).spec_entity_ignored(e, u, p)),
    {
        let proc = env.processes_of(target_elf.as_slice());
        let t = match self.find_target(target_elf.as_slice()) {
            None => {
                return ;
            },
            Some(t) => t,
        };
        let ghost before = *self;
        let ghost elf = target_elf@;
        let tgt = &mut self.target_map[t];
        tgt.1.catch_up_all(env, &proc);
        proof {
            assert forall|z: int|
                0 <= z < self.target_map@.len() && z != t implies self.target_map@[z]
                == before.target_map@[z] by {}
            lemma_user_target_update_frame(before, *self, t as int, elf);
            assert forall|e2: Seq<u8>, u: Seq<char>, f: Seq<u8>|
                self.user_covers(e2, u, f) == before.user_covers(e2, u, f) by {
                if e2 == elf {
                    assert(self.user_covers(elf, u, f)
                        == self.target_map@[t as int].1.functions.covers(u, f));
                    assert(before.user_covers(elf, u, f)
                        == before.target_map@[t as int].1.functions.covers(u, f));
                }
            }
            assert forall|e2: Seq<u8>, u: Seq<char>|
                self.spec_has_entity(e2, u) == before.spec_has_entity(e2, u) by {
                if e2 == elf {
                    assert(self.spec_has_entity(elf, u)
                        == self.target_map@[t as int].1.has_entity(u));
                    assert(before.spec_has_entity(elf, u)
                        == before.target_map@[t as int].1.has_entity(u));
                }
            }
            assert(self.target_inv()) by {
                assert forall|e2: Seq<u8>|
                    self.spec_target_present(e2) <==> self.spec_applied(e2) by {
                    assert(self.spec_target_present(e2) == before.spec_target_present(e2));
                    assert(self.spec_applied(e2) == before.spec_applied(e2));
                }
            }
        }
    }
}

/// Replacing the state of one target leaves every other target alone,
/// and the changed target's predicates are decided by its entry.
proof fn lemma_user_target_update_frame(
    b: UserPatchDriver,
    a: UserPatchDriver,
    t0: int,
    elf: Seq<u8>,
)
    requires
        b.wf(),
        0 <= t0 < b.target_map@.len(),
        b.target_map@[t0].0@ == elf,
        a.status_map@ == b.status_map@,
        a.target_map@.len() == b.target_map@.len(),
        forall|z: int| 0 <= z < b.target_map@.len() && z != t0 ==> a.target_map@[z]
            == b.target_map@[z],
        a.target_map@[t0].0 == b.target_map@[t0].0,
    ensures
        forall|e: Seq<u8>| a.spec_target_present(e) == b.spec_target_present(e),
        forall|e: Seq<u8>| a.spec_applied(e) == b.spec_applied(e),
        forall|e: Seq<u8>, u: Seq<char>, f: Seq<u8>|
            e != elf ==> a.user_covers(e, u, f) == b.user_covers(e, u, f),
        forall|u: Seq<char>, f: Seq<u8>|
            a.user_covers(elf, u, f) == a.target_map@[t0].1.functions.covers(u, f),
        forall|u: Seq<char>, f: Seq<u8>|
            b.user_covers(elf, u, f) == b.target_map@[t0].1.functions.covers(u, f),
        forall|e: Seq<u8>, u: Seq<char>|
            e != elf ==> a.spec_has_entity(e, u) == b.spec_has_entity(e, u),
        forall|u: Seq<char>| a.spec_has_entity(elf, u) == a.target_map@[t0].1.has_entity(u),
        forall|u: Seq<char>| b.spec_has_entity(elf, u) == b.target_map@[t0].1.has_entity(u),
        forall|e: Seq<u8>, u: Seq<char>, p: i32|
            e != elf ==> (a.spec_entity_active(e, u, p) == b.spec_entity_active(e, u, p)
                && a.spec_entity_ignored(e, u, p) == b.spec_entity_ignored(e, u, p)),
        forall|u: Seq<char>, p: i32|
            a.spec_entity_active(elf, u, p) == a.target_map@[t0].1.entity_active(u, p)
                && a.spec_entity_ignored(elf, u, p) == a.target_map@[t0].1.entity_ignored(u, p),
        forall|u: Seq<char>, p: i32|
            b.spec_entity_active(elf, u, p) == b.target_map@[t0].1.entity_active(u, p)
                && b.spec_entity_ignored(elf, u, p) == b.target_map@[t0].1.entity_ignored(u, p),
{
    assert forall|z: int| 0 <= z < a.target_map@.len() implies a.target_map@[z].0
        == b.target_map@[z].0 by {}
    assert forall|e: Seq<u8>| a.spec_target_present(e) == b.spec_target_present(e) by {
        if a.spec_target_present(e) {
            let z = choose|z: int| 0 <= z < a.target_map@.len() && a.target_map@[z].0@ == e;
            assert(b.target_map@[z].0@ == e);
        }
        if b.spec_target_present(e) {
            let z = choose|z: int| 0 <= z < b.target_map@.len() && b.target_map@[z].0@ == e;
            assert(a.target_map@[z].0@ == e);
        }
    }
    assert forall|e: Seq<u8>, u: Seq<char>, f: Seq<u8>| e != elf implies a.user_covers(e, u, f)
        == b.user_covers(e, u, f) by {
        if a.user_covers(e, u, f) {
            let z = choose|z: int|
                0 <= z < a.target_map@.len() && a.target_map@[z].0@ == e
                    && a.target_map@[z].1.functions.covers(u, f);
            assert(z != t0);
            assert(b.target_map@[z].0@ == e && b.target_map@[z].1.functions.covers(u, f));
        }
        if b.user_covers(e, u, f) {
            let z = choose|z: int|
                0 <= z < b.target_map@.len() && b.target_map@[z].0@ == e
                    && b.target_map@[z].1.functions.covers(u, f);
            assert(z != t0);
            assert(a.target_map@[z].0@ == e && a.target_map@[z].1.functions.covers(u, f));
        }
    }
    assert forall|u: Seq<char>, f: Seq<u8>|
        a.user_covers(elf, u, f) == a.target_map@[t0].1.functions.covers(u, f) by {
        if a.user_covers(elf, u, f) {
            let z = choose|z: int|
                0 <= z < a.target_map@.len() && a.target_map@[z].0@ == elf
                    && a.target_map@[z].1.functions.covers(u, f);
            assert(z == t0);
        }
    }
    assert forall|u: Seq<char>, f: Seq<u8>|
        b.user_covers(elf, u, f) == b.target_map@[t0].1.functions.covers(u, f) by {
        if b.user_covers(elf, u, f) {
            let z = choose|z: int|
                0 <= z < b.target_map@.len() && b.target_map@[z].0@ == elf
                    && b.target_map@[z].1.functions.covers(u, f);
            assert(z == t0);
        }
    }
    assert forall|e: Seq<u8>, u: Seq<char>| e != elf implies a.spec_has_entity(e, u)
        == b.spec_has_entity(e, u) by {
        if a.spec_has_entity(e, u) {
            let (z, en) = choose|z: int, en: int|
                0 <= z < a.target_map@.len() && a.target_map@[z].0@ == e && 0 <= en
                    < a.target_map@[z].1.entities@.len() && a.target_map@[z].1.entities@[en].0@
                    == u;
            assert(z != t0);
            assert(b.target_map@[z].0@ == e && b.target_map@[z].1.entities@[en].0@ == u);
        }
        if b.spec_has_entity(e, u) {
            let (z, en) = choose|z: int, en: int|
                0 <= z < b.target_map@.len() && b.target_map@[z].0@ == e && 0 <= en
                    < b.target_map@[z].1.entities@.len() && b.target_map@[z].1.entities@[en].0@
                    == u;
            assert(z != t0);
            assert(a.target_map@[z].0@ == e && a.target_map@[z].1.entities@[en].0@ == u);
        }
    }
    assert forall|u: Seq<char>|
        a.spec_has_entity(elf, u) == a.target_map@[t0].1.has_entity(u) by {
        if a.spec_has_entity(elf, u) {
            let (z, en) = choose|z: int, en: int|
                0 <= z < a.target_map@.len() && a.target_map@[z].0@ == elf && 0 <= en
                    < a.target_map@[z].1.entities@.len() && a.target_map@[z].1.entities@[en].0@
                    == u;
            assert(z == t0);
        }
        if a.target_map@[t0].1.has_entity(u) {
            let en = choose|en: int|
                0 <= en < a.target_map@[t0].1.entities@.len()
                    && a.target_map@[t0].1.entities@[en].0@ == u;
            assert(a.target_map@[t0].0@ == elf);
        }
    }
    assert forall|u: Seq<char>|
        b.spec_has_entity(elf, u) == b.target_map@[t0].1.has_entity(u) by {
        if b.spec_has_entity(elf, u) {
            let (z, en) = choose|z: int, en: int|
                0 <= z < b.target_map@.len() && b.target_map@[z].0@ == elf && 0 <= en
                    < b.target_map@[z].1.entities@.len() && b.target_map@[z].1.entities@[en].0@
                    == u;
            assert(z == t0);
        }
        if b.target_map@[t0].1.has_entity(u) {
            let en = choose|en: int|
                0 <= en < b.target_map@[t0].1.entities@.len()
                    && b.target_map@[t0].1.entities@[en].0@ == u;
        }
    }
    assert forall|e: Seq<u8>, u: Seq<char>, p: i32| e != elf implies (a.spec_entity_active(e, u, p)
        == b.spec_entity_active(e, u, p) && a.spec_entity_ignored(e, u, p)
        == b.spec_entity_ignored(e, u, p)) by {
        if a.spec_entity_active(e, u, p) {
            let (z, en) = choose|z: int, en: int|
                0 <= z < a.target_map@.len() && a.target_map@[z].0@ == e && 0 <= en
                    < a.target_map@[z].1.entities@.len() && a.target_map@[z].1.entities@[en].0@
                    == u && a.target_map@[z].1.entities@[en].1.active_pids@.contains(p);
            assert(z != t0);
            assert(b.target_map@[z].0@ == e && b.target_map@[z].1.entities@[en].0@ == u
                && b.target_map@[z].1.entities@[en].1.active_pids@.contains(p));
        }
        if b.spec_entity_active(e, u, p) {
            let (z, en) = choose|z: int, en: int|
                0 <= z < b.target_map@.len() && b.target_map@[z].0@ == e && 0 <= en
                    < b.target_map@[z].1.entities@.len() && b.target_map@[z].1.entities@[en].0@
                    == u && b.target_map@[z].1.entities@[en].1.active_pids@.contains(p);
            assert(z != t0);
            assert(a.target_map@[z].0@ == e && a.target_map@[z].1.entities@[en].0@ == u
                && a.target_map@[z].1.entities@[en].1.active_pids@.contains(p));
        }
        if a.spec_entity_ignored(e, u, p) {
            let (z, en) = choose|z: int, en: int|
                0 <= z < a.target_map@.len() && a.target_map@[z].0@ == e && 0 <= en
                    < a.target_map@[z].1.entities@.len() && a.target_map@[z].1.entities@[en].0@
                    == u && a.target_map@[z].1.entities@[en].1.ignored_pids@.contains(p);
            assert(z != t0);
            assert(b.target_map@[z].0@ == e && b.target_map@[z].1.entities@[en].0@ == u
                && b.target_map@[z].1.entities@[en].1.ignored_pids@.contains(p));
        }
        if b.spec_entity_ignored(e, u, p) {
            let (z, en) = choose|z: int, en: int|
                0 <= z < b.target_map@.len() && b.target_map@[z].0@ == e && 0 <= en
                    < b.target_map@[z].1.entities@.len() && b.target_map@[z].1.entities@[en].0@
                    == u && b.target_map@[z].1.entities@[en].1.ignored_pids@.contains(p);
            assert(z != t0);
            assert(a.target_map@[z].0@ == e && a.target_map@[z].1.entities@[en].0@ == u
                && a.target_map@[z].1.entities@[en].1.ignored_pids@.contains(p));
        }
    }
    assert forall|u: Seq<char>, p: i32|
        a.spec_entity_active(elf, u, p) == a.target_map@[t0].1.entity_active(u, p)
            && a.spec_entity_ignored(elf, u, p) == a.target_map@[t0].1.entity_ignored(u, p) by {
        if a.spec_entity_active(elf, u, p) {
            let (z, en) = choose|z: int, en: int|
                0 <= z < a.target_map@.len() && a.target_map@[z].0@ == elf && 0 <= en
                    < a.target_map@[z].1.entities@.len() && a.target_map@[z].1.entities@[en].0@
                    == u && a.target_map@[z].1.entities@[en].1.active_pids@.contains(p);
            assert(z == t0);
        }
        if a.target_map@[t0].1.entity_active(u, p) {
            let en = choose|en: int|
                0 <= en < a.target_map@[t0].1.entities@.len()
                    && a.target_map@[t0].1.entities@[en].0@ == u
                    && a.target_map@[t0].1.entities@[en].1.active_pids@.contains(p);
        }
        if a.spec_entity_ignored(elf, u, p) {
            let (z, en) = choose|z: int, en: int|
                0 <= z < a.target_map@.len() && a.target_map@[z].0@ == elf && 0 <= en
                    < a.target_map@[z].1.entities@.len() && a.target_map@[z].1.entities@[en].0@
                    == u && a.target_map@[z].1.entities@[en].1.ignored_pids@.contains(p);
            assert(z == t0);
        }
        if a.target_map@[t0].1.entity_ignored(u, p) {
            let en = choose|en: int|
                0 <= en < a.target_map@[t0].1.entities@.len()
                    && a.target_map@[t0].1.entities@[en].0@ == u
                    && a.target_map@[t0].1.entities@[en].1.ignored_pids@.contains(p);
        }
    }
    assert forall|u: Seq<char>, p: i32|
        b.spec_entity_active(elf, u, p) == b.target_map@[t0].1.entity_active(u, p)
            && b.spec_entity_ignored(elf, u, p) == b.target_map@[t0].1.entity_ignored(u, p) by {
        if b.spec_entity_active(elf, u, p) {
            let (z, en) = choose|z: int, en: int|
                0 <= z < b.target_map@.len() && b.target_map@[z].0@ == elf && 0 <= en
                    < b.target_map@[z].1.entities@.len() && b.target_map@[z].1.entities@[en].0@
                    == u && b.target_map@[z].1.entities@[en].1.active_pids@.contains(p);
            assert(z == t0);
        }
        if b.target_map@[t0].1.entity_active(u, p) {
            let en = choose|en: int|
                0 <= en < b.target_map@[t0].1.entities@.len()
                    && b.target_map@[t0].1.entities@[en].0@ == u
                    && b.target_map@[t0].1.entities@[en].1.active_pids@.contains(p);
        }
        if b.spec_entity_ignored(elf, u, p) {
            let (z, en) = choose|z: int, en: int|
                0 <= z < b.target_map@.len() && b.target_map@[z].0@ == elf && 0 <= en
                    < b.target_map@[z].1.entities@.len() && b.target_map@[z].1.entities@[en].0@
                    == u && b.target_map@[z].1.entities@[en].1.ignored_pids@.contains(p);
            assert(z == t0);
        }
        if b.target_map@[t0].1.entity_ignored(u, p) {
            let en = choose|en: int|
                0 <= en < b.target_map@[t0].1.entities@.len()
                    && b.target_map@[t0].1.entities@[en].0@ == u
                    && b.target_map@[t0].1.entities@[en].1.ignored_pids@.contains(p);
        }
    }
    assert forall|e: Seq<u8>| a.spec_applied(e) == b.spec_applied(e) by {}
}

/// A lookup over records that never store `Unknown` is never
/// `Unknown`.
pub proof fn lemma_status_lookup_not_unknown(s: Seq<UserStatusRecord>, uuid: Seq<char>)
    requires
        forall|i: int| 0 <= i < s.len() ==> (#[trigger] s[i]).status != PatchStatus::Unknown,
    ensures
        spec_status_lookup(s, uuid) != PatchStatus::Unknown,
    decreases s.len(),
{
    if s.len() > 0 && s[0].uuid@ != uuid {
        assert forall|i: int| 0 <= i < s.skip(1).len() implies (#[trigger] s.skip(1)[i]).status
            != PatchStatus::Unknown by {
            assert(s.skip(1)[i] == s[i + 1]);
        }
        lemma_status_lookup_not_unknown(s.skip(1), uuid);
    }
}

/// With unique uuids the lookup returns the status of the witness
/// record.
pub proof fn lemma_status_lookup_unique(s: Seq<UserStatusRecord>, uuid: Seq<char>, i: int)
    requires
        forall|a: int, b: int| 0 <= a < b < s.len() ==> s[a].uuid@ != s[b].uuid@,
        0 <= i < s.len(),
        s[i].uuid@ == uuid,
    ensures
        spec_status_lookup(s, uuid) == s[i].status,
    decreases s.len(),
{
    if i > 0 {
        assert(s[0].uuid@ != uuid);
        assert(s.skip(1)[i - 1] == s[i]);
        lemma_status_lookup_unique(s.skip(1), uuid, i - 1);
    }
}

/// A uuid with no record reads `NotApplied`.
pub proof fn lemma_status_lookup_absent(s: Seq<UserStatusRecord>, uuid: Seq<char>)
    requires
        forall|i: int| 0 <= i < s.len() ==> s[i].uuid@ != uuid,
    ensures
        spec_status_lookup(s, uuid) == PatchStatus::NotApplied,
    decreases s.len(),
{
    if s.len() > 0 {
        assert forall|i: int| 0 <= i < s.skip(1).len() implies s.skip(1)[i].uuid@ != uuid by {
            assert(s.skip(1)[i] == s[i + 1]);
        }
        lemma_status_lookup_absent(s.skip(1), uuid);
    }
}

/// Updating a record in place moves only its uuid's lookup.
pub proof fn lemma_status_lookup_update(s: Seq<UserStatusRecord>, i: int, rec: UserStatusRecord)
    requires
        forall|a: int, b: int| 0 <= a < b < s.len() ==> s[a].uuid@ != s[b].uuid@,
        0 <= i < s.len(),
        rec.uuid@ == s[i].uuid@,
    ensures
        forall|u: Seq<char>|
            u != rec.uuid@ ==> spec_status_lookup(s.update(i, rec), u) == spec_status_lookup(s, u),
        spec_status_lookup(s.update(i, rec), rec.uuid@) == rec.status,
    decreases s.len(),
{
    let s2 = s.update(i, rec);
    assert forall|a: int, b: int| 0 <= a < b < s2.len() implies s2[a].uuid@ != s2[b].uuid@ by {}
    lemma_status_lookup_unique(s2, rec.uuid@, i);
    assert forall|u: Seq<char>| u != rec.uuid@ implies spec_status_lookup(s2, u)
        == spec_status_lookup(s, u) by {
        if exists|j: int| 0 <= j < s.len() && (#[trigger] s[j]).uuid@ == u {
            let j = choose|j: int| 0 <= j < s.len() && (#[trigger] s[j]).uuid@ == u;
            assert(j != i);
            assert(s2[j].uuid@ == u && s2[j].status == s[j].status);
            lemma_status_lookup_unique(s, u, j);
            lemma_status_lookup_unique(s2, u, j);
        } else {
            assert forall|j: int| 0 <= j < s.len() implies s[j].uuid@ != u by {}
            assert forall|j: int| 0 <= j < s2.len() implies s2[j].uuid@ != u by {
                if s2[j].uuid@ == u {
                    assert(j != i);
                    assert(s[j].uuid@ == u);
                }
            }
            lemma_status_lookup_absent(s, u);
            lemma_status_lookup_absent(s2, u);
        }
    }
}

/// Appending a record for a new uuid moves only that uuid's lookup.
pub proof fn lemma_status_lookup_push(s: Seq<UserStatusRecord>, rec: UserStatusRecord)
    requires
        forall|a: int, b: int| 0 <= a < b < s.len() ==> s[a].uuid@ != s[b].uuid@,
        forall|i: int| 0 <= i < s.len() ==> s[i].uuid@ != rec.uuid@,
    ensures
        forall|u: Seq<char>|
            u != rec.uuid@ ==> spec_status_lookup(s.push(rec), u) == spec_status_lookup(s, u),
        spec_status_lookup(s.push(rec), rec.uuid@) == rec.status,
{
    let s2 = s.push(rec);
    assert forall|a: int, b: int| 0 <= a < b < s2.len() implies s2[a].uuid@ != s2[b].uuid@ by {
        if b < s.len() {
        } else {
            assert(s2[b] == rec);
            assert(s2[a] == s[a]);
        }
    }
    lemma_status_lookup_unique(s2, rec.uuid@, s.len() as int);
    assert forall|u: Seq<char>| u != rec.uuid@ implies spec_status_lookup(s2, u)
        == spec_status_lookup(s, u) by {
        if exists|j: int| 0 <= j < s.len() && (#[trigger] s[j]).uuid@ == u {
            let j = choose|j: int| 0 <= j < s.len() && (#[trigger] s[j]).uuid@ == u;
            assert(s2[j].uuid@ == u);
            lemma_status_lookup_unique(s, u, j);
            lemma_status_lookup_unique(s2, u, j);
        } else {
            assert forall|j: int| 0 <= j < s.len() implies s[j].uuid@ != u by {}
            assert forall|j: int| 0 <= j < s2.len() implies s2[j].uuid@ != u by {
                if j < s.len() {
                    assert(s2[j] == s[j]);
                } else {
                    assert(s2[j] == rec);
                }
            }
            lemma_status_lookup_absent(s, u);
            lemma_status_lookup_absent(s2, u);
        }
    }
}

/// Removing a record moves only its uuid's lookup, to `NotApplied`.
pub proof fn lemma_status_lookup_remove(s: Seq<UserStatusRecord>, i: int)
    requires
        forall|a: int, b: int| 0 <= a < b < s.len() ==> s[a].uuid@ != s[b].uuid@,
        0 <= i < s.len(),
    ensures
        forall|u: Seq<char>|
            u != s[i].uuid@ ==> spec_status_lookup(s.remove(i), u) == spec_status_lookup(s, u),
        spec_status_lookup(s.remove(i), s[i].uuid@) == PatchStatus::NotApplied,
{
    let s2 = s.remove(i);
    assert forall|a: int, b: int| 0 <= a < b < s2.len() implies s2[a].uuid@ != s2[b].uuid@ by {
        let oa = if a < i { a } else { a + 1 };
        let ob = if b < i { b } else { b + 1 };
        assert(s2[a] == s[oa] && s2[b] == s[ob]);
    }
    assert forall|j: int| 0 <= j < s2.len() implies s2[j].uuid@ != s[i].uuid@ by {
        let oj = if j < i { j } else { j + 1 };
        assert(s2[j] == s[oj]);
    }
    lemma_status_lookup_absent(s2, s[i].uuid@);
    assert forall|u: Seq<char>| u != s[i].uuid@ implies spec_status_lookup(s2, u)
        == spec_status_lookup(s, u) by {
        if exists|j: int| 0 <= j < s.len() && (#[trigger] s[j]).uuid@ == u {
            let j = choose|j: int| 0 <= j < s.len() && (#[trigger] s[j]).uuid@ == u;
            assert(j != i);
            let j2 = if j < i { j } else { j - 1 };
            assert(s2[j2] == s[j]);
            lemma_status_lookup_unique(s, u, j);
            lemma_status_lookup_unique(s2, u, j2);
        } else {
            assert forall|j: int| 0 <= j < s.len() implies s[j].uuid@ != u by {}
            assert forall|j: int| 0 <= j < s2.len() implies s2[j].uuid@ != u by {
                let oj = if j < i { j } else { j + 1 };
                assert(s2[j] == s[oj]);
            }
            lemma_status_lookup_absent(s, u);
            lemma_status_lookup_absent(s2, u);
        }
    }
}

} // verus!
