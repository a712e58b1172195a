//! Observations of the outside system, handed to the engine as values.
//!
//! The engine never performs a system call itself.  The surrounding
//! process gathers what the drivers need to decide — the running kernel
//! release, the loaded modules, artefact digests, live process lists —
//! and reports the outcome of every primitive it performed (module
//! loads, per-process injections).  The engine is verified for every
//! value of these observations.
use vstd::prelude::*;

use crate::bytestr::{bytes_eq, bytes_vec_contains, pid_vec_contains};
use crate::status::PatchStatus;

verus! {

/// Whether safety checks may be skipped for an operation.
#[derive(Clone, Copy, Debug, PartialEq, Eq, Structural)]
pub enum PatchOpFlag {
    Normal,
    Force,
}

/// A snapshot of everything the drivers observe of the outside system.
#[derive(Debug)]
pub struct DriverEnv {
    /// Release string of the running kernel, as `uname -r` reports it.
    pub kernel_release: String,
    /// Names of the kernel modules currently loaded, from `/sys/module`.
    pub loaded_modules: Vec<Vec<u8>>,
    /// Observed hex digest of each artefact path that could be read.
    pub digests: Vec<(Vec<u8>, String)>,
    /// Artefact paths on which the external module loader reports failure.
    pub insmod_failures: Vec<Vec<u8>>,
    /// Artefact paths on which the external module unloader reports failure.
    pub rmmod_failures: Vec<Vec<u8>>,
    /// Live process ids of each user-space target ELF path.
    pub processes: Vec<(Vec<u8>, Vec<i32>)>,
    /// Process ids for which the injection primitives report failure.
    pub inject_failures: Vec<i32>,
    /// Observed livepatch control state: one entry per patch module
    /// whose sysfs `enabled` file exists, `true` when it reads `1`.
    pub sysfs_states: Vec<(Vec<u8>, bool)>,
    /// Module names whose sysfs `enabled` file cannot be written.
    pub sysfs_write_failures: Vec<Vec<u8>>,
    /// Lifecycle state the user-space injection module reports per
    /// patch uuid.
    pub upatch_states: Vec<(String, PatchStatus)>,
}

/// First observed sysfs state recorded for `module`, if any.
pub open spec fn spec_sysfs_lookup(s: Seq<(Vec<u8>, bool)>, module: Seq<u8>) -> Option<bool>
    decreases s.len(),
{
    if s.len() == 0 {
        None
    } else if s[0].0@ == module {
        Some(s[0].1)
    } else {
        spec_sysfs_lookup(s.skip(1), module)
    }
}

/// First observed user-space state recorded for `uuid`, if any.
pub open spec fn spec_upatch_lookup(s: Seq<(String, PatchStatus)>, uuid: Seq<char>) -> Option<
    PatchStatus,
>
    decreases s.len(),
{
    if s.len() == 0 {
        None
    } else if s[0].0@ == uuid {
        Some(s[0].1)
    } else {
        spec_upatch_lookup(s.skip(1), uuid)
    }
}

/// First digest recorded for `path`, if any.
pub open spec fn spec_digest_lookup(s: Seq<(Vec<u8>, String)>, path: Seq<u8>) -> Option<Seq<char>>
    decreases s.len(),
{
    if s.len() == 0 {
        None
    } else if s[0].0@ == path {
        Some(s[0].1@)
    } else {
        spec_digest_lookup(s.skip(1), path)
    }
}

/// First process list recorded for `elf`; a target with no record has no
/// live process.
pub open spec fn spec_process_lookup(s: Seq<(Vec<u8>, Vec<i32>)>, elf: Seq<u8>) -> Seq<i32>
    decreases s.len(),
{
    if s.len() == 0 {
        Seq::empty()
    } else if s[0].0@ == elf {
        s[0].1@
    } else {
        spec_process_lookup(s.skip(1), elf)
    }
}

impl DriverEnv {
    /// Observed digest of the artefact at `path`.
    pub fn digest_of(&self, path: &[u8]) -> (r: Option<String>)
        ensures
            match r {
                Some(d) => spec_digest_lookup(self.digests@, path@) == Some(d@),
                None => spec_digest_lookup(self.digests@, path@) is None,
            },
    {
        let n = self.digests.len();
        let mut i: usize = 0;
        assert(self.digests@.skip(0) =~= self.digests@);
        while i < n
            invariant
                n == self.digests@.len(),
                0 <= i <= n,
                spec_digest_lookup(self.digests@, path@) == spec_digest_lookup(
                    self.digests@.skip(i as int),
                    path@,
                ),
            decreases n - i,
        {
            assert(self.digests@.skip(i as int)[0] == self.digests@[i as int]);
            if bytes_eq(self.digests[i].0.as_slice(), path) {
                return Some(self.digests[i].1.clone());
            }
            assert(self.digests@.skip(i as int).skip(1) =~= self.digests@.skip(i as int + 1));
            i = i + 1;
        }
        assert(self.digests@.skip(n as int).len() == 0);
        None
    }

    /// Live processes of the target ELF at `elf`, a fresh list.
    pub fn processes_of(&self, elf: &[u8]) -> (r: Vec<i32>)
        ensures
            r@ == spec_process_lookup(self.processes@, elf@),
    {
        let n = self.processes.len();
        let mut i: usize = 0;
        assert(self.processes@.skip(0) =~= self.processes@);
        while i < n
            invariant
                n == self.processes@.len(),
                0 <= i <= n,
                spec_process_lookup(self.processes@, elf@) == spec_process_lookup(
                    self.processes@.skip(i as int),
                    elf@,
                ),
            decreases n - i,
        {
            assert(self.processes@.skip(i as int)[0] == self.processes@[i as int]);
            if bytes_eq(self.processes[i].0.as_slice(), elf) {
                let src = &self.processes[i].1;
                let mut out: Vec<i32> = Vec::new();
                let m = src.len();
                let mut j: usize = 0;
                while j < m
                    invariant
                        m == src@.len(),
                        0 <= j <= m,
                        out@ == src@.subrange(0, j as int),
                    decreases m - j,
                {
                    out.push(src[j]);
                    assert(out@ =~= src@.subrange(0, j as int + 1));
                    j = j + 1;
                }
                assert(out@ =~= src@);
                return out;
            }
            assert(self.processes@.skip(i as int).skip(1) =~= self.processes@.skip(i as int + 1));
            i = i + 1;
        }
        assert(self.processes@.skip(n as int).len() == 0);
        Vec::new()
    }

    /// The module loader succeeds on `path`.
    pub fn insmod_ok(&self, path: &[u8]) -> (r: bool)
        ensures
            r == !self.insmod_failures.deep_view().contains(path@),
    {
        !bytes_vec_contains(&self.insmod_failures, path)
    }

    /// The module unloader succeeds on `path`.
    pub fn rmmod_ok(&self, path: &[u8]) -> (r: bool)
        ensures
            r == !self.rmmod_failures.deep_view().contains(path@),
    {
        !bytes_vec_contains(&self.rmmod_failures, path)
    }

    /// The injection primitive succeeds for process `pid`.
    pub fn inject_ok(&self, pid: i32) -> (r: bool)
        ensures
            r == !self.inject_failures@.contains(pid),
    {
        !pid_vec_contains(&self.inject_failures, pid)
    }

    /// Observed livepatch control state of the patch module `module`.
    pub fn sysfs_state_of(&self, module: &[u8]) -> (r: Option<bool>)
        ensures
            r == spec_sysfs_lookup(self.sysfs_states@, module@),
    {
        let n = self.sysfs_states.len();
        let mut i: usize = 0;
        assert(self.sysfs_states@.skip(0) =~= self.sysfs_states@);
        while i < n
            invariant
                n == self.sysfs_states@.len(),
                0 <= i <= n,
                spec_sysfs_lookup(self.sysfs_states@, module@) == spec_sysfs_lookup(
                    self.sysfs_states@.skip(i as int),
                    module@,
                ),
            decreases n - i,
        {
            assert(self.sysfs_states@.skip(i as int)[0] == self.sysfs_states@[i as int]);
            if bytes_eq(self.sysfs_states[i].0.as_slice(), module) {
                return Some(self.sysfs_states[i].1);
            }
            assert(self.sysfs_states@.skip(i as int).skip(1) =~= self.sysfs_states@.skip(
                i as int + 1,
            ));
            i = i + 1;
        }
        assert(self.sysfs_states@.skip(n as int).len() == 0);
        None
    }

    /// Observed user-space lifecycle state of the patch `uuid`.
    pub fn upatch_state_of(&self, uuid: &String) -> (r: Option<PatchStatus>)
        ensures
            r == spec_upatch_lookup(self.upatch_states@, uuid@),
    {
        let n = self.upatch_states.len();
        let mut i: usize = 0;
        assert(self.upatch_states@.skip(0) =~= self.upatch_states@);
        while i < n
            invariant
                n == self.upatch_states@.len(),
                0 <= i <= n,
                spec_upatch_lookup(self.upatch_states@, uuid@) == spec_upatch_lookup(
                    self.upatch_states@.skip(i as int),
                    uuid@,
                ),
            decreases n - i,
        {
            assert(self.upatch_states@.skip(i as int)[0] == self.upatch_states@[i as int]);
            if self.upatch_states[i].0.eq(uuid) {
                return Some(self.upatch_states[i].1);
            }
            assert(self.upatch_states@.skip(i as int).skip(1) =~= self.upatch_states@.skip(
                i as int + 1,
            ));
            i = i + 1;
        }
        assert(self.upatch_states@.skip(n as int).len() == 0);
        None
    }

    /// The sysfs `enabled` file of `module` can be written.
    pub fn sysfs_write_ok(&self, module: &[u8]) -> (r: bool)
        ensures
            r == !self.sysfs_write_failures.deep_view().contains(module@),
    {
        !bytes_vec_contains(&self.sysfs_write_failures, module)
    }

    /// A kernel module named `module` is currently loaded.
    pub fn module_loaded(&self, module: &[u8]) -> (r: bool)
        ensures
            r == self.loaded_modules.deep_view().contains(module@),
    {
        bytes_vec_contains(&self.loaded_modules, module)
    }
}

} // verus!
