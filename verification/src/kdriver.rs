//! The kernel patch driver.
//!
//! The driver keeps a per-module symbol registry for conflict and
//! override detection, and a model of the kernel's livepatch control
//! state: one `(module, enabled)` entry per inserted patch module,
//! mirroring `/sys/kernel/livepatch/<module>/enabled`.  The surrounding
//! process performs the real module loads and sysfs writes and reports
//! their outcomes through the [`DriverEnv`] observations.
use vstd::prelude::*;
use vstd::string::StringSliceAdditionalSpecFns;

use crate::bytestr::{bytes_eq, bytes_starts_with, lemma_string_vec_deep_view, string_vec_contains};
use crate::entity::{Patch, PatchType};
use crate::error::{spec_uuid_list_message, uuid_list_message, ErrorKind, PatchError};
use crate::registry::PatchTarget;
use crate::status::PatchStatus;
use crate::world::{spec_digest_lookup, DriverEnv, PatchOpFlag};

verus! {

/// Name of the kernel image pseudo-module: symbols in it need no
/// separate module to be loaded.
pub open spec fn spec_vmlinux() -> Seq<u8> {
    "vmlinux".spec_bytes()
}

/// Prefix of kernel package names; a patch against such a package must
/// match the running kernel exactly.
pub open spec fn spec_kernel_prefix() -> Seq<char> {
    "kernel-"@
}

/// The patch target package is compatible with the running kernel: a
/// patch against a kernel package must name the running release
/// exactly; any other package passes.
pub open spec fn spec_compat_ok(env: &DriverEnv, p: &Patch) -> bool {
    !(crate::bytestr::spec_starts_with(
        vstd::utf8::encode_utf8(p.target_pkg_name@),
        vstd::utf8::encode_utf8(spec_kernel_prefix()),
    ) && p.target_pkg_name@ != spec_kernel_prefix() + env.kernel_release@)
}

/// Every module a symbol of `p` targets, other than the kernel image
/// itself, is currently loaded.
pub open spec fn spec_dep_ok(env: &DriverEnv, p: &Patch) -> bool {
    forall|i: int|
        0 <= i < p.spec_kernel_ext().symbols@.len() && (#[trigger] p.spec_kernel_ext().symbols@[i]).target@
            != spec_vmlinux() ==> env.loaded_modules.deep_view().contains(
            p.spec_kernel_ext().symbols@[i].target@,
        )
}

/// Two drivers with the same registry map agree on symbol coverage.
pub proof fn lemma_kernel_covers_eq(a: KernelPatchDriver, b: KernelPatchDriver)
    requires
        a.target_map@ == b.target_map@,
    ensures
        forall|m: Seq<u8>, u: Seq<char>, s: Seq<u8>|
            a.covers_in(m, u, s) == b.covers_in(m, u, s),
{
    assert forall|m: Seq<u8>, u: Seq<char>, s: Seq<u8>|
        a.covers_in(m, u, s) == b.covers_in(m, u, s) by {
        if a.covers_in(m, u, s) {
            let t = choose|t: int|
                0 <= t < a.target_map@.len() && a.target_map@[t].0@ == m
                    && a.target_map@[t].1.covers(u, s);
            assert(b.target_map@[t].0@ == m && b.target_map@[t].1.covers(u, s));
        }
        if b.covers_in(m, u, s) {
            let t = choose|t: int|
                0 <= t < b.target_map@.len() && b.target_map@[t].0@ == m
                    && b.target_map@[t].1.covers(u, s);
            assert(a.target_map@[t].0@ == m && a.target_map@[t].1.covers(u, s));
        }
    }
}

/// The kernel patch driver: symbol registries and the livepatch model.
#[derive(Debug)]
pub struct KernelPatchDriver {
    /// Symbol registry per target module name.
    pub target_map: Vec<(Vec<u8>, PatchTarget)>,
    /// Model of the livepatch control state: one entry per inserted
    /// patch module, `true` when its `enabled` file reads `1`.
    pub livepatch: Vec<(Vec<u8>, bool)>,
}

impl KernelPatchDriver {
    /// Module names are unique in both maps and every registry is
    /// well formed.
    pub open spec fn wf(&self) -> bool {
        &&& forall|i: int, j: int|
            0 <= i < j < self.target_map@.len() ==> self.target_map@[i].0@
                != self.target_map@[j].0@
        &&& forall|i: int| 0 <= i < self.target_map@.len() ==> (#[trigger] self.target_map@[i].1).wf()
        &&& forall|i: int, j: int|
            0 <= i < j < self.livepatch@.len() ==> self.livepatch@[i].0@ != self.livepatch@[j].0@
    }

    /// A patch module named `module` is inserted.
    pub open spec fn spec_module_present(&self, module: Seq<u8>) -> bool {
        exists|i: int| 0 <= i < self.livepatch@.len() && self.livepatch@[i].0@ == module
    }

    /// The inserted patch module named `module` is enabled.
    pub open spec fn spec_module_enabled(&self, module: Seq<u8>) -> bool {
        exists|i: int|
            0 <= i < self.livepatch@.len() && self.livepatch@[i].0@ == module
                && self.livepatch@[i].1
    }

    /// Lifecycle state of the patch module named `module`: absent means
    /// `NotApplied`, disabled `Deactived`, enabled `Actived`.
    pub open spec fn spec_status(&self, module: Seq<u8>) -> PatchStatus {
        if !self.spec_module_present(module) {
            PatchStatus::NotApplied
        } else if self.spec_module_enabled(module) {
            PatchStatus::Actived
        } else {
            PatchStatus::Deactived
        }
    }

    /// The patch `uuid` covers symbol `sym` of module `module`.
    pub open spec fn covers_in(&self, module: Seq<u8>, uuid: Seq<char>, sym: Seq<u8>) -> bool {
        exists|t: int|
            0 <= t < self.target_map@.len() && self.target_map@[t].0@ == module
                && self.target_map@[t].1.covers(uuid, sym)
    }

    /// Activating `p` would conflict with the registered patch `u`:
    /// `u` already covers one of `p`'s symbols.
    pub open spec fn spec_conflicts_with(&self, p: &Patch, u: Seq<char>) -> bool {
        exists|i: int|
            0 <= i < p.spec_kernel_ext().symbols@.len() && self.covers_in(
                p.spec_kernel_ext().symbols@[i].target@,
                u,
                p.spec_kernel_ext().symbols@[i].name@,
            )
    }

    /// Deactivating `p` would reveal the registered patch `u`: some
    /// other patch covers one of `p`'s symbols.
    pub open spec fn spec_overridden_by(&self, p: &Patch, u: Seq<char>) -> bool {
        u != p.uuid@ && self.spec_conflicts_with(p, u)
    }

    /// An empty driver: nothing registered, no module inserted.
    pub fn new() -> (r: KernelPatchDriver)
        ensures
            r.wf(),
            r.target_map@.len() == 0,
            r.livepatch@.len() == 0,
    {
        KernelPatchDriver { target_map: Vec::new(), livepatch: Vec::new() }
    }

    fn find_target(&self, module: &[u8]) -> (r: Option<usize>)
        ensures
            match r {
                Some(i) => 0 <= i < self.target_map@.len() && self.target_map@[i as int].0@
                    == module@,
                None => forall|i: int|
                    0 <= i < self.target_map@.len() ==> self.target_map@[i].0@ != module@,
            },
    {
        let n = self.target_map.len();
        let mut i: usize = 0;
        while i < n
            invariant
                n == self.target_map@.len(),
                0 <= i <= n,
                forall|j: int| 0 <= j < i ==> self.target_map@[j].0@ != module@,
            decreases n - i,
        {
            if bytes_eq(self.target_map[i].0.as_slice(), module) {
                return Some(i);
            }
            i = i + 1;
        }
        None
    }

    fn find_livepatch(&self, module: &[u8]) -> (r: Option<usize>)
        ensures
            match r {
                Some(i) => 0 <= i < self.livepatch@.len() && self.livepatch@[i as int].0@
                    == module@,
                None => forall|i: int|
                    0 <= i < self.livepatch@.len() ==> self.livepatch@[i].0@ != module@,
            },
    {
        let n = self.livepatch.len();
        let mut i: usize = 0;
        while i < n
            invariant
                n == self.livepatch@.len(),
                0 <= i <= n,
                forall|j: int| 0 <= j < i ==> self.livepatch@[j].0@ != module@,
            decreases n - i,
        {
            if bytes_eq(self.livepatch[i].0.as_slice(), module) {
                return Some(i);
            }
            i = i + 1;
        }
        None
    }

    /// The uuids of registered patches covering one of `patch`'s
    /// symbols, without duplicates, leaving out `excl`.
    fn hit_list(&self, patch: &Patch, excl: Option<&String>) -> (r: Vec<String>)
        requires
            self.wf(),
            patch.spec_kind() == PatchType::KernelPatch,
        ensures
            forall|k: int|
                0 <= k < r.deep_view().len() ==> self.spec_conflicts_with(
                    patch,
                    #[trigger] r.deep_view()[k],
                ) && (match excl {
                    Some(e) => r.deep_view()[k] != e@,
                    None => true,
                }),
            forall|u: Seq<char>|
                self.spec_conflicts_with(patch, u) && (match excl {
                    Some(e) => u != e@,
                    None => true,
                }) ==> r.deep_view().contains(u),
            forall|a: int, b: int|
                0 <= a < b < r.deep_view().len() ==> r.deep_view()[a] != r.deep_view()[b],
    {
        let ghost spec_excl: Option<Seq<char>> = match excl {
            Some(e) => Some(e@),
            None => None,
        };
        let ext = patch.kernel_ext();
        let mut out: Vec<String> = Vec::new();
        let n = ext.symbols.len();
        let mut i: usize = 0;
        while i < n
            invariant
                self.wf(),
                patch.spec_kind() == PatchType::KernelPatch,
                *ext == patch.spec_kernel_ext(),
                n == ext.symbols@.len(),
                0 <= i <= n,
                spec_excl == (match excl {
                    Some(e) => Some(e@),
                    None => None,
                }),
                forall|k: int|
                    0 <= k < out.deep_view().len() ==> self.spec_conflicts_with(
                        patch,
                        #[trigger] out.deep_view()[k],
                    ) && (match spec_excl {
                        Some(e) => out.deep_view()[k] != e,
                        None => true,
                    }),
                forall|u: Seq<char>|
                    (exists|j: int|
                        0 <= j < i && self.covers_in(
                            ext.symbols@[j].target@,
                            u,
                            ext.symbols@[j].name@,
                        )) && (match spec_excl {
                        Some(e) => u != e,
                        None => true,
                    }) ==> out.deep_view().contains(u),
                forall|a: int, b: int|
                    0 <= a < b < out.deep_view().len() ==> out.deep_view()[a] != out.deep_view()[b],
            decreases n - i,
        {
            match self.find_target(ext.symbols[i].target.as_slice()) {
                Some(t) => {
                    let hits = self.target_map[t].1.covering_uuids(&ext.symbols[i].name, excl);
                    let m = hits.len();
                    let mut h: usize = 0;
                    while h < m
                        invariant
                            self.wf(),
                            patch.spec_kind() == PatchType::KernelPatch,
                            *ext == patch.spec_kernel_ext(),
                            0 <= i < ext.symbols@.len(),
                            0 <= t < self.target_map@.len(),
                            self.target_map@[t as int].0@ == ext.symbols@[i as int].target@,
                            m == hits@.len(),
                            0 <= h <= m,
                            spec_excl == (match excl {
                                Some(e) => Some(e@),
                                None => None,
                            }),
                            forall|k: int|
                                0 <= k < hits.deep_view().len() ==> self.target_map@[t as int].1.covers(
                                    #[trigger] hits.deep_view()[k],
                                    ext.symbols@[i as int].name@,
                                ) && (match spec_excl {
                                    Some(e) => hits.deep_view()[k] != e,
                                    None => true,
                                }),
                            forall|u: Seq<char>|
                                self.target_map@[t as int].1.covers(
                                    u,
                                    ext.symbols@[i as int].name@,
                                ) && (match spec_excl {
                                    Some(e) => u != e,
                                    None => true,
                                }) ==> hits.deep_view().contains(u),
                            forall|k: int|
                                0 <= k < out.deep_view().len() ==> self.spec_conflicts_with(
                                    patch,
                                    #[trigger] out.deep_view()[k],
                                ) && (match spec_excl {
                                    Some(e) => out.deep_view()[k] != e,
                                    None => true,
                                }),
                            forall|u: Seq<char>|
                                (exists|j: int|
                                    0 <= j < i && self.covers_in(
                                        ext.symbols@[j].target@,
                                        u,
                                        ext.symbols@[j].name@,
                                    )) && (match spec_excl {
                                    Some(e) => u != e,
                                    None => true,
                                }) ==> out.deep_view().contains(u),
                            forall|k: int|
                                0 <= k < h ==> out.deep_view().contains(
                                    #[trigger] hits.deep_view()[k],
                                ),
                            forall|a: int, b: int|
                                0 <= a < b < out.deep_view().len() ==> out.deep_view()[a]
                                    != out.deep_view()[b],
                        decreases m - h,
                    {
                        let ghost prev = out.deep_view();
                        proof {
                            lemma_string_vec_deep_view(&hits);
                            assert(hits.deep_view()[h as int] == hits@[h as int]@);
                        }
                        if !string_vec_contains(&out, &hits[h]) {
                            out.push(hits[h].clone());
                            proof {
                                lemma_string_vec_deep_view(&out);
                                assert(out.deep_view() =~= prev.push(hits@[h as int]@));
                                assert(self.target_map@[t as int].1.covers(
                                    hits.deep_view()[h as int],
                                    ext.symbols@[i as int].name@,
                                ));
                                assert(self.covers_in(
                                    ext.symbols@[i as int].target@,
                                    hits@[h as int]@,
                                    ext.symbols@[i as int].name@,
                                ));
                                assert(self.spec_conflicts_with(patch, hits@[h as int]@));
                                assert forall|u: Seq<char>| prev.contains(u) implies out.deep_view()
                                    .contains(u) by {
                                    let k = choose|k: int| 0 <= k < prev.len() && prev[k] == u;
                                    assert(out.deep_view()[k] == u);
                                }
                                assert(out.deep_view()[prev.len() as int] == hits@[h as int]@);
                                assert forall|u: Seq<char>|
                                    (exists|j: int|
                                        0 <= j < i && self.covers_in(
                                            ext.symbols@[j].target@,
                                            u,
                                            ext.symbols@[j].name@,
                                        )) && (match spec_excl {
                                        Some(e) => u != e,
                                        None => true,
                                    }) implies out.deep_view().contains(u) by {
                                    assert(prev.contains(u));
                                }
                                assert forall|k: int|
                                    0 <= k < h + 1 implies out.deep_view().contains(
                                    #[trigger] hits.deep_view()[k],
                                ) by {
                                    if k < h {
                                        assert(prev.contains(hits.deep_view()[k]));
                                    } else {
                                        assert(out.deep_view()[prev.len() as int]
                                            == hits.deep_view()[k]);
                                    }
                                }
                            }
                        } else {
                            proof {
                                assert(out.deep_view().contains(hits.deep_view()[h as int]));
                            }
                        }
                        h = h + 1;
                    }
                    proof {
                        assert forall|u: Seq<char>|
                            (exists|j: int|
                                0 <= j < i + 1 && self.covers_in(
                                    ext.symbols@[j].target@,
                                    u,
                                    ext.symbols@[j].name@,
                                )) && (match spec_excl {
                                Some(e) => u != e,
                                None => true,
                            }) implies out.deep_view().contains(u) by {
                            let j = choose|j: int|
                                0 <= j < i + 1 && self.covers_in(
                                    ext.symbols@[j].target@,
                                    u,
                                    ext.symbols@[j].name@,
                                );
                            if j == i {
                                let tt = choose|tt: int|
                                    0 <= tt < self.target_map@.len() && self.target_map@[tt].0@
                                        == ext.symbols@[i as int].target@ && self.target_map@[tt].1.covers(
                                        u,
                                        ext.symbols@[i as int].name@,
                                    );
                                assert(tt == t);
                                assert(hits.deep_view().contains(u));
                                let k = choose|k: int|
                                    0 <= k < hits.deep_view().len() && hits.deep_view()[k] == u;
                                assert(out.deep_view().contains(hits.deep_view()[k]));
                            }
                        }
                    }
                },
                None => {
                    proof {
                        assert forall|u: Seq<char>|
                            (exists|j: int|
                                0 <= j < i + 1 && self.covers_in(
                                    ext.symbols@[j].target@,
                                    u,
                                    ext.symbols@[j].name@,
                                )) && (match spec_excl {
                                Some(e) => u != e,
                                None => true,
                            }) implies out.deep_view().contains(u) by {
                            let j = choose|j: int|
                                0 <= j < i + 1 && self.covers_in(
                                    ext.symbols@[j].target@,
                                    u,
                                    ext.symbols@[j].name@,
                                );
                            if j == i {
                                let tt = choose|tt: int|
                                    0 <= tt < self.target_map@.len() && self.target_map@[tt].0@
                                        == ext.symbols@[i as int].target@ && self.target_map@[tt].1.covers(
                                        u,
                                        ext.symbols@[i as int].name@,
                                    );
                                assert(false);
                            }
                        }
                    }
                },
            }
            i = i + 1;
        }
        proof {
            assert forall|u: Seq<char>|
                self.spec_conflicts_with(patch, u) && (match spec_excl {
                    Some(e) => u != e,
                    None => true,
                }) implies out.deep_view().contains(u) by {}
        }
        out
    }

    /// A sound, complete and duplicate-free account of the patches
    /// conflicting with `p` (overriding it, when `excl` names `p`).
    pub open spec fn spec_hit_list_ok(
        &self,
        p: &Patch,
        excl: Option<Seq<char>>,
        l: Seq<Seq<char>>,
    ) -> bool {
        &&& forall|k: int|
            0 <= k < l.len() ==> self.spec_conflicts_with(p, #[trigger] l[k]) && (match excl {
                Some(e) => l[k] != e,
                None => true,
            })
        &&& forall|u: Seq<char>|
            self.spec_conflicts_with(p, u) && (match excl {
                Some(e) => u != e,
                None => true,
            }) ==> l.contains(u)
        &&& forall|a: int, b: int| 0 <= a < b < l.len() ==> l[a] != l[b]
    }

    /// Fails with `Conflict` when a registered patch already covers one
    /// of `patch`'s symbols; the message lists each such patch once.
    pub fn check_conflict_symbols(&self, patch: &Patch) -> (r: Result<(), PatchError>)
        requires
            self.wf(),
            patch.spec_kind() == PatchType::KernelPatch,
        ensures
            match r {
                Ok(()) => forall|u: Seq<char>| !self.spec_conflicts_with(patch, u),
                Err(e) => e.kind == ErrorKind::Conflict && (exists|u: Seq<char>|
                    self.spec_conflicts_with(patch, u)) && exists|l: Seq<Seq<char>>|
                    self.spec_hit_list_ok(patch, None, l) && e.message@ == spec_uuid_list_message(
                        "Patch is conflicted with"@,
                        l,
                    ),
            },
    {
        let hits = self.hit_list(patch, None);
        if hits.len() == 0 {
            proof {
                assert forall|u: Seq<char>| !self.spec_conflicts_with(patch, u) by {
                    if self.spec_conflicts_with(patch, u) {
                        assert(hits.deep_view().contains(u));
                    }
                }
            }
            Ok(())
        } else {
            proof {
                lemma_string_vec_deep_view(&hits);
                assert(self.spec_conflicts_with(patch, hits.deep_view()[0]));
            }
            let msg = uuid_list_message("Patch is conflicted with", &hits);
            Err(PatchError::new(ErrorKind::Conflict, msg))
        }
    }

    /// Fails with `Override` when another registered patch covers one of
    /// `patch`'s symbols: deactivation would reveal it inconsistently.
    pub fn check_override_symbols(&self, patch: &Patch) -> (r: Result<(), PatchError>)
        requires
            self.wf(),
            patch.spec_kind() == PatchType::KernelPatch,
        ensures
            match r {
                Ok(()) => forall|u: Seq<char>| !self.spec_overridden_by(patch, u),
                Err(e) => e.kind == ErrorKind::Override && (exists|u: Seq<char>|
                    self.spec_overridden_by(patch, u)) && exists|l: Seq<Seq<char>>|
                    self.spec_hit_list_ok(patch, Some(patch.uuid@), l) && e.message@
                        == spec_uuid_list_message("Patch is overrided by"@, l),
            },
    {
        let hits = self.hit_list(patch, Some(&patch.uuid));
        if hits.len() == 0 {
            proof {
                assert forall|u: Seq<char>| !self.spec_overridden_by(patch, u) by {
                    if self.spec_overridden_by(patch, u) {
                        assert(hits.deep_view().contains(u));
                    }
                }
            }
            Ok(())
        } else {
            proof {
                lemma_string_vec_deep_view(&hits);
                assert(self.spec_overridden_by(patch, hits.deep_view()[0]));
            }
            let msg = uuid_list_message("Patch is overrided by", &hits);
            Err(PatchError::new(ErrorKind::Override, msg))
        }
    }

    /// Verifies that `patch` may be loaded: target kernel
    /// compatibility, artefact consistency, presence of every target
    /// module, and, unless forced, absence of conflicts.
    pub fn check(&self, env: &DriverEnv, patch: &Patch, flag: PatchOpFlag) -> (r: Result<
        (),
        PatchError,
    >)
        requires
            self.wf(),
            patch.spec_kind() == PatchType::KernelPatch,
        ensures
            ({
                let lookup = spec_digest_lookup(env.digests@, patch.spec_kernel_ext().patch_file@);
                if !spec_compat_ok(env, patch) {
                    r matches Err(e) && e.kind == ErrorKind::Incompatible
                } else if lookup is None {
                    r matches Err(e) && e.kind == ErrorKind::Io
                } else if lookup != Some(patch.checksum@) {
                    r matches Err(e) && e.kind == ErrorKind::ConsistencyFailure
                } else if !spec_dep_ok(env, patch) {
                    r matches Err(e) && e.kind == ErrorKind::Incompatible
                } else if flag != PatchOpFlag::Force && (exists|u: Seq<char>|
                self.spec_conflicts_with(patch, u)) {
                    r matches Err(e) && e.kind == ErrorKind::Conflict
                } else {
                    r is Ok
                }
            }),
    {
        let pkg_bytes = patch.target_pkg_name.as_str().as_bytes();
        let prefix_bytes = "kernel-".as_bytes();
        if bytes_starts_with(pkg_bytes, prefix_bytes) {
            let expected = String::from_str("kernel-").concat(env.kernel_release.as_str());
            if !patch.target_pkg_name.eq(&expected) {
                return Err(
                    PatchError::of(
                        ErrorKind::Incompatible,
                        "Current kernel is incompatible with patch target",
                    ),
                );
            }
        }
        let ext = patch.kernel_ext();
        match env.digest_of(ext.patch_file.as_slice()) {
            None => {
                return Err(PatchError::of(ErrorKind::Io, "Cannot read patch file digest"));
            },
            Some(d) => {
                if !d.eq(&patch.checksum) {
                    return Err(
                        PatchError::of(
                            ErrorKind::ConsistencyFailure,
                            "Patch consistency check failed",
                        ),
                    );
                }
                assert(spec_digest_lookup(env.digests@, patch.spec_kernel_ext().patch_file@)
                    == Some(patch.checksum@));
            },
        }
        let vmlinux_bytes = "vmlinux".as_bytes();
        let n = ext.symbols.len();
        let mut i: usize = 0;
        while i < n
            invariant
                *ext == patch.spec_kernel_ext(),
                n == ext.symbols@.len(),
                0 <= i <= n,
                vmlinux_bytes@ == spec_vmlinux(),
                spec_compat_ok(env, patch),
                spec_digest_lookup(env.digests@, patch.spec_kernel_ext().patch_file@) == Some(
                    patch.checksum@,
                ),
                forall|j: int|
                    0 <= j < i ==> ((#[trigger] ext.symbols@[j]).target@ == spec_vmlinux()
                        || env.loaded_modules.deep_view().contains(ext.symbols@[j].target@)),
            decreases n - i,
        {
            let target = &ext.symbols[i].target;
            if !bytes_eq(target.as_slice(), vmlinux_bytes) && !env.module_loaded(target.as_slice())
            {
                proof {
                    let symbols = patch.spec_kernel_ext().symbols@;
                    assert(symbols[i as int].target@ != spec_vmlinux()
                        && !env.loaded_modules.deep_view().contains(symbols[i as int].target@));
                    assert(!spec_dep_ok(env, patch));
                }
                return Err(PatchError::of(ErrorKind::Incompatible, "Patch target does not exist"));
            }
            i = i + 1;
        }
        if flag != PatchOpFlag::Force {
            match self.check_conflict_symbols(patch) {
                Err(e) => {
                    return Err(e);
                },
                Ok(()) => {},
            }
        }
        Ok(())
    }

    /// Lifecycle state the driver's model answers for `module`, falling
    /// back to the observed sysfs state for a module it has not seen.
    pub open spec fn spec_resolved_status(&self, env: &DriverEnv, module: Seq<u8>) -> PatchStatus {
        if self.spec_module_present(module) {
            self.spec_status(module)
        } else {
            match crate::world::spec_sysfs_lookup(env.sysfs_states@, module) {
                Some(enabled) => if enabled {
                    PatchStatus::Actived
                } else {
                    PatchStatus::Deactived
                },
                None => PatchStatus::NotApplied,
            }
        }
    }

    /// Resolves the state of `patch`, adopting the observed sysfs state
    /// into the model when the module was unknown to it, so that later
    /// transitions act on what is really loaded.
    pub fn resolve_status(&mut self, env: &DriverEnv, patch: &Patch) -> (r: PatchStatus)
        requires
            old(self).wf(),
            patch.spec_kind() == PatchType::KernelPatch,
        ensures
            final(self).wf(),
            r == old(self).spec_resolved_status(env, patch.spec_kernel_ext().module_name@),
            r != PatchStatus::Unknown,
            final(self).spec_status(patch.spec_kernel_ext().module_name@) == r,
            final(self).target_map@ == old(self).target_map@,
            forall|m: Seq<u8>|
                m != patch.spec_kernel_ext().module_name@ ==> (final(self).spec_module_present(m)
                    == old(self).spec_module_present(m) && final(self).spec_module_enabled(m)
                    == old(self).spec_module_enabled(m)),
            old(self).spec_module_present(patch.spec_kernel_ext().module_name@) ==> final(self).livepatch@ == old(self).livepatch@,
    {
        let ext = patch.kernel_ext();
        match self.find_livepatch(ext.module_name.as_slice()) {
            Some(i) => {
                if self.livepatch[i].1 {
                    PatchStatus::Actived
                } else {
                    proof {
                        if self.spec_module_enabled(ext.module_name@) {
                            let j = choose|j: int|
                                0 <= j < self.livepatch@.len() && self.livepatch@[j].0@
                                    == ext.module_name@ && self.livepatch@[j].1;
                            assert(j == i);
                        }
                    }
                    PatchStatus::Deactived
                }
            },
            None => {
                match env.sysfs_state_of(ext.module_name.as_slice()) {
                    None => PatchStatus::NotApplied,
                    Some(enabled) => {
                        let ghost before = *self;
                        let name = crate::bytestr::copy_bytes(&ext.module_name);
                        self.livepatch.push((name, enabled));
                        proof {
                            let module = patch.spec_kernel_ext().module_name@;
                            assert(self.livepatch@.last().0@ == module);
                            assert(self.spec_module_present(module));
                            assert forall|m: Seq<u8>| m != module implies (
                            self.spec_module_present(m) == before.spec_module_present(m)
                                && self.spec_module_enabled(m) == before.spec_module_enabled(
                                m,
                            )) by {
                                if self.spec_module_present(m) {
                                    let z = choose|z: int|
                                        0 <= z < self.livepatch@.len() && self.livepatch@[z].0@
                                            == m;
                                    assert(z < before.livepatch@.len());
                                    assert(before.livepatch@[z].0@ == m);
                                }
                                if before.spec_module_present(m) {
                                    let z = choose|z: int|
                                        0 <= z < before.livepatch@.len() && before.livepatch@[z].0@
                                            == m;
                                    assert(self.livepatch@[z].0@ == m);
                                }
                                if self.spec_module_enabled(m) {
                                    let z = choose|z: int|
                                        0 <= z < self.livepatch@.len() && self.livepatch@[z].0@
                                            == m && self.livepatch@[z].1;
                                    assert(before.livepatch@[z].0@ == m && before.livepatch@[z].1);
                                }
                                if before.spec_module_enabled(m) {
                                    let z = choose|z: int|
                                        0 <= z < before.livepatch@.len() && before.livepatch@[z].0@
                                            == m && before.livepatch@[z].1;
                                    assert(self.livepatch@[z].0@ == m && self.livepatch@[z].1);
                                }
                            }
                            if enabled {
                                assert(self.spec_module_enabled(module)) by {
                                    assert(self.livepatch@.last().1);
                                }
                            } else {
                                if self.spec_module_enabled(module) {
                                    let z = choose|z: int|
                                        0 <= z < self.livepatch@.len() && self.livepatch@[z].0@
                                            == module && self.livepatch@[z].1;
                                    if z < before.livepatch@.len() {
                                        assert(before.livepatch@[z].0@ == module);
                                        assert(false);
                                    } else {
                                        assert(!self.livepatch@[z].1);
                                    }
                                }
                            }
                        }
                        if enabled {
                            PatchStatus::Actived
                        } else {
                            PatchStatus::Deactived
                        }
                    },
                }
            },
        }
    }

    /// Lifecycle state of `patch`, read from the livepatch model.
    pub fn status(&self, patch: &Patch) -> (r: PatchStatus)
        requires
            self.wf(),
            patch.spec_kind() == PatchType::KernelPatch,
        ensures
            r == self.spec_status(patch.spec_kernel_ext().module_name@),
    {
        let module = &patch.kernel_ext().module_name;
        match self.find_livepatch(module.as_slice()) {
            Some(i) => {
                if self.livepatch[i].1 {
                    PatchStatus::Actived
                } else {
                    proof {
                        if self.spec_module_enabled(module@) {
                            let j = choose|j: int|
                                0 <= j < self.livepatch@.len() && self.livepatch@[j].0@ == module@
                                    && self.livepatch@[j].1;
                            assert(j == i);
                        }
                    }
                    PatchStatus::Deactived
                }
            },
            None => PatchStatus::NotApplied,
        }
    }

    /// Registers every symbol of `patch` under its uuid, classified by
    /// target module.
    fn add_patch_symbols(&mut self, patch: &Patch)
        requires
            old(self).wf(),
            patch.spec_kind() == PatchType::KernelPatch,
        ensures
            final(self).wf(),
            final(self).livepatch@ == old(self).livepatch@,
            forall|m: Seq<u8>, u: Seq<char>, s: Seq<u8>|
                final(self).covers_in(m, u, s) <==> (old(self).covers_in(m, u, s) || (u
                    == patch.uuid@ && patch.spec_kernel_ext().spec_covers(m, s))),
    {
        let ext = patch.kernel_ext();
        let modules = ext.target_modules();
        let n = modules.len();
        let mut k: usize = 0;
        proof {
            crate::bytestr::lemma_bytes_deep_view(&modules);
        }
        while k < n
            invariant
                self.wf(),
                patch.spec_kind() == PatchType::KernelPatch,
                *ext == patch.spec_kernel_ext(),
                n == modules@.len(),
                0 <= k <= n,
                modules.deep_view().len() == modules@.len(),
                forall|j: int| 0 <= j < modules@.len() ==> modules.deep_view()[j] == modules@[j]@,
                forall|m: Seq<u8>|
                    #[trigger] modules.deep_view().contains(m) <==> exists|i: int|
                        0 <= i < ext.symbols@.len() && ext.symbols@[i].target@ == m,
                forall|a: int, b: int|
                    0 <= a < b < modules.deep_view().len() ==> modules.deep_view()[a]
                        != modules.deep_view()[b],
                self.livepatch@ == old(self).livepatch@,
                forall|m: Seq<u8>, u: Seq<char>, s: Seq<u8>|
                    self.covers_in(m, u, s) <==> (old(self).covers_in(m, u, s) || (u
                        == patch.uuid@ && exists|j: int|
                        0 <= j < k && modules@[j]@ == m && patch.spec_kernel_ext().spec_covers(
                            m,
                            s,
                        ))),
            decreases n - k,
        {
            let ghost before = *self;
            let module = &modules[k];
            let t = match self.find_target(module.as_slice()) {
                Some(t) => t,
                None => {
                    let t = self.target_map.len();
                    let fresh = crate::bytestr::copy_bytes(module);
                    self.target_map.push((fresh, PatchTarget::new()));
                    proof {
                        assert forall|m: Seq<u8>, u: Seq<char>, s: Seq<u8>|
                            self.covers_in(m, u, s) == before.covers_in(m, u, s) by {
                            if before.covers_in(m, u, s) {
                                let tt = choose|tt: int|
                                    0 <= tt < before.target_map@.len() && before.target_map@[tt].0@
                                        == m && before.target_map@[tt].1.covers(u, s);
                                assert(self.target_map@[tt].0@ == m
                                    && self.target_map@[tt].1.covers(u, s));
                            }
                            if self.covers_in(m, u, s) {
                                let tt = choose|tt: int|
                                    0 <= tt < self.target_map@.len() && self.target_map@[tt].0@
                                        == m && self.target_map@[tt].1.covers(u, s);
                                if tt < before.target_map@.len() {
                                    assert(before.target_map@[tt].0@ == m
                                        && before.target_map@[tt].1.covers(u, s));
                                } else {
                                    assert(false);
                                }
                            }
                        }
                    }
                    t
                },
            };
            let ghost mid = *self;
            let syms = ext.symbols_for(module.as_slice());
            let entry = &mut self.target_map[t];
            entry.1.add_symbols(&patch.uuid, &syms);
            proof {
                crate::bytestr::lemma_bytes_deep_view(&syms);
                assert(self.target_map@.len() == mid.target_map@.len());
                assert forall|tt: int|
                    0 <= tt < self.target_map@.len() implies self.target_map@[tt].0@
                    == mid.target_map@[tt].0@ by {}
                assert forall|tt: int| 0 <= tt < self.target_map@.len() && tt != t implies
                    self.target_map@[tt] == mid.target_map@[tt] by {}
                assert forall|m: Seq<u8>, u: Seq<char>, s: Seq<u8>|
                    self.covers_in(m, u, s) <==> (mid.covers_in(m, u, s) || (u == patch.uuid@ && m
                        == modules@[k as int]@ && patch.spec_kernel_ext().spec_covers(m, s))) by {
                    if mid.covers_in(m, u, s) {
                        let tt = choose|tt: int|
                            0 <= tt < mid.target_map@.len() && mid.target_map@[tt].0@ == m
                                && mid.target_map@[tt].1.covers(u, s);
                        if tt != t {
                            assert(self.target_map@[tt].0@ == m
                                && self.target_map@[tt].1.covers(u, s));
                        } else {
                            assert(self.target_map@[t as int].1.covers(u, s));
                        }
                        assert(self.covers_in(m, u, s));
                    }
                    if u == patch.uuid@ && m == modules@[k as int]@
                        && patch.spec_kernel_ext().spec_covers(m, s) {
                        assert(syms.deep_view().contains(s));
                        let z = choose|z: int|
                            0 <= z < syms.deep_view().len() && syms.deep_view()[z] == s;
                        assert(syms@[z]@ == s);
                        assert(self.target_map@[t as int].1.covers(u, s));
                        assert(self.target_map@[t as int].0@ == m);
                        assert(self.covers_in(m, u, s));
                    }
                    if self.covers_in(m, u, s) {
                        let tt = choose|tt: int|
                            0 <= tt < self.target_map@.len() && self.target_map@[tt].0@ == m
                                && self.target_map@[tt].1.covers(u, s);
                        if tt != t {
                            assert(mid.target_map@[tt].0@ == m
                                && mid.target_map@[tt].1.covers(u, s));
                        } else {
                            assert(m == mid.target_map@[t as int].0@);
                            if mid.target_map@[t as int].1.covers(u, s) {
                                assert(mid.covers_in(m, u, s));
                            } else {
                                assert(u == patch.uuid@ && exists|z: int|
                                    0 <= z < syms@.len() && syms@[z]@ == s);
                                let z = choose|z: int| 0 <= z < syms@.len() && syms@[z]@ == s;
                                assert(syms.deep_view()[z] == s);
                                assert(syms.deep_view().contains(s));
                                assert(patch.spec_kernel_ext().spec_covers(m, s));
                            }
                        }
                    }
                }
                assert forall|m: Seq<u8>, u: Seq<char>, s: Seq<u8>|
                    mid.covers_in(m, u, s) == before.covers_in(m, u, s) by {}
                assert forall|m: Seq<u8>, u: Seq<char>, s: Seq<u8>|
                    self.covers_in(m, u, s) <==> (old(self).covers_in(m, u, s) || (u
                        == patch.uuid@ && exists|j: int|
                        0 <= j < k + 1 && modules@[j]@ == m && patch.spec_kernel_ext().spec_covers(
                            m,
                            s,
                        ))) by {
                    if self.covers_in(m, u, s) {
                        if !old(self).covers_in(m, u, s) {
                            if mid.covers_in(m, u, s) {
                                let j = choose|j: int|
                                    0 <= j < k && modules@[j]@ == m
                                        && patch.spec_kernel_ext().spec_covers(m, s);
                                assert(0 <= j < k + 1 && modules@[j]@ == m
                                    && patch.spec_kernel_ext().spec_covers(m, s));
                            } else {
                                assert(m == modules@[k as int]@
                                    && patch.spec_kernel_ext().spec_covers(m, s));
                            }
                        }
                    }
                    if !self.covers_in(m, u, s) && (old(self).covers_in(m, u, s) || (u
                        == patch.uuid@ && exists|j: int|
                        0 <= j < k + 1 && modules@[j]@ == m && patch.spec_kernel_ext().spec_covers(
                            m,
                            s,
                        ))) {
                        if old(self).covers_in(m, u, s) {
                            assert(mid.covers_in(m, u, s));
                            assert(false);
                        } else {
                            let j = choose|j: int|
                                0 <= j < k + 1 && modules@[j]@ == m
                                    && patch.spec_kernel_ext().spec_covers(m, s);
                            if j < k {
                                assert(mid.covers_in(m, u, s));
                            }
                            assert(false);
                        }
                    }
                }
            }
            k = k + 1;
        }
        proof {
            assert forall|m: Seq<u8>, u: Seq<char>, s: Seq<u8>|
                final(self).covers_in(m, u, s) <==> (old(self).covers_in(m, u, s) || (u
                    == patch.uuid@ && patch.spec_kernel_ext().spec_covers(m, s))) by {
                if u == patch.uuid@ && patch.spec_kernel_ext().spec_covers(m, s) {
                    let i = choose|i: int|
                        0 <= i < patch.spec_kernel_ext().symbols@.len()
                            && patch.spec_kernel_ext().symbols@[i].target@ == m
                            && patch.spec_kernel_ext().symbols@[i].name@ == s;
                    assert(modules.deep_view().contains(m));
                    let j = choose|j: int|
                        0 <= j < modules.deep_view().len() && modules.deep_view()[j] == m;
                    assert(modules@[j]@ == m);
                }
            }
        }
    }

    /// Deletes every symbol registered under `patch`'s uuid, in every
    /// module registry.
    fn remove_patch_symbols(&mut self, patch: &Patch)
        requires
            old(self).wf(),
        ensures
            final(self).wf(),
            final(self).livepatch@ == old(self).livepatch@,
            forall|m: Seq<u8>, u: Seq<char>, s: Seq<u8>|
                final(self).covers_in(m, u, s) <==> (old(self).covers_in(m, u, s) && u
                    != patch.uuid@),
    {
        let n = self.target_map.len();
        let mut t: usize = 0;
        while t < n
            invariant
                self.wf(),
                n == self.target_map@.len(),
                0 <= t <= n,
                self.livepatch@ == old(self).livepatch@,
                self.target_map@.len() == old(self).target_map@.len(),
                forall|i: int|
                    0 <= i < self.target_map@.len() ==> self.target_map@[i].0@ == old(self).target_map@[i].0@,
                forall|i: int|
                    t <= i < self.target_map@.len() ==> self.target_map@[i] == old(self).target_map@[i],
                forall|i: int, u: Seq<char>, s: Seq<u8>|
                    0 <= i < t ==> ((#[trigger] self.target_map@[i].1.covers(u, s)) <==> (old(self).target_map@[i].1.covers(u, s) && u != patch.uuid@)),
            decreases n - t,
        {
            let ghost mid = *self;
            let entry = &mut self.target_map[t];
            entry.1.remove_patch(&patch.uuid);
            proof {
                assert forall|i: int|
                    0 <= i < self.target_map@.len() && i != t implies self.target_map@[i]
                    == mid.target_map@[i] by {}
            }
            t = t + 1;
        }
        proof {
            assert forall|m: Seq<u8>, u: Seq<char>, s: Seq<u8>|
                final(self).covers_in(m, u, s) <==> (old(self).covers_in(m, u, s) && u
                    != patch.uuid@) by {
                if final(self).covers_in(m, u, s) {
                    let tt = choose|tt: int|
                        0 <= tt < self.target_map@.len() && self.target_map@[tt].0@ == m
                            && self.target_map@[tt].1.covers(u, s);
                    assert(old(self).target_map@[tt].1.covers(u, s) && u != patch.uuid@);
                    assert(old(self).covers_in(m, u, s));
                }
                if old(self).covers_in(m, u, s) && u != patch.uuid@ {
                    let tt = choose|tt: int|
                        0 <= tt < old(self).target_map@.len() && old(self).target_map@[tt].0@ == m
                            && old(self).target_map@[tt].1.covers(u, s);
                    assert(self.target_map@[tt].1.covers(u, s));
                    assert(self.target_map@[tt].0@ == m);
                }
            }
        }
    }

    /// Loads `patch`'s module.  On the loader's success the module
    /// appears disabled in the livepatch model; symbols stay
    /// unregistered until activation.
    pub fn apply(&mut self, env: &DriverEnv, patch: &Patch) -> (r: Result<(), PatchError>)
        requires
            old(self).wf(),
            patch.spec_kind() == PatchType::KernelPatch,
        ensures
            final(self).wf(),
            final(self).target_map@ == old(self).target_map@,
            forall|m: Seq<u8>|
                m != patch.spec_kernel_ext().module_name@ ==> (final(self).spec_module_present(m)
                    == old(self).spec_module_present(m) && final(self).spec_module_enabled(m)
                    == old(self).spec_module_enabled(m)),
            match r {
                Ok(()) => !old(self).spec_module_present(patch.spec_kernel_ext().module_name@)
                    && !env.insmod_failures.deep_view().contains(
                    patch.spec_kernel_ext().patch_file@,
                ) && final(self).spec_status(patch.spec_kernel_ext().module_name@)
                    == PatchStatus::Deactived,
                Err(e) => e.kind == ErrorKind::DriverFailure && final(self).livepatch@ == old(self).livepatch@ && (old(self).spec_module_present(patch.spec_kernel_ext().module_name@)
                    || env.insmod_failures.deep_view().contains(
                    patch.spec_kernel_ext().patch_file@,
                )),
            },
    {
        let ext = patch.kernel_ext();
        match self.find_livepatch(ext.module_name.as_slice()) {
            Some(_) => Err(
                PatchError::of(ErrorKind::DriverFailure, "Patch module is already inserted"),
            ),
            None => {
                if !env.insmod_ok(ext.patch_file.as_slice()) {
                    return Err(
                        PatchError::of(ErrorKind::DriverFailure, "Failed to insert patch module"),
                    );
                }
                let ghost before = *self;
                let name = crate::bytestr::copy_bytes(&ext.module_name);
                self.livepatch.push((name, false));
                proof {
                    let module = patch.spec_kernel_ext().module_name@;
                    assert(self.livepatch@.last().0@ == module);
                    assert(self.spec_module_present(module));
                    assert forall|m: Seq<u8>| m != module implies (self.spec_module_present(m)
                        == before.spec_module_present(m) && self.spec_module_enabled(m)
                        == before.spec_module_enabled(m)) by {
                        if self.spec_module_present(m) {
                            let i = choose|i: int|
                                0 <= i < self.livepatch@.len() && self.livepatch@[i].0@ == m;
                            assert(i < before.livepatch@.len());
                            assert(before.livepatch@[i].0@ == m);
                        }
                        if before.spec_module_present(m) {
                            let i = choose|i: int|
                                0 <= i < before.livepatch@.len() && before.livepatch@[i].0@ == m;
                            assert(self.livepatch@[i].0@ == m);
                        }
                        if self.spec_module_enabled(m) {
                            let i = choose|i: int|
                                0 <= i < self.livepatch@.len() && self.livepatch@[i].0@ == m
                                    && self.livepatch@[i].1;
                            assert(before.livepatch@[i].0@ == m && before.livepatch@[i].1);
                        }
                        if before.spec_module_enabled(m) {
                            let i = choose|i: int|
                                0 <= i < before.livepatch@.len() && before.livepatch@[i].0@ == m
                                    && before.livepatch@[i].1;
                            assert(self.livepatch@[i].0@ == m && self.livepatch@[i].1);
                        }
                    }
                    if self.spec_module_enabled(module) {
                        let i = choose|i: int|
                            0 <= i < self.livepatch@.len() && self.livepatch@[i].0@ == module
                                && self.livepatch@[i].1;
                        if i < before.livepatch@.len() {
                            assert(before.livepatch@[i].0@ == module);
                            assert(false);
                        } else {
                            assert(!self.livepatch@[i].1);
                        }
                    }
                }
                Ok(())
            },
        }
    }

    /// Unloads `patch`'s module.  On the unloader's success the module
    /// leaves the livepatch model: the patch reads `NotApplied`.
    pub fn remove(&mut self, env: &DriverEnv, patch: &Patch) -> (r: Result<(), PatchError>)
        requires
            old(self).wf(),
            patch.spec_kind() == PatchType::KernelPatch,
        ensures
            final(self).wf(),
            final(self).target_map@ == old(self).target_map@,
            forall|m: Seq<u8>|
                m != patch.spec_kernel_ext().module_name@ ==> (final(self).spec_module_present(m)
                    == old(self).spec_module_present(m) && final(self).spec_module_enabled(m)
                    == old(self).spec_module_enabled(m)),
            match r {
                Ok(()) => old(self).spec_module_present(patch.spec_kernel_ext().module_name@)
                    && !env.rmmod_failures.deep_view().contains(patch.spec_kernel_ext().patch_file@)
                    && final(self).spec_status(patch.spec_kernel_ext().module_name@)
                    == PatchStatus::NotApplied,
                Err(e) => e.kind == ErrorKind::DriverFailure && final(self).livepatch@ == old(self).livepatch@ && (!old(self).spec_module_present(
                    patch.spec_kernel_ext().module_name@,
                ) || env.rmmod_failures.deep_view().contains(patch.spec_kernel_ext().patch_file@)),
            },
    {
        let ext = patch.kernel_ext();
        match self.find_livepatch(ext.module_name.as_slice()) {
            None => Err(PatchError::of(ErrorKind::DriverFailure, "Patch module is not inserted")),
            Some(i) => {
                if !env.rmmod_ok(ext.patch_file.as_slice()) {
                    return Err(
                        PatchError::of(ErrorKind::DriverFailure, "Failed to remove patch module"),
                    );
                }
                let ghost before = *self;
                self.livepatch.remove(i);
                proof {
                    let module = patch.spec_kernel_ext().module_name@;
                    assert forall|m: Seq<u8>| m != module implies (self.spec_module_present(m)
                        == before.spec_module_present(m) && self.spec_module_enabled(m)
                        == before.spec_module_enabled(m)) by {
                        if self.spec_module_present(m) {
                            let z = choose|z: int|
                                0 <= z < self.livepatch@.len() && self.livepatch@[z].0@ == m;
                            let oz = if z < i { z } else { z + 1 };
                            assert(before.livepatch@[oz].0@ == m);
                        }
                        if before.spec_module_present(m) {
                            let oz = choose|oz: int|
                                0 <= oz < before.livepatch@.len() && before.livepatch@[oz].0@ == m;
                            assert(oz != i);
                            let z = if oz < i { oz } else { oz - 1 };
                            assert(self.livepatch@[z].0@ == m);
                        }
                        if self.spec_module_enabled(m) {
                            let z = choose|z: int|
                                0 <= z < self.livepatch@.len() && self.livepatch@[z].0@ == m
                                    && self.livepatch@[z].1;
                            let oz = if z < i { z } else { z + 1 };
                            assert(before.livepatch@[oz].0@ == m && before.livepatch@[oz].1);
                        }
                        if before.spec_module_enabled(m) {
                            let oz = choose|oz: int|
                                0 <= oz < before.livepatch@.len() && before.livepatch@[oz].0@ == m
                                    && before.livepatch@[oz].1;
                            assert(oz != i);
                            let z = if oz < i { oz } else { oz - 1 };
                            assert(self.livepatch@[z].0@ == m && self.livepatch@[z].1);
                        }
                    }
                    if self.spec_module_present(module) {
                        let z = choose|z: int|
                            0 <= z < self.livepatch@.len() && self.livepatch@[z].0@ == module;
                        let oz = if z < i { z } else { z + 1 };
                        assert(before.livepatch@[oz].0@ == module);
                        assert(false);
                    }
                }
                Ok(())
            },
        }
    }

    /// Enables `patch`'s inserted module and registers its symbols.
    pub fn active(&mut self, env: &DriverEnv, patch: &Patch) -> (r: Result<(), PatchError>)
        requires
            old(self).wf(),
            patch.spec_kind() == PatchType::KernelPatch,
        ensures
            final(self).wf(),
            forall|m: Seq<u8>|
                m != patch.spec_kernel_ext().module_name@ ==> (final(self).spec_module_present(m)
                    == old(self).spec_module_present(m) && final(self).spec_module_enabled(m)
                    == old(self).spec_module_enabled(m)),
            match r {
                Ok(()) => old(self).spec_module_present(patch.spec_kernel_ext().module_name@)
                    && !env.sysfs_write_failures.deep_view().contains(
                    patch.spec_kernel_ext().module_name@,
                ) && final(self).spec_status(patch.spec_kernel_ext().module_name@)
                    == PatchStatus::Actived && (forall|m: Seq<u8>, u: Seq<char>, s: Seq<u8>|
                    final(self).covers_in(m, u, s) <==> (old(self).covers_in(m, u, s) || (u
                        == patch.uuid@ && patch.spec_kernel_ext().spec_covers(m, s)))),
                Err(e) => e.kind == ErrorKind::Io && (!old(self).spec_module_present(
                    patch.spec_kernel_ext().module_name@,
                ) || env.sysfs_write_failures.deep_view().contains(
                    patch.spec_kernel_ext().module_name@,
                )) && final(self).livepatch@ == old(self).livepatch@ && final(self).target_map@
                    == old(self).target_map@,
            },
    {
        let ext = patch.kernel_ext();
        if !env.sysfs_write_ok(ext.module_name.as_slice()) {
            return Err(PatchError::of(ErrorKind::Io, "Cannot write patch status file"));
        }
        match self.find_livepatch(ext.module_name.as_slice()) {
            None => Err(PatchError::of(ErrorKind::Io, "Cannot write patch status file")),
            Some(i) => {
                let ghost before = *self;
                let entry = &mut self.livepatch[i];
                entry.1 = true;
                proof {
                    let module = patch.spec_kernel_ext().module_name@;
                    assert(self.livepatch@[i as int].0@ == module && self.livepatch@[i as int].1);
                    assert forall|m: Seq<u8>| m != module implies (self.spec_module_present(m)
                        == before.spec_module_present(m) && self.spec_module_enabled(m)
                        == before.spec_module_enabled(m)) by {
                        assert forall|z: int|
                            0 <= z < self.livepatch@.len() && z != i implies self.livepatch@[z]
                            == before.livepatch@[z] by {}
                        if self.spec_module_present(m) {
                            let z = choose|z: int|
                                0 <= z < self.livepatch@.len() && self.livepatch@[z].0@ == m;
                            assert(before.livepatch@[z].0@ == m);
                        }
                        if before.spec_module_present(m) {
                            let z = choose|z: int|
                                0 <= z < before.livepatch@.len() && before.livepatch@[z].0@ == m;
                            assert(z != i);
                            assert(self.livepatch@[z].0@ == m);
                        }
                        if self.spec_module_enabled(m) {
                            let z = choose|z: int|
                                0 <= z < self.livepatch@.len() && self.livepatch@[z].0@ == m
                                    && self.livepatch@[z].1;
                            assert(z != i);
                            assert(before.livepatch@[z].0@ == m && before.livepatch@[z].1);
                        }
                        if before.spec_module_enabled(m) {
                            let z = choose|z: int|
                                0 <= z < before.livepatch@.len() && before.livepatch@[z].0@ == m
                                    && before.livepatch@[z].1;
                            assert(z != i);
                            assert(self.livepatch@[z].0@ == m && self.livepatch@[z].1);
                        }
                    }
                }
                let ghost mid2 = *self;
                self.add_patch_symbols(patch);
                proof {
                    let module = patch.spec_kernel_ext().module_name@;
                    assert(self.livepatch@ == mid2.livepatch@);
                    assert forall|m: Seq<u8>| #![all_triggers] true implies (
                    self.spec_module_present(m) == mid2.spec_module_present(m)
                        && self.spec_module_enabled(m) == mid2.spec_module_enabled(m)) by {
                        if mid2.spec_module_present(m) {
                            let z = choose|z: int|
                                0 <= z < mid2.livepatch@.len() && mid2.livepatch@[z].0@ == m;
                            assert(self.livepatch@[z].0@ == m);
                        }
                        if self.spec_module_present(m) {
                            let z = choose|z: int|
                                0 <= z < self.livepatch@.len() && self.livepatch@[z].0@ == m;
                            assert(mid2.livepatch@[z].0@ == m);
                        }
                        if mid2.spec_module_enabled(m) {
                            let z = choose|z: int|
                                0 <= z < mid2.livepatch@.len() && mid2.livepatch@[z].0@ == m
                                    && mid2.livepatch@[z].1;
                            assert(self.livepatch@[z].0@ == m && self.livepatch@[z].1);
                        }
                        if self.spec_module_enabled(m) {
                            let z = choose|z: int|
                                0 <= z < self.livepatch@.len() && self.livepatch@[z].0@ == m
                                    && self.livepatch@[z].1;
                            assert(mid2.livepatch@[z].0@ == m && mid2.livepatch@[z].1);
                        }
                    }
                    assert(self.spec_status(module) == PatchStatus::Actived);
                    assert(mid2.target_map@ == before.target_map@);
                    assert forall|m: Seq<u8>, u: Seq<char>, s: Seq<u8>|
                        mid2.covers_in(m, u, s) == before.covers_in(m, u, s) by {
                        if mid2.covers_in(m, u, s) {
                            let t = choose|t: int|
                                0 <= t < mid2.target_map@.len() && mid2.target_map@[t].0@ == m
                                    && mid2.target_map@[t].1.covers(u, s);
                            assert(before.target_map@[t].0@ == m && before.target_map@[t].1.covers(
                                u,
                                s,
                            ));
                        }
                        if before.covers_in(m, u, s) {
                            let t = choose|t: int|
                                0 <= t < before.target_map@.len() && before.target_map@[t].0@ == m
                                    && before.target_map@[t].1.covers(u, s);
                            assert(mid2.target_map@[t].0@ == m && mid2.target_map@[t].1.covers(
                                u,
                                s,
                            ));
                        }
                    }
                }
                Ok(())
            },
        }
    }

    /// Unless forced, refuses when deactivation would reveal another
    /// patch's override; otherwise disables the module and deletes the
    /// patch's symbols from every registry.
    pub fn deactive(&mut self, env: &DriverEnv, patch: &Patch, flag: PatchOpFlag) -> (r: Result<
        (),
        PatchError,
    >)
        requires
            old(self).wf(),
            patch.spec_kind() == PatchType::KernelPatch,
        ensures
            final(self).wf(),
            forall|m: Seq<u8>|
                m != patch.spec_kernel_ext().module_name@ ==> (final(self).spec_module_present(m)
                    == old(self).spec_module_present(m) && final(self).spec_module_enabled(m)
                    == old(self).spec_module_enabled(m)),
            match r {
                Ok(()) => (flag == PatchOpFlag::Force || forall|u: Seq<char>|
                    !old(self).spec_overridden_by(patch, u)) && old(self).spec_module_present(
                    patch.spec_kernel_ext().module_name@,
                ) && !env.sysfs_write_failures.deep_view().contains(
                    patch.spec_kernel_ext().module_name@,
                ) && final(self).spec_status(patch.spec_kernel_ext().module_name@)
                    == PatchStatus::Deactived && (forall|m: Seq<u8>, u: Seq<char>, s: Seq<u8>|
                    final(self).covers_in(m, u, s) <==> (old(self).covers_in(m, u, s) && u
                        != patch.uuid@)),
                Err(e) => final(self).livepatch@ == old(self).livepatch@ && final(self).target_map@
                    == old(self).target_map@ && ((e.kind == ErrorKind::Override && flag
                    != PatchOpFlag::Force && exists|u: Seq<char>|
                    old(self).spec_overridden_by(patch, u)) || (e.kind == ErrorKind::Io && (!old(self).spec_module_present(patch.spec_kernel_ext().module_name@)
                    || env.sysfs_write_failures.deep_view().contains(
                    patch.spec_kernel_ext().module_name@,
                )))),
            },
    {
        if flag != PatchOpFlag::Force {
            match self.check_override_symbols(patch) {
                Err(e) => {
                    return Err(e);
                },
                Ok(()) => {},
            }
        }
        let ext = patch.kernel_ext();
        if !env.sysfs_write_ok(ext.module_name.as_slice()) {
            return Err(PatchError::of(ErrorKind::Io, "Cannot write patch status file"));
        }
        match self.find_livepatch(ext.module_name.as_slice()) {
            None => Err(PatchError::of(ErrorKind::Io, "Cannot write patch status file")),
            Some(i) => {
                let ghost before = *self;
                let entry = &mut self.livepatch[i];
                entry.1 = false;
                proof {
                    let module = patch.spec_kernel_ext().module_name@;
                    assert(self.livepatch@[i as int].0@ == module && !self.livepatch@[i as int].1);
                    assert forall|z: int|
                        0 <= z < self.livepatch@.len() && z != i implies self.livepatch@[z]
                        == before.livepatch@[z] by {}
                    assert forall|m: Seq<u8>| m != module implies (self.spec_module_present(m)
                        == before.spec_module_present(m) && self.spec_module_enabled(m)
                        == before.spec_module_enabled(m)) by {
                        if self.spec_module_present(m) {
                            let z = choose|z: int|
                                0 <= z < self.livepatch@.len() && self.livepatch@[z].0@ == m;
                            assert(before.livepatch@[z].0@ == m);
                        }
                        if before.spec_module_present(m) {
                            let z = choose|z: int|
                                0 <= z < before.livepatch@.len() && before.livepatch@[z].0@ == m;
                            assert(z != i);
                            assert(self.livepatch@[z].0@ == m);
                        }
                        if self.spec_module_enabled(m) {
                            let z = choose|z: int|
                                0 <= z < self.livepatch@.len() && self.livepatch@[z].0@ == m
                                    && self.livepatch@[z].1;
                            assert(z != i);
                            assert(before.livepatch@[z].0@ == m && before.livepatch@[z].1);
                        }
                        if before.spec_module_enabled(m) {
                            let z = choose|z: int|
                                0 <= z < before.livepatch@.len() && before.livepatch@[z].0@ == m
                                    && before.livepatch@[z].1;
                            assert(z != i);
                            assert(self.livepatch@[z].0@ == m && self.livepatch@[z].1);
                        }
                    }
                    if self.spec_module_enabled(module) {
                        let z = choose|z: int|
                            0 <= z < self.livepatch@.len() && self.livepatch@[z].0@ == module
                                && self.livepatch@[z].1;
                        assert(z != i);
                        assert(before.livepatch@[z].0@ == module);
                        assert(false);
                    }
                }
                let ghost mid2 = *self;
                self.remove_patch_symbols(patch);
                proof {
                    let module = patch.spec_kernel_ext().module_name@;
                    assert(self.livepatch@ == mid2.livepatch@);
                    assert forall|m: Seq<u8>| #![all_triggers] true implies (
                    self.spec_module_present(m) == mid2.spec_module_present(m)
                        && self.spec_module_enabled(m) == mid2.spec_module_enabled(m)) by {
                        if mid2.spec_module_present(m) {
                            let z = choose|z: int|
                                0 <= z < mid2.livepatch@.len() && mid2.livepatch@[z].0@ == m;
                            assert(self.livepatch@[z].0@ == m);
                        }
                        if self.spec_module_present(m) {
                            let z = choose|z: int|
                                0 <= z < self.livepatch@.len() && self.livepatch@[z].0@ == m;
                            assert(mid2.livepatch@[z].0@ == m);
                        }
                        if mid2.spec_module_enabled(m) {
                            let z = choose|z: int|
                                0 <= z < mid2.livepatch@.len() && mid2.livepatch@[z].0@ == m
                                    && mid2.livepatch@[z].1;
                            assert(self.livepatch@[z].0@ == m && self.livepatch@[z].1);
                        }
                        if self.spec_module_enabled(m) {
                            let z = choose|z: int|
                                0 <= z < self.livepatch@.len() && self.livepatch@[z].0@ == m
                                    && self.livepatch@[z].1;
                            assert(mid2.livepatch@[z].0@ == m && mid2.livepatch@[z].1);
                        }
                    }
                    assert(self.spec_status(module) == PatchStatus::Deactived);
                    assert(mid2.target_map@ == before.target_map@);
                    assert forall|m: Seq<u8>, u: Seq<char>, s: Seq<u8>|
                        mid2.covers_in(m, u, s) == before.covers_in(m, u, s) by {
                        if mid2.covers_in(m, u, s) {
                            let t = choose|t: int|
                                0 <= t < mid2.target_map@.len() && mid2.target_map@[t].0@ == m
                                    && mid2.target_map@[t].1.covers(u, s);
                            assert(before.target_map@[t].0@ == m && before.target_map@[t].1.covers(
                                u,
                                s,
                            ));
                        }
                        if before.covers_in(m, u, s) {
                            let t = choose|t: int|
                                0 <= t < before.target_map@.len() && before.target_map@[t].0@ == m
                                    && before.target_map@[t].1.covers(u, s);
                            assert(mid2.target_map@[t].0@ == m && mid2.target_map@[t].1.covers(
                                u,
                                s,
                            ));
                        }
                    }
                }
                Ok(())
            },
        }
    }
}

} // verus!
