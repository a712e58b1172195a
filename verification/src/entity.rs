//! In-memory records of installed patches.
use vstd::prelude::*;

use crate::status::PatchStatus;

verus! {

/// The two classes of patch target.
#[derive(Clone, Copy, Debug, PartialEq, Eq, Structural)]
pub enum PatchType {
    UserPatch,
    KernelPatch,
}

/// One patched symbol of a kernel patch module.
///
/// `target` is the name of the module the symbol belongs to, or `vmlinux`.
/// Names are byte strings as found in the patch ELF.
#[derive(Debug)]
pub struct KernelPatchSymbol {
    pub name: Vec<u8>,
    pub target: Vec<u8>,
    pub old_addr: u64,
    pub old_size: u64,
    pub new_addr: u64,
    pub new_size: u64,
}

/// Kind-specific data of a kernel patch.
#[derive(Debug)]
pub struct KernelPatchExt {
    /// Absolute path of the patch module file.
    pub patch_file: Vec<u8>,
    /// Absolute path of the module's sysfs `enabled` pseudo-file.
    pub sys_file: Vec<u8>,
    /// Sanitised module name (hyphens and dots mapped to underscores).
    pub module_name: Vec<u8>,
    /// Patched symbols, in the order found in the patch ELF.
    pub symbols: Vec<KernelPatchSymbol>,
}

/// Kind-specific data of a user-space patch.
#[derive(Debug)]
pub struct UserPatchExt {
    /// Absolute path of the patch object file.
    pub patch_file: Vec<u8>,
    /// Absolute path of the executable or library the patch modifies.
    pub target_elf: Vec<u8>,
    /// Names of the functions the patch covers.
    pub functions: Vec<Vec<u8>>,
}

/// Kind-specific extension of a patch record.
#[derive(Debug)]
pub enum PatchInfoExt {
    KernelPatch(KernelPatchExt),
    UserPatch(UserPatchExt),
}

/// An installed patch, materialised from its on-disk metadata.
///
/// Immutable once constructed; destroyed only when removed from disk and
/// rescanned away.
#[derive(Debug)]
pub struct Patch {
    /// Stable unique identifier.
    pub uuid: String,
    /// User-visible unique name (`<target>/<patch>`).
    pub entity_name: String,
    pub patch_name: String,
    pub target_name: String,
    /// Name of the package the patch was built against.
    pub target_pkg_name: String,
    /// Hex digest of the patch artefact.
    pub checksum: String,
    pub ext: PatchInfoExt,
}

impl Patch {
    /// Class of the patch, decided by its extension.
    pub open spec fn spec_kind(&self) -> PatchType {
        match self.ext {
            PatchInfoExt::KernelPatch(_) => PatchType::KernelPatch,
            PatchInfoExt::UserPatch(_) => PatchType::UserPatch,
        }
    }

    /// Class of the patch, decided by its extension.
    pub fn kind(&self) -> (r: PatchType)
        ensures
            r == self.spec_kind(),
    {
        match self.ext {
            PatchInfoExt::KernelPatch(_) => PatchType::KernelPatch,
            PatchInfoExt::UserPatch(_) => PatchType::UserPatch,
        }
    }

    /// A well-formed patch has a uuid that the persistence codec can
    /// frame: nonempty ASCII, with no space or line break.
    pub open spec fn wf(&self) -> bool {
        &&& self.uuid@.len() > 0
        &&& vstd::utf8::is_ascii_chars(self.uuid@)
        &&& forall|i: int|
            0 <= i < self.uuid@.len() ==> self.uuid@[i] != ' ' && self.uuid@[i] != '\n'
    }
}

/// Mapping value stored by the manager: one patch and its cached status.
#[derive(Debug)]
pub struct PatchEntry {
    pub patch: Patch,
    pub status: PatchStatus,
}

impl Patch {
    /// The kernel extension of a kernel patch.
    pub open spec fn spec_kernel_ext(&self) -> KernelPatchExt {
        match self.ext {
            PatchInfoExt::KernelPatch(e) => e,
            PatchInfoExt::UserPatch(_) => arbitrary(),
        }
    }

    /// The user extension of a user patch.
    pub open spec fn spec_user_ext(&self) -> UserPatchExt {
        match self.ext {
            PatchInfoExt::UserPatch(e) => e,
            PatchInfoExt::KernelPatch(_) => arbitrary(),
        }
    }

    /// Borrow of the kernel extension.
    pub fn kernel_ext(&self) -> (r: &KernelPatchExt)
        requires
            self.spec_kind() == PatchType::KernelPatch,
        ensures
            *r == self.spec_kernel_ext(),
    {
        match &self.ext {
            PatchInfoExt::KernelPatch(e) => e,
            PatchInfoExt::UserPatch(_) => vstd::pervasive::unreached(),
        }
    }

    /// Borrow of the user extension.
    pub fn user_ext(&self) -> (r: &UserPatchExt)
        requires
            self.spec_kind() == PatchType::UserPatch,
        ensures
            *r == self.spec_user_ext(),
    {
        match &self.ext {
            PatchInfoExt::UserPatch(e) => e,
            PatchInfoExt::KernelPatch(_) => vstd::pervasive::unreached(),
        }
    }
}

impl KernelPatchExt {
    /// The patch changes the symbol `sym` inside the module `module`.
    pub open spec fn spec_covers(&self, module: Seq<u8>, sym: Seq<u8>) -> bool {
        exists|i: int|
            0 <= i < self.symbols@.len() && self.symbols@[i].target@ == module
                && self.symbols@[i].name@ == sym
    }

    /// Names of the symbols of this patch that live in `module`.
    pub fn symbols_for(&self, module: &[u8]) -> (r: Vec<Vec<u8>>)
        ensures
            forall|s: Seq<u8>| r.deep_view().contains(s) <==> self.spec_covers(module@, s),
    {
        let mut r: Vec<Vec<u8>> = Vec::new();
        let n = self.symbols.len();
        let mut i: usize = 0;
        while i < n
            invariant
                n == self.symbols@.len(),
                0 <= i <= n,
                forall|s: Seq<u8>|
                    #[trigger] r.deep_view().contains(s) <==> exists|j: int|
                        0 <= j < i && self.symbols@[j].target@ == module@
                            && self.symbols@[j].name@ == s,
            decreases n - i,
        {
            let ghost prev = r.deep_view();
            if crate::bytestr::bytes_eq(self.symbols[i].target.as_slice(), module) {
                let fresh = crate::bytestr::copy_bytes(&self.symbols[i].name);
                r.push(fresh);
                proof {
                    crate::bytestr::lemma_bytes_deep_view(&r);
                    assert(r.deep_view() =~= prev.push(self.symbols@[i as int].name@));
                    assert forall|s: Seq<u8>| #[trigger] r.deep_view().contains(s) implies (
                    exists|j: int|
                        0 <= j < i + 1 && self.symbols@[j].target@ == module@
                            && self.symbols@[j].name@ == s) by {
                        let k = choose|k: int|
                            0 <= k < r.deep_view().len() && r.deep_view()[k] == s;
                        if k < prev.len() {
                            assert(prev.contains(s));
                        } else {
                            assert(self.symbols@[i as int].name@ == s);
                        }
                    }
                    assert forall|s: Seq<u8>|
                        (exists|j: int|
                            0 <= j < i + 1 && self.symbols@[j].target@ == module@
                                && self.symbols@[j].name@ == s) implies #[trigger] r.deep_view()
                        .contains(s) by {
                        let j = choose|j: int|
                            0 <= j < i + 1 && self.symbols@[j].target@ == module@
                                && self.symbols@[j].name@ == s;
                        if j < i {
                            assert(prev.contains(s));
                            let k = choose|k: int| 0 <= k < prev.len() && prev[k] == s;
                            assert(r.deep_view()[k] == s);
                        } else {
                            assert(r.deep_view()[prev.len() as int] == s);
                        }
                    }
                }
            } else {
                proof {
                    assert forall|s: Seq<u8>| #[trigger] r.deep_view().contains(s) implies (
                    exists|j: int|
                        0 <= j < i + 1 && self.symbols@[j].target@ == module@
                            && self.symbols@[j].name@ == s) by {}
                    assert forall|s: Seq<u8>|
                        (exists|j: int|
                            0 <= j < i + 1 && self.symbols@[j].target@ == module@
                                && self.symbols@[j].name@ == s) implies #[trigger] r.deep_view()
                        .contains(s) by {
                        let j = choose|j: int|
                            0 <= j < i + 1 && self.symbols@[j].target@ == module@
                                && self.symbols@[j].name@ == s;
                        assert(j < i);
                    }
                }
            }
            i = i + 1;
        }
        r
    }

    /// The distinct module names the symbols of this patch live in.
    pub fn target_modules(&self) -> (r: Vec<Vec<u8>>)
        ensures
            forall|m: Seq<u8>|
                #[trigger] r.deep_view().contains(m) <==> exists|i: int|
                    0 <= i < self.symbols@.len() && self.symbols@[i].target@ == m,
            forall|a: int, b: int|
                0 <= a < b < r.deep_view().len() ==> r.deep_view()[a] != r.deep_view()[b],
    {
        let mut r: Vec<Vec<u8>> = Vec::new();
        let n = self.symbols.len();
        let mut i: usize = 0;
        while i < n
            invariant
                n == self.symbols@.len(),
                0 <= i <= n,
                forall|m: Seq<u8>|
                    #[trigger] r.deep_view().contains(m) <==> exists|j: int|
                        0 <= j < i && self.symbols@[j].target@ == m,
                forall|a: int, b: int|
                    0 <= a < b < r.deep_view().len() ==> r.deep_view()[a] != r.deep_view()[b],
            decreases n - i,
        {
            let ghost prev = r.deep_view();
            if !crate::bytestr::bytes_vec_contains(&r, self.symbols[i].target.as_slice()) {
                let fresh = crate::bytestr::copy_bytes(&self.symbols[i].target);
                r.push(fresh);
                proof {
                    crate::bytestr::lemma_bytes_deep_view(&r);
                    assert(r.deep_view() =~= prev.push(self.symbols@[i as int].target@));
                    assert forall|m: Seq<u8>| #[trigger] r.deep_view().contains(m) implies (
                    exists|j: int| 0 <= j < i + 1 && self.symbols@[j].target@ == m) by {
                        let k = choose|k: int|
                            0 <= k < r.deep_view().len() && r.deep_view()[k] == m;
                        if k < prev.len() {
                            assert(prev.contains(m));
                        } else {
                            assert(self.symbols@[i as int].target@ == m);
                        }
                    }
                    assert forall|m: Seq<u8>|
                        (exists|j: int| 0 <= j < i + 1 && self.symbols@[j].target@ == m) implies #[trigger] r.deep_view().contains(m) by {
                        let j = choose|j: int| 0 <= j < i + 1 && self.symbols@[j].target@ == m;
                        if j < i {
                            assert(prev.contains(m));
                            let k = choose|k: int| 0 <= k < prev.len() && prev[k] == m;
                            assert(r.deep_view()[k] == m);
                        } else {
                            assert(r.deep_view()[prev.len() as int] == m);
                        }
                    }
                }
            } else {
                proof {
                    assert forall|m: Seq<u8>|
                        (exists|j: int| 0 <= j < i + 1 && self.symbols@[j].target@ == m) implies #[trigger] r.deep_view().contains(m) by {
                        let j = choose|j: int| 0 <= j < i + 1 && self.symbols@[j].target@ == m;
                        if j == i {
                            assert(r.deep_view().contains(self.symbols@[i as int].target@));
                        }
                    }
                }
            }
            i = i + 1;
        }
        r
    }
}

} // verus!
