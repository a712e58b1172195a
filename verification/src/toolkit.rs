//! Path layout and argument records of the patch build tooling.
//!
//! These types decide names and directory layouts; the surrounding
//! process performs the filesystem work they describe.
use vstd::prelude::*;

verus! {

/// Working-directory layout of one build run.
#[derive(Debug)]
pub struct WorkDir {
    pub work_dir: String,
    pub patch_build_root: String,
    pub patch_output_dir: String,
    pub package_build_root: String,
}

impl WorkDir {
    /// Lays out the per-run directories under
    /// `<base>/<process_id>.<process_name>`.
    pub fn new(base_dir: &String, process_tag: &String) -> (r: WorkDir)
        ensures
            r.work_dir@ == base_dir@ + "/"@ + process_tag@,
            r.patch_build_root@ == r.work_dir@ + "/patch_root"@,
            r.patch_output_dir@ == r.patch_build_root@ + "/patch_output"@,
            r.package_build_root@ == r.work_dir@ + "/pkg_root"@,
    {
        let mut work_dir = base_dir.clone();
        work_dir.append("/");
        work_dir.append(process_tag.as_str());
        let mut patch_build_root = work_dir.clone();
        patch_build_root.append("/patch_root");
        let mut patch_output_dir = patch_build_root.clone();
        patch_output_dir.append("/patch_output");
        let mut package_build_root = work_dir.clone();
        package_build_root.append("/pkg_root");
        WorkDir { work_dir, patch_build_root, patch_output_dir, package_build_root }
    }
}

/// The build tool's working directories, handed to each build step.
#[derive(Debug)]
pub struct CliWorkDir {
    pub inner: WorkDir,
}

impl CliWorkDir {
    /// Wraps a laid-out working directory.
    pub fn new(inner: WorkDir) -> (r: CliWorkDir)
        ensures
            r.inner == inner,
    {
        CliWorkDir { inner }
    }

    /// The run's root directory.
    pub fn get_work_dir(&self) -> (r: &String)
        ensures
            r@ == self.inner.work_dir@,
    {
        &self.inner.work_dir
    }

    /// Where patches are built.
    pub fn get_patch_build_root(&self) -> (r: &String)
        ensures
            r@ == self.inner.patch_build_root@,
    {
        &self.inner.patch_build_root
    }

    /// Where finished patches are placed.
    pub fn get_patch_output_dir(&self) -> (r: &String)
        ensures
            r@ == self.inner.patch_output_dir@,
    {
        &self.inner.patch_output_dir
    }

    /// Where packages are built.
    pub fn get_package_build_root(&self) -> (r: &String)
        ensures
            r@ == self.inner.package_build_root@,
    {
        &self.inner.package_build_root
    }
}

/// Arguments of one build-tool invocation.
#[derive(Debug)]
pub struct CliArguments {
    pub patch_name: String,
    pub source: String,
    pub debuginfo: String,
    pub workdir: String,
    pub output: String,
    pub kjobs: u32,
    pub verbose: bool,
    pub skip_compiler_check: bool,
}

impl CliArguments {
    /// Collects the parsed command-line values.
    pub fn new(
        patch_name: String,
        source: String,
        debuginfo: String,
        workdir: String,
        output: String,
        kjobs: u32,
        verbose: bool,
        skip_compiler_check: bool,
    ) -> (r: CliArguments)
        ensures
            r.patch_name@ == patch_name@,
            r.source@ == source@,
            r.debuginfo@ == debuginfo@,
            r.workdir@ == workdir@,
            r.output@ == output@,
            r.kjobs == kjobs,
            r.verbose == verbose,
            r.skip_compiler_check == skip_compiler_check,
    {
        CliArguments {
            patch_name,
            source,
            debuginfo,
            workdir,
            output,
            kjobs,
            verbose,
            skip_compiler_check,
        }
    }
}

/// Builder of kernel patches.
#[derive(Debug)]
pub struct KernelPatchBuilder {
    pub build_root: String,
}

impl KernelPatchBuilder {
    /// A builder rooted at the given directory.
    pub fn new(build_root: String) -> (r: KernelPatchBuilder)
        ensures
            r.build_root@ == build_root@,
    {
        KernelPatchBuilder { build_root }
    }
}

/// Builder of user-space patches.
#[derive(Debug)]
pub struct UserPatchBuilder {
    pub build_root: String,
}

impl UserPatchBuilder {
    /// A builder rooted at the given directory.
    pub fn new(build_root: String) -> (r: UserPatchBuilder)
        ensures
            r.build_root@ == build_root@,
    {
        UserPatchBuilder { build_root }
    }
}

/// Helper naming the kernel artefacts a kernel patch build needs.
#[derive(Debug)]
pub struct KernelPatchHelper {
    pub source_dir: String,
}

/// Helper collecting the patch files a build consumes.
#[derive(Debug)]
pub struct PatchHelper {
}

/// Generator of the package spec the build emits.
#[derive(Debug)]
pub struct RpmSpecGenerator {
}

/// Chooses the builder matching a patch kind.
#[derive(Debug)]
pub struct PatchBuilderFactory {
}

/// Root directory of one patch build.
#[derive(Debug)]
pub struct PatchRoot {
    pub path: String,
}

impl PatchRoot {
    /// A patch root under the given base directory.
    pub fn new(base: &String, name: &String) -> (r: PatchRoot)
        ensures
            r.path@ == base@ + "/"@ + name@,
    {
        let mut path = base.clone();
        path.append("/");
        path.append(name.as_str());
        PatchRoot { path }
    }
}

/// Arguments of a user patch build run.
#[derive(Debug)]
pub struct Arg {
    pub work_dir: String,
    pub source: String,
    pub build_source_command: String,
    pub build_patch_command: String,
    pub debug_info: String,
    pub compiler_file: String,
    pub elf_name: String,
    pub output: String,
    pub patch_name: String,
    pub diff_file: Vec<String>,
    pub skip_compiler_check: bool,
    pub verbose: bool,
}

impl Arg {
    /// Empty arguments, to be filled by the reader.
    pub fn new() -> (r: Arg)
        ensures
            r.work_dir@.len() == 0,
            r.source@.len() == 0,
            r.diff_file@.len() == 0,
            !r.skip_compiler_check,
            !r.verbose,
    {
        Arg {
            work_dir: String::new(),
            source: String::new(),
            build_source_command: String::new(),
            build_patch_command: String::new(),
            debug_info: String::new(),
            compiler_file: String::new(),
            elf_name: String::new(),
            output: String::new(),
            patch_name: String::new(),
            diff_file: Vec::new(),
            skip_compiler_check: false,
            verbose: false,
        }
    }

    /// The arguments a build can run with: the required values are
    /// present and the patch command defaults to the source command.
    pub fn check(&mut self) -> (r: bool)
        ensures
            r == (old(self).source@.len() > 0 && old(self).debug_info@.len() > 0 && old(
                self,
            ).elf_name@.len() > 0 && old(self).build_source_command@.len() > 0 && old(
                self,
            ).diff_file@.len() > 0),
            final(self).build_patch_command@ == (if old(self).build_patch_command@.len() == 0 {
                old(self).build_source_command@
            } else {
                old(self).build_patch_command@
            }),
            final(self).source@ == old(self).source@,
            final(self).debug_info@ == old(self).debug_info@,
            final(self).elf_name@ == old(self).elf_name@,
            final(self).build_source_command@ == old(self).build_source_command@,
            final(self).diff_file@ == old(self).diff_file@,
    {
        if self.build_patch_command.as_str().is_empty() {
            self.build_patch_command = self.build_source_command.clone();
        }
        !self.source.as_str().is_empty() && !self.debug_info.as_str().is_empty()
            && !self.elf_name.as_str().is_empty() && !self.build_source_command.as_str().is_empty()
            && self.diff_file.len() > 0
    }
}

/// A parsed build-tool command.
#[derive(Debug)]
pub enum Command {
    Build,
    Info,
    Target,
    Status,
    List,
    Apply,
    Remove,
    Active,
    Deactive,
    Accept,
    Save,
    Restore,
    Rescan,
    FastReboot,
}

/// Arguments attached to a parsed command.
#[derive(Debug)]
pub enum CommandArguments {
    NoArguments,
    CommandLineArguments(Vec<String>),
    PatchOperationArguments(String),
    RebootArguments(Option<String>, bool),
}

/// A command dispatched to the boot manager.
#[derive(Debug)]
pub struct BootManager {
}

/// Executor of patch activation commands.
#[derive(Debug)]
pub struct ActiveCommandExecutor {
}

/// Executor of the fast-reboot command.
#[derive(Debug)]
pub struct FastRebootCommandExecutor {
}

/// Walks a directory tree or only its first level.
#[derive(Clone, Copy, Debug, PartialEq, Eq, Structural)]
pub struct TraverseOptions {
    pub recursive: bool,
}

/// How a directory search matches names.
#[derive(Clone, Copy, Debug, PartialEq, Eq, Structural)]
pub struct FindOptions {
    pub fuzz: bool,
    pub recursive: bool,
}

/// One patch file consumed by a build.
#[derive(Debug)]
pub struct PatchFile {
    pub name: String,
    pub path: String,
    pub digest: String,
}

/// A user patch build project.
#[derive(Debug)]
pub struct Project {
    pub name: String,
}

impl Project {
    /// A project named after its source directory.
    pub fn new(name: String) -> (r: Project)
        ensures
            r.name@ == name@,
    {
        Project { name }
    }
}

/// The daemon-side skeleton the RPC transport dispatches into.
#[derive(Debug)]
pub struct SkeletonImpl {
}

impl SkeletonImpl {
    /// An empty skeleton.
    pub fn new() -> (r: SkeletonImpl) {
        SkeletonImpl {  }
    }
}

/// One translation unit of the debug information.
#[derive(Debug)]
pub struct DwarfCompileUnit {
    pub source_file: String,
    pub compiler_version: String,
}

impl DwarfCompileUnit {
    /// A record of one compile unit.
    pub fn new(source_file: String, compiler_version: String) -> (r: DwarfCompileUnit)
        ensures
            r.source_file@ == source_file@,
            r.compiler_version@ == compiler_version@,
    {
        DwarfCompileUnit { source_file, compiler_version }
    }

    /// Path of the unit's source file.
    pub fn get_source(&self) -> (r: &String)
        ensures
            r@ == self.source_file@,
    {
        &self.source_file
    }

    /// Compiler that produced the unit.
    pub fn get_compiler_version(&self) -> (r: &String)
        ensures
            r@ == self.compiler_version@,
    {
        &self.compiler_version
    }
}

/// Reader of a binary's debug information.
#[derive(Debug)]
pub struct Dwarf {
}

impl Dwarf {
    /// A fresh reader.
    pub fn new() -> (r: Dwarf) {
        Dwarf {  }
    }
}

/// The OS ABI byte of an ELF identification header.
pub fn elf_ei_osabi(ident: &[u8]) -> (r: u8)
    requires
        ident@.len() >= 8,
    ensures
        r == ident@[7],
{
    ident[7]
}

/// The fields of an ELF-64 file header the build tooling reads.
#[derive(Clone, Copy, Debug, PartialEq, Eq, Structural)]
pub struct FileHeader64 {
    pub e_type: u16,
    pub e_machine: u16,
    pub e_version: u32,
    pub e_entry: u64,
    pub e_phoff: u64,
    pub e_shoff: u64,
    pub e_flags: u32,
    pub e_ehsize: u16,
    pub e_phentsize: u16,
    pub e_phnum: u16,
    pub e_shentsize: u16,
    pub e_shnum: u16,
    pub e_shstrndx: u16,
}

/// Adapter running kernel-patch operations for one patch.
#[derive(Debug)]
pub struct KernelPatchAdapter {
    pub patch_name: String,
}

impl KernelPatchAdapter {
    /// An adapter for the named patch.
    pub fn new(patch_name: String) -> (r: KernelPatchAdapter)
        ensures
            r.patch_name@ == patch_name@,
    {
        KernelPatchAdapter { patch_name }
    }

    /// The sysfs control file of the patch module:
    /// `/sys/kernel/livepatch/<name>/enabled`.
    pub fn patch_sys_interface(&self) -> (r: String)
        ensures
            r@ == "/sys/kernel/livepatch/"@ + self.patch_name@ + "/enabled"@,
    {
        let mut r = String::from_str("/sys/kernel/livepatch/");
        r.append(self.patch_name.as_str());
        r.append("/enabled");
        r
    }

    /// The patch module artefact: `<name>.ko`.
    pub fn get_patch_file(&self) -> (r: String)
        ensures
            r@ == self.patch_name@ + ".ko"@,
    {
        let mut r = self.patch_name.clone();
        r.append(".ko");
        r
    }

    /// Reads a sysfs status value: a missing file means the patch is
    /// not applied, `0` dormant, `1` active; anything else is invalid.
    /// The caller hands in the file's content with surrounding
    /// whitespace already trimmed, as a raw sysfs read carries a line
    /// break.
    pub fn read_patch_status(&self, content: Option<&String>) -> (r: Result<
        crate::status::PatchStatus,
        crate::error::PatchError,
    >)
        ensures
            match content {
                None => r == Ok::<_, crate::error::PatchError>(
                    crate::status::PatchStatus::NotApplied,
                ),
                Some(c) => {
                    if c@ == "0"@ {
                        r == Ok::<_, crate::error::PatchError>(
                            crate::status::PatchStatus::Deactived,
                        )
                    } else if c@ == "1"@ {
                        r == Ok::<_, crate::error::PatchError>(crate::status::PatchStatus::Actived)
                    } else {
                        r matches Err(e) && e.kind == crate::error::ErrorKind::InvalidFormat
                    }
                },
            },
    {
        match content {
            None => Ok(crate::status::PatchStatus::NotApplied),
            Some(c) => {
                if c.eq(&String::from_str("0")) {
                    Ok(crate::status::PatchStatus::Deactived)
                } else if c.eq(&String::from_str("1")) {
                    Ok(crate::status::PatchStatus::Actived)
                } else {
                    Err(
                        crate::error::PatchError::of(
                            crate::error::ErrorKind::InvalidFormat,
                            "Patch status is invalid",
                        ),
                    )
                }
            },
        }
    }

    /// The value to write to the sysfs control file for a requested
    /// status; only dormant and active states can be written.
    pub fn write_patch_status(&self, status: crate::status::PatchStatus) -> (r: Result<
        String,
        crate::error::PatchError,
    >)
        ensures
            match status {
                crate::status::PatchStatus::NotApplied
                | crate::status::PatchStatus::Deactived => r matches Ok(v) && v@ == "0"@,
                crate::status::PatchStatus::Actived => r matches Ok(v) && v@ == "1"@,
                _ => r matches Err(e) && e.kind == crate::error::ErrorKind::InvalidFormat,
            },
    {
        match status {
            crate::status::PatchStatus::NotApplied | crate::status::PatchStatus::Deactived => Ok(
                String::from_str("0"),
            ),
            crate::status::PatchStatus::Actived => Ok(String::from_str("1")),
            _ => Err(
                crate::error::PatchError::of(
                    crate::error::ErrorKind::InvalidFormat,
                    "Patch status is invalid",
                ),
            ),
        }
    }
}

} // verus!
