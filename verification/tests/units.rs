//! Unit tests of the smaller library types.
use syscared::entity::{Patch, PatchInfoExt, PatchType, UserPatchExt};
use syscared::error::ErrorKind;
use syscared::pkg::{PackageInfo, PackageType};
use syscared::sm::{transition_actions, Action};
use syscared::status::{PatchStatus, UpatchStatus};
use syscared::toolkit::{Arg, CliWorkDir, KernelPatchAdapter, WorkDir};
use syscared::udriver::PatchEntity;
use syscared::world::DriverEnv;

fn pkg(name: &str, kind: PackageType) -> PackageInfo {
    PackageInfo {
        name: String::from(name),
        kind,
        arch: String::from("x86_64"),
        epoch: String::from("0"),
        version: String::from("1.2"),
        release: String::from("3"),
        license: String::from("MulanPSL-2.0"),
        source_pkg: String::from("svc-src"),
    }
}

#[test]
fn package_names() {
    let p = pkg("svc", PackageType::BinaryPackage);
    assert_eq!(p.short_name(), "svc-1.2-3");
    assert_eq!(p.full_name(), "svc-1.2-3.x86_64");
}

#[test]
fn source_of_relation() {
    let src = pkg("svc", PackageType::SourcePackage);
    let bin = pkg("svc", PackageType::BinaryPackage);
    assert!(src.is_source_of(&bin));
    assert!(!bin.is_source_of(&src));
    assert!(!src.is_source_of(&src));
}

#[test]
fn work_dir_layout() {
    let w = WorkDir::new(&String::from("/tmp/base"), &String::from("42.tool"));
    assert_eq!(w.work_dir, "/tmp/base/42.tool");
    assert_eq!(w.patch_build_root, "/tmp/base/42.tool/patch_root");
    assert_eq!(w.patch_output_dir, "/tmp/base/42.tool/patch_root/patch_output");
    assert_eq!(w.package_build_root, "/tmp/base/42.tool/pkg_root");
    let cli = CliWorkDir::new(w);
    assert_eq!(cli.get_work_dir(), "/tmp/base/42.tool");
    assert_eq!(cli.get_patch_build_root(), "/tmp/base/42.tool/patch_root");
    assert_eq!(cli.get_patch_output_dir(), "/tmp/base/42.tool/patch_root/patch_output");
    assert_eq!(cli.get_package_build_root(), "/tmp/base/42.tool/pkg_root");
}

#[test]
fn build_arguments_check() {
    let mut a = Arg::new();
    assert!(!a.check());
    a.source = String::from("/src");
    a.debug_info = String::from("/dbg");
    a.elf_name = String::from("svc");
    a.build_source_command = String::from("make");
    a.diff_file = vec![String::from("fix.patch")];
    assert!(a.check());
    // The patch build command defaults to the source build command.
    assert_eq!(a.build_patch_command, "make");
}

#[test]
fn sysfs_adapter_paths_and_values() {
    let a = KernelPatchAdapter::new(String::from("fix_1"));
    assert_eq!(a.patch_sys_interface(), "/sys/kernel/livepatch/fix_1/enabled");
    assert_eq!(a.get_patch_file(), "fix_1.ko");
    assert_eq!(
        a.read_patch_status(None).unwrap(),
        PatchStatus::NotApplied
    );
    assert_eq!(
        a.read_patch_status(Some(&String::from("0"))).unwrap(),
        PatchStatus::Deactived
    );
    assert_eq!(
        a.read_patch_status(Some(&String::from("1"))).unwrap(),
        PatchStatus::Actived
    );
    let e = a.read_patch_status(Some(&String::from("2"))).unwrap_err();
    assert_eq!(e.kind, ErrorKind::InvalidFormat);
    assert_eq!(a.write_patch_status(PatchStatus::Deactived).unwrap(), "0");
    assert_eq!(a.write_patch_status(PatchStatus::Actived).unwrap(), "1");
    assert!(a.write_patch_status(PatchStatus::Accepted).is_err());
}

#[test]
fn status_order_and_names() {
    assert!(PatchStatus::Unknown.rank_u8() < PatchStatus::NotApplied.rank_u8());
    assert!(PatchStatus::NotApplied.rank_u8() < PatchStatus::Deactived.rank_u8());
    assert!(PatchStatus::Deactived.rank_u8() < PatchStatus::Actived.rank_u8());
    assert!(PatchStatus::Actived.rank_u8() < PatchStatus::Accepted.rank_u8());
    assert!(PatchStatus::NotApplied.le(PatchStatus::Accepted));
    assert!(!PatchStatus::Accepted.le(PatchStatus::NotApplied));
    assert_eq!(PatchStatus::Actived.name(), "ACTIVED");
}

#[test]
fn upatch_status_codes() {
    assert_eq!(UpatchStatus::NotApplied.code(), 1);
    assert_eq!(UpatchStatus::Deactived.code(), 2);
    assert_eq!(UpatchStatus::Active.code(), 3);
    assert_eq!(UpatchStatus::Invalid.code(), 4);
    assert_eq!(UpatchStatus::Active.to_patch_status(), PatchStatus::Actived);
    assert_eq!(UpatchStatus::Invalid.to_patch_status(), PatchStatus::Unknown);
}

#[test]
fn transition_table_shape() {
    // Every legal transition ends in the primitive that establishes
    // the requested state.
    let a = transition_actions(PatchStatus::NotApplied, PatchStatus::Accepted).unwrap();
    assert_eq!(a, vec![Action::Apply, Action::Active, Action::Accept]);
    let a = transition_actions(PatchStatus::Accepted, PatchStatus::NotApplied).unwrap();
    assert_eq!(a, vec![Action::Decline, Action::Deactive, Action::Remove]);
    assert!(transition_actions(PatchStatus::Unknown, PatchStatus::Actived).is_none());
}

#[test]
fn patch_kind_follows_extension() {
    let p = Patch {
        uuid: String::from("u1"),
        entity_name: String::from("svc/fix"),
        patch_name: String::from("fix"),
        target_name: String::from("svc"),
        target_pkg_name: String::from("svc-1.0"),
        checksum: String::from("abc"),
        ext: PatchInfoExt::UserPatch(UserPatchExt {
            patch_file: b"/p".to_vec(),
            target_elf: b"/usr/bin/svc".to_vec(),
            functions: vec![b"f".to_vec()],
        }),
    };
    assert_eq!(p.kind(), PatchType::UserPatch);
}

#[test]
fn entity_pid_bookkeeping() {
    let mut e = PatchEntity::new(b"/p".to_vec());
    let need = e.need_actived(&vec![1, 2, 2, 3]);
    assert_eq!(need, vec![1, 2, 3]);
    e.add_process(1);
    e.add_process(2);
    e.ignore_process(3);
    let need = e.need_actived(&vec![1, 2, 3, 4]);
    assert_eq!(need, vec![3, 4]);
    let down = e.need_deactived(&vec![2, 3]);
    assert_eq!(down, vec![2]);
    e.clean_dead_process(&vec![2]);
    assert_eq!(e.active_pids, vec![2]);
    assert!(e.ignored_pids.is_empty());
    e.remove_process(2);
    assert!(e.active_pids.is_empty());
}

#[test]
fn catch_up_injects_only_new_processes() {
    let mut e = PatchEntity::new(b"/p".to_vec());
    e.add_process(101);
    e.add_process(202);
    e.ignore_process(303);
    let env = DriverEnv {
        kernel_release: String::from("5.10.0"),
        loaded_modules: Vec::new(),
        digests: Vec::new(),
        insmod_failures: Vec::new(),
        rmmod_failures: Vec::new(),
        processes: Vec::new(),
        inject_failures: vec![505],
        sysfs_states: Vec::new(),
        sysfs_write_failures: Vec::new(),
        upatch_states: Vec::new(),
    };
    e.catch_up(&env, &vec![101, 202, 303, 404, 505]);
    let mut active = e.active_pids.clone();
    active.sort();
    assert_eq!(active, vec![101, 202, 404]);
    let mut ignored = e.ignored_pids.clone();
    ignored.sort();
    assert_eq!(ignored, vec![303, 505]);
}
