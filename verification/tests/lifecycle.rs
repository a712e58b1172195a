//! Scenario tests of the patch lifecycle engine.
use syscared::entity::{KernelPatchExt, KernelPatchSymbol, Patch, PatchEntry, PatchInfoExt, UserPatchExt};
use syscared::error::ErrorKind;
use syscared::manager::PatchManager;
use syscared::status::PatchStatus;
use syscared::transaction::{PatchTransaction, TransactionAction};
use syscared::world::{DriverEnv, PatchOpFlag};

fn kernel_patch(uuid: &str, entity: &str, module: &str, symbol: &str, pkg: &str) -> Patch {
    Patch {
        uuid: String::from(uuid),
        entity_name: String::from(entity),
        patch_name: String::from(entity),
        target_name: String::from("kernel"),
        target_pkg_name: String::from(pkg),
        checksum: String::from("abc123"),
        ext: PatchInfoExt::KernelPatch(KernelPatchExt {
            patch_file: format!("/patches/{}.ko", entity).into_bytes(),
            sys_file: format!("/sys/kernel/livepatch/{}/enabled", module).into_bytes(),
            module_name: module.as_bytes().to_vec(),
            symbols: vec![KernelPatchSymbol {
                name: symbol.as_bytes().to_vec(),
                target: b"vmlinux".to_vec(),
                old_addr: 0x1000,
                old_size: 0x40,
                new_addr: 0x2000,
                new_size: 0x48,
            }],
        }),
    }
}

fn user_patch(uuid: &str, entity: &str, elf: &str, function: &str) -> Patch {
    Patch {
        uuid: String::from(uuid),
        entity_name: String::from(entity),
        patch_name: String::from(entity),
        target_name: String::from("svc"),
        target_pkg_name: String::from("svc-1.0"),
        checksum: String::from("abc123"),
        ext: PatchInfoExt::UserPatch(UserPatchExt {
            patch_file: format!("/patches/{}.so", entity).into_bytes(),
            target_elf: elf.as_bytes().to_vec(),
            functions: vec![function.as_bytes().to_vec()],
        }),
    }
}

fn env_for(release: &str, digests: Vec<(&str, &str)>) -> DriverEnv {
    DriverEnv {
        kernel_release: String::from(release),
        loaded_modules: Vec::new(),
        digests: digests
            .into_iter()
            .map(|(p, d)| (p.as_bytes().to_vec(), String::from(d)))
            .collect(),
        insmod_failures: Vec::new(),
        rmmod_failures: Vec::new(),
        processes: Vec::new(),
        inject_failures: Vec::new(),
        sysfs_states: Vec::new(),
        sysfs_write_failures: Vec::new(),
        upatch_states: Vec::new(),
    }
}

#[test]
fn apply_remove_round_trip() {
    // A kernel patch against the running kernel: after the apply
    // primitive its control file reads disabled; after remove the
    // module is gone and the patch reads not applied.
    let mut manager = PatchManager::new();
    manager.rescan(vec![kernel_patch(
        "u1",
        "kernel-5.10/fix",
        "fix",
        "do_fork",
        "kernel-5.10.0-60.18.0.50",
    )]);
    let env = env_for("5.10.0-60.18.0.50", vec![("/patches/kernel-5.10/fix.ko", "abc123")]);
    assert_eq!(manager.get_patch_status(&env, 0), PatchStatus::NotApplied);
    let r = manager.do_status_transition(&env, 0, PatchStatus::Deactived);
    assert_eq!(r.unwrap(), PatchStatus::Deactived);
    // The livepatch model holds the module, disabled: sysfs reads "0".
    assert_eq!(manager.kdriver.livepatch.len(), 1);
    assert_eq!(manager.kdriver.livepatch[0].0, b"fix".to_vec());
    assert!(!manager.kdriver.livepatch[0].1);
    let r = manager.remove_patch(&env, 0);
    assert_eq!(r.unwrap(), PatchStatus::NotApplied);
    assert_eq!(manager.kdriver.livepatch.len(), 0);
    assert_eq!(manager.get_patch_status(&env, 0), PatchStatus::NotApplied);
    // The registry never saw the patch's symbols.
    assert_eq!(manager.kdriver.target_map.len(), 0);
}

#[test]
fn status_never_unknown_after_query() {
    let mut manager = PatchManager::new();
    manager.rescan(vec![kernel_patch("u1", "k/fix", "fix", "do_fork", "other-pkg")]);
    let env = env_for("5.10.0", vec![]);
    assert_eq!(manager.entries[0].status, PatchStatus::Unknown);
    let st = manager.get_patch_status(&env, 0);
    assert_ne!(st, PatchStatus::Unknown);
    assert_ne!(manager.entries[0].status, PatchStatus::Unknown);
}

#[test]
fn same_status_transition_is_no_op() {
    let mut manager = PatchManager::new();
    manager.rescan(vec![kernel_patch("u1", "k/fix", "fix", "do_fork", "other-pkg")]);
    let env = env_for("5.10.0", vec![("/patches/k/fix.ko", "abc123")]);
    let r = manager.do_status_transition(&env, 0, PatchStatus::NotApplied);
    assert_eq!(r.unwrap(), PatchStatus::NotApplied);
    assert_eq!(manager.kdriver.livepatch.len(), 0);
}

#[test]
fn conflict_rejection() {
    // Two kernel patches covering the same symbol: once the first is
    // active, checking the second fails with the conflicting uuid.
    let mut manager = PatchManager::new();
    manager.rescan(vec![
        kernel_patch("u1", "k/a", "ka", "do_fork", "other-pkg"),
        kernel_patch("u2", "k/b", "kb", "do_fork", "other-pkg"),
    ]);
    let env = env_for(
        "5.10.0",
        vec![("/patches/k/a.ko", "abc123"), ("/patches/k/b.ko", "abc123")],
    );
    let i1 = manager.find_patch_by_uuid(&String::from("u1")).unwrap();
    let r = manager.apply_patch(&env, i1);
    assert_eq!(r.unwrap(), PatchStatus::Actived);
    let i2 = manager.find_patch_by_uuid(&String::from("u2")).unwrap();
    let e = manager
        .kdriver
        .check(&env, &manager.entries[i2].patch, PatchOpFlag::Normal)
        .unwrap_err();
    assert_eq!(e.kind, ErrorKind::Conflict);
    assert_eq!(e.message, "Patch is conflicted with\n* Patch 'u1'");
}

#[test]
fn user_injection_partial_failure() {
    // Three live processes; injection fails for one: activation still
    // succeeds, the failed process is left alone.
    let mut manager = PatchManager::new();
    manager.rescan(vec![user_patch("u1", "svc/fix", "/usr/bin/svc", "do_work")]);
    let mut env = env_for("5.10.0", vec![("/patches/svc/fix.so", "abc123")]);
    env.processes = vec![(b"/usr/bin/svc".to_vec(), vec![101, 202, 303])];
    env.inject_failures = vec![303];
    let r = manager.apply_patch(&env, 0);
    assert_eq!(r.unwrap(), PatchStatus::Actived);
    let target = &manager.udriver.target_map[0].1;
    let entity = &target.entities[0].1;
    let mut active = entity.active_pids.clone();
    active.sort();
    assert_eq!(active, vec![101, 202]);
    assert_eq!(entity.ignored_pids, vec![303]);
}

#[test]
fn monitor_driven_catch_up() {
    // A new process of a watched target appears: the catch-up pass
    // injects only into it.
    let mut manager = PatchManager::new();
    manager.rescan(vec![user_patch("u1", "svc/fix", "/usr/bin/svc", "do_work")]);
    let mut env = env_for("5.10.0", vec![("/patches/svc/fix.so", "abc123")]);
    env.processes = vec![(b"/usr/bin/svc".to_vec(), vec![101, 202])];
    let r = manager.apply_patch(&env, 0);
    assert_eq!(r.unwrap(), PatchStatus::Actived);
    assert!(manager.udriver.watched.contains(&b"/usr/bin/svc".to_vec()));
    let mut env2 = env_for("5.10.0", vec![]);
    env2.processes = vec![(b"/usr/bin/svc".to_vec(), vec![101, 202, 404])];
    manager.udriver.patch_new_process(&env2, &b"/usr/bin/svc".to_vec());
    let target = &manager.udriver.target_map[0].1;
    let mut active = target.entities[0].1.active_pids.clone();
    active.sort();
    assert_eq!(active, vec![101, 202, 404]);
}

#[test]
fn user_target_registry_membership() {
    // A user target is kept in the registry exactly while one of its
    // patches is at least applied.
    let mut manager = PatchManager::new();
    manager.rescan(vec![user_patch("u1", "svc/fix", "/usr/bin/svc", "do_work")]);
    let env = env_for("5.10.0", vec![("/patches/svc/fix.so", "abc123")]);
    assert_eq!(manager.udriver.target_map.len(), 0);
    let r = manager.do_status_transition(&env, 0, PatchStatus::Deactived);
    assert_eq!(r.unwrap(), PatchStatus::Deactived);
    assert_eq!(manager.udriver.target_map.len(), 1);
    let r = manager.remove_patch(&env, 0);
    assert_eq!(r.unwrap(), PatchStatus::NotApplied);
    assert_eq!(manager.udriver.target_map.len(), 0);
}

#[test]
fn save_then_restore_is_identity() {
    // With no driver state changed underneath, restoring a snapshot
    // leaves every status where it was.
    let mut manager = PatchManager::new();
    manager.rescan(vec![
        kernel_patch("u1", "k/a", "ka", "do_fork", "other-pkg"),
        kernel_patch("u2", "k/b", "kb", "do_exit", "other-pkg"),
    ]);
    let env = env_for(
        "5.10.0",
        vec![("/patches/k/a.ko", "abc123"), ("/patches/k/b.ko", "abc123")],
    );
    let i1 = manager.find_patch_by_uuid(&String::from("u1")).unwrap();
    manager.apply_patch(&env, i1).unwrap();
    let snapshot = manager.save_patch_status(&env);
    let before: Vec<PatchStatus> = manager.entries.iter().map(|e| e.status).collect();
    manager.restore_patch_status(&env, Some(&snapshot), false).unwrap();
    let after: Vec<PatchStatus> = manager.entries.iter().map(|e| e.status).collect();
    assert_eq!(before, after);
}

#[test]
fn restore_missing_file_is_not_an_error() {
    let mut manager = PatchManager::new();
    let env = env_for("5.10.0", vec![]);
    assert!(manager.restore_patch_status(&env, None, false).is_ok());
}

#[test]
fn restore_ordering_removals_first() {
    // Two patches of one target with overlapping functions: the
    // snapshot replays the removal before the activation, so no
    // spurious conflict arises.
    let mut manager = PatchManager::new();
    manager.rescan(vec![
        user_patch("ua", "svc/a", "/usr/bin/svc", "do_work"),
        user_patch("ub", "svc/b", "/usr/bin/svc", "do_work"),
    ]);
    let mut env = env_for(
        "5.10.0",
        vec![("/patches/svc/a.so", "abc123"), ("/patches/svc/b.so", "abc123")],
    );
    env.processes = vec![(b"/usr/bin/svc".to_vec(), vec![101])];
    let ia = manager.find_patch_by_uuid(&String::from("ua")).unwrap();
    let ib = manager.find_patch_by_uuid(&String::from("ub")).unwrap();
    // Snapshot: ua active, ub not applied; current state: both not applied.
    let pairs = vec![
        (b"ua".to_vec(), PatchStatus::Actived),
        (b"ub".to_vec(), PatchStatus::NotApplied),
    ];
    let content = syscared::codec::serialize_status(&pairs);
    manager.get_patch_status(&env, ia);
    manager.get_patch_status(&env, ib);
    manager.restore_patch_status(&env, Some(&content), false).unwrap();
    assert_eq!(manager.entries[ia].status, PatchStatus::Actived);
    assert_eq!(manager.entries[ib].status, PatchStatus::NotApplied);
}

#[test]
fn transaction_rollback() {
    // Three patches share a target name; the third fails its check, so
    // the first two are rolled back to their pre-transaction statuses.
    let mut manager = PatchManager::new();
    let mut p1 = kernel_patch("u1", "k/a", "ka", "f1", "other-pkg");
    let mut p2 = kernel_patch("u2", "k/b", "kb", "f2", "other-pkg");
    let mut p3 = kernel_patch("u3", "k/c", "kc", "f3", "other-pkg");
    p1.target_name = String::from("critical");
    p2.target_name = String::from("critical");
    p3.target_name = String::from("critical");
    manager.rescan(vec![p1, p2, p3]);
    // The third patch's artefact digest does not match its record.
    let env = env_for(
        "5.10.0",
        vec![
            ("/patches/k/a.ko", "abc123"),
            ("/patches/k/b.ko", "abc123"),
            ("/patches/k/c.ko", "wrong"),
        ],
    );
    let tx = PatchTransaction::new(
        String::from("active"),
        TransactionAction::Apply,
        String::from("critical"),
    );
    let e = tx.invoke(&mut manager, &env).unwrap_err();
    assert!(e.message.starts_with("Transaction 'active' failed"));
    for i in 0..3 {
        assert_eq!(manager.entries[i].status, PatchStatus::NotApplied);
    }
    assert_eq!(manager.kdriver.livepatch.len(), 0);
}

#[test]
fn status_round_trip_through_primitives() {
    // Status after each primitive matches the primitive's promise.
    let mut manager = PatchManager::new();
    manager.rescan(vec![kernel_patch("u1", "k/a", "ka", "do_fork", "other-pkg")]);
    let env = env_for("5.10.0", vec![("/patches/k/a.ko", "abc123")]);
    assert_eq!(
        manager.do_status_transition(&env, 0, PatchStatus::Actived).unwrap(),
        PatchStatus::Actived
    );
    assert!(manager.kdriver.livepatch[0].1);
    assert_eq!(
        manager.do_status_transition(&env, 0, PatchStatus::Accepted).unwrap(),
        PatchStatus::Accepted
    );
    assert_eq!(
        manager.do_status_transition(&env, 0, PatchStatus::Deactived).unwrap(),
        PatchStatus::Deactived
    );
    assert!(!manager.kdriver.livepatch[0].1);
    assert_eq!(
        manager.do_status_transition(&env, 0, PatchStatus::NotApplied).unwrap(),
        PatchStatus::NotApplied
    );
}

#[test]
fn rescan_is_idempotent_on_unchanged_input() {
    let mut manager = PatchManager::new();
    let scan = || {
        vec![
            kernel_patch("u2", "k/b", "kb", "f2", "other-pkg"),
            kernel_patch("u1", "k/a", "ka", "f1", "other-pkg"),
        ]
    };
    manager.rescan(scan());
    let names1: Vec<String> =
        manager.entries.iter().map(|e| e.patch.entity_name.clone()).collect();
    // Sorted by entity name.
    assert_eq!(names1, vec![String::from("k/a"), String::from("k/b")]);
    manager.rescan(scan());
    let names2: Vec<String> =
        manager.entries.iter().map(|e| e.patch.entity_name.clone()).collect();
    assert_eq!(names1, names2);
    assert_eq!(manager.entries.len(), 2);
}

#[test]
fn kernel_incompatible_release_is_rejected() {
    let mut manager = PatchManager::new();
    manager.rescan(vec![kernel_patch(
        "u1",
        "k/a",
        "ka",
        "do_fork",
        "kernel-5.10.0-60.18.0.50",
    )]);
    let env = env_for("4.19.0", vec![("/patches/k/a.ko", "abc123")]);
    let e = manager.apply_patch(&env, 0).unwrap_err();
    assert_eq!(e.kind, ErrorKind::Incompatible);
}

#[test]
fn checksum_mismatch_is_rejected() {
    let mut manager = PatchManager::new();
    manager.rescan(vec![kernel_patch("u1", "k/a", "ka", "do_fork", "other-pkg")]);
    let env = env_for("5.10.0", vec![("/patches/k/a.ko", "not-the-digest")]);
    let e = manager.apply_patch(&env, 0).unwrap_err();
    assert_eq!(e.kind, ErrorKind::ConsistencyFailure);
}

#[test]
fn unknown_identifier_is_not_found() {
    let manager = PatchManager::new();
    let e = manager.match_patch(&String::from("nothing")).unwrap_err();
    assert_eq!(e.kind, ErrorKind::NotFound);
}

#[test]
fn accept_requires_active() {
    let mut manager = PatchManager::new();
    manager.rescan(vec![kernel_patch("u1", "k/a", "ka", "do_fork", "other-pkg")]);
    let env = env_for("5.10.0", vec![("/patches/k/a.ko", "abc123")]);
    let e = manager.accept_patch(&env, 0).unwrap_err();
    assert_eq!(e.kind, ErrorKind::InvalidTransition);
}

#[test]
fn insmod_failure_is_driver_failure() {
    let mut manager = PatchManager::new();
    manager.rescan(vec![kernel_patch("u1", "k/a", "ka", "do_fork", "other-pkg")]);
    let mut env = env_for("5.10.0", vec![("/patches/k/a.ko", "abc123")]);
    env.insmod_failures = vec![b"/patches/k/a.ko".to_vec()];
    let e = manager.apply_patch(&env, 0).unwrap_err();
    assert_eq!(e.kind, ErrorKind::DriverFailure);
}

#[test]
fn kernel_override_blocks_deactivation() {
    // Two patches over the same symbol, both active (the second
    // forced): deactivating the first is refused as overridden.
    let mut manager = PatchManager::new();
    manager.rescan(vec![
        kernel_patch("u1", "k/a", "ka", "do_fork", "other-pkg"),
        kernel_patch("u2", "k/b", "kb", "do_fork", "other-pkg"),
    ]);
    let env = env_for(
        "5.10.0",
        vec![("/patches/k/a.ko", "abc123"), ("/patches/k/b.ko", "abc123")],
    );
    let i1 = manager.find_patch_by_uuid(&String::from("u1")).unwrap();
    let i2 = manager.find_patch_by_uuid(&String::from("u2")).unwrap();
    manager.apply_patch(&env, i1).unwrap();
    // Force the second in at driver level despite the conflict.
    manager.kdriver.apply(&env, &manager.entries[i2].patch).unwrap();
    manager.kdriver.active(&env, &manager.entries[i2].patch).unwrap();
    let e = manager
        .kdriver
        .deactive(&env, &manager.entries[i1].patch, PatchOpFlag::Normal)
        .unwrap_err();
    assert_eq!(e.kind, ErrorKind::Override);
}

#[test]
fn entry_helpers_expose_patches() {
    let mut manager = PatchManager::new();
    manager.rescan(vec![kernel_patch("u1", "k/a", "ka", "do_fork", "other-pkg")]);
    assert_eq!(manager.patch_count(), 1);
    assert_eq!(manager.patch_at(0).uuid, String::from("u1"));
    let list = manager.match_patch(&String::from("u1")).unwrap();
    assert_eq!(list, vec![0]);
    let entry: &PatchEntry = &manager.entries[0];
    assert_eq!(entry.status, PatchStatus::Unknown);
}

#[test]
fn status_recovered_from_running_system() {
    // A fresh engine (as after a daemon restart) resolves the first
    // query from the observed control state, not from its empty model,
    // and can then deactivate what is really loaded.
    let mut manager = PatchManager::new();
    manager.rescan(vec![kernel_patch("u1", "k/a", "ka", "do_fork", "other-pkg")]);
    let mut env = env_for("5.10.0", vec![("/patches/k/a.ko", "abc123")]);
    env.sysfs_states = vec![(b"ka".to_vec(), true)]; // enabled file reads "1"
    assert_eq!(manager.get_patch_status(&env, 0), PatchStatus::Actived);
    let r = manager.deactive_patch(&env, 0);
    assert_eq!(r.unwrap(), PatchStatus::Deactived);
    assert!(!manager.kdriver.livepatch[0].1);
}

#[test]
fn user_status_recovered_from_injection_module() {
    let mut manager = PatchManager::new();
    manager.rescan(vec![user_patch("u1", "svc/fix", "/usr/bin/svc", "do_work")]);
    let mut env = env_for("5.10.0", vec![("/patches/svc/fix.so", "abc123")]);
    env.upatch_states = vec![(String::from("u1"), PatchStatus::Deactived)];
    assert_eq!(manager.get_patch_status(&env, 0), PatchStatus::Deactived);
    // The adopted state registers the target, keeping the registry law.
    assert_eq!(manager.udriver.target_map.len(), 1);
}

#[test]
fn sysfs_write_failure_fails_activation() {
    let mut manager = PatchManager::new();
    manager.rescan(vec![kernel_patch("u1", "k/a", "ka", "do_fork", "other-pkg")]);
    let mut env = env_for("5.10.0", vec![("/patches/k/a.ko", "abc123")]);
    env.sysfs_write_failures = vec![b"ka".to_vec()];
    let e = manager.apply_patch(&env, 0).unwrap_err();
    assert_eq!(e.kind, ErrorKind::Io);
}
