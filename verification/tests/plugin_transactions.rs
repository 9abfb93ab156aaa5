use phl::plugins::deps::dependency_specs_of;
use phl::plugins::txn::{
    check_transaction, legacy_backup_flat, legacy_backup_owner, recovery_plan, string_field,
    swap_recovery, PluginTransaction, RecoveryStep, SwapRecovery, TransactionPhase, TxnProbe,
};

fn probe(dir: bool, backup: bool, reject: bool, dest: bool) -> TxnProbe {
    TxnProbe {
        dir_exists: dir,
        backup_exists: backup,
        reject_exists: reject,
        dest_exists: dest,
        dest_is_dir: dest,
    }
}

fn journal(phase: TransactionPhase, had_previous: bool, before: Option<bool>) -> PluginTransaction {
    let mut t = PluginTransaction::prepared("dsh-foo".into(), had_previous, before);
    t.set_phase(phase);
    t
}

#[test]
fn dependency_specs_are_sorted_and_ranged() {
    let specs = dependency_specs_of(
        r#"{"dependencies":{"ws":"^8.0.0","schemastery":"^3.0.0","react":"18.3.1"}}"#,
    )
    .unwrap();
    assert_eq!(specs, vec!["react@18.3.1", "schemastery@^3.0.0", "ws@^8.0.0"]);
}

#[test]
fn self_contained_plugin_has_no_dependency_specs() {
    assert!(dependency_specs_of(r#"{"name":"dsh-bar"}"#).unwrap().is_empty());
    assert!(dependency_specs_of(r#"{"dependencies":{"x":{"version":"1"}}}"#).unwrap().is_empty());
    assert!(dependency_specs_of("[1, 2]").unwrap().is_empty());
    let err = dependency_specs_of("{not json").unwrap_err();
    assert!(err.starts_with("插件 package.json 解析失败: "), "{err}");
}

#[test]
fn no_transaction_directory_leaves_nothing_to_recover() {
    let plan = recovery_plan(&probe(false, true, true, true), None, "/p/.phl-plugin-txn");
    assert!(plan.steps.is_empty());
    assert!(plan.failure.is_none());
}

#[test]
fn a_journal_less_directory_is_removed_unless_it_holds_a_copy() {
    let plan = recovery_plan(&probe(true, false, false, true), None, "/p/.phl-plugin-txn");
    assert_eq!(plan.steps, vec![RecoveryStep::RemoveTxnDir]);
    let plan = recovery_plan(&probe(true, true, false, true), None, "/p/.phl-plugin-txn");
    assert!(plan.steps.is_empty());
    assert_eq!(
        plan.failure.as_deref(),
        Some("插件事务缺少记录，已保留 /p/.phl-plugin-txn，请手动恢复")
    );
}

#[test]
fn transaction_committed_cleanup_interruption_never_rolls_back_new_package() {
    let t = journal(TransactionPhase::Committed, true, Some(true));
    let plan = recovery_plan(&probe(true, true, false, true), Some(&t), "d");
    assert_eq!(plan.steps, vec![RecoveryStep::Finish]);
    assert!(plan.failure.is_none());
    let missing = recovery_plan(&probe(true, true, false, false), Some(&t), "d");
    assert!(missing.steps.is_empty());
    assert_eq!(
        missing.failure.as_deref(),
        Some("已提交插件的目录缺失，保留事务与备份，请手动恢复")
    );
}

#[test]
fn transaction_every_precommit_cut_restores_old_package_and_disabled_state() {
    let t = journal(TransactionPhase::Prepared, true, Some(true));
    // Backup taken and the new package landed.
    let plan = recovery_plan(&probe(true, true, false, true), Some(&t), "d");
    assert_eq!(
        plan.steps,
        vec![
            RecoveryStep::SaveRollingBack,
            RecoveryStep::ClearReject,
            RecoveryStep::MoveDestToReject,
            RecoveryStep::RestoreBackup,
            RecoveryStep::RestoreRegistration(Some(true)),
            RecoveryStep::Finish,
        ]
    );
    // Backup taken, nothing landed yet.
    let plan = recovery_plan(&probe(true, true, false, false), Some(&t), "d");
    assert_eq!(
        plan.steps,
        vec![
            RecoveryStep::SaveRollingBack,
            RecoveryStep::RestoreBackup,
            RecoveryStep::RestoreRegistration(Some(true)),
            RecoveryStep::Finish,
        ]
    );
}

#[test]
fn transaction_recovery_crash_after_old_restore_is_idempotent() {
    let t = journal(TransactionPhase::RollingBack, true, None);
    let plan = recovery_plan(&probe(true, false, true, true), Some(&t), "d");
    assert_eq!(
        plan.steps,
        vec![RecoveryStep::RestoreRegistration(None), RecoveryStep::Finish]
    );
}

#[test]
fn transaction_failed_fresh_install_removes_only_its_registration() {
    let t = journal(TransactionPhase::Prepared, false, None);
    let plan = recovery_plan(&probe(true, false, false, true), Some(&t), "d");
    assert_eq!(
        plan.steps,
        vec![
            RecoveryStep::SaveRollingBack,
            RecoveryStep::RemoveDest,
            RecoveryStep::RestoreRegistration(None),
            RecoveryStep::Finish,
        ]
    );
}

#[test]
fn a_previous_copy_with_neither_backup_nor_destination_is_kept_for_the_user() {
    let t = journal(TransactionPhase::Prepared, true, Some(false));
    let plan = recovery_plan(&probe(true, false, false, false), Some(&t), "d");
    assert_eq!(plan.steps, vec![RecoveryStep::SaveRollingBack]);
    assert_eq!(
        plan.failure.as_deref(),
        Some("旧插件及其备份均缺失，保留事务待手动恢复")
    );
}

#[test]
fn unsupported_journals_are_refused() {
    let ok = journal(TransactionPhase::Prepared, false, None);
    assert!(check_transaction(&ok).is_ok());
    let mut v2 = journal(TransactionPhase::Prepared, false, None);
    v2.version = 2;
    assert_eq!(check_transaction(&v2).unwrap_err(), "不支持的插件事务，已保留备份");
    let evil = PluginTransaction::prepared("../x".into(), false, None);
    assert!(check_transaction(&evil).is_err());
}

#[test]
fn interrupted_swap_restores_the_old_copy_when_dest_is_gone() {
    assert_eq!(swap_recovery(false, true), SwapRecovery::Nothing);
    assert_eq!(swap_recovery(true, false), SwapRecovery::PutBack);
    assert_eq!(swap_recovery(true, true), SwapRecovery::SetAsideThenPutBack);
}

#[test]
fn legacy_backups_are_owned_only_by_a_matching_valid_id() {
    assert_eq!(legacy_backup_flat(".phl-old-_scope_pkg").as_deref(), Some("_scope_pkg"));
    assert_eq!(legacy_backup_flat("dsh-foo"), None);
    let marker = br#"{"registryId":"@scope/pkg","version":"1"}"#;
    let package = br#"{"name":"@scope/pkg"}"#;
    assert_eq!(
        legacy_backup_owner("_scope_pkg", Some(marker), None).as_deref(),
        Some("@scope/pkg")
    );
    assert_eq!(
        legacy_backup_owner("_scope_pkg", None, Some(package)).as_deref(),
        Some("@scope/pkg")
    );
    // A marker naming another package does not claim the backup.
    let other = br#"{"registryId":"dsh-other"}"#;
    assert_eq!(
        legacy_backup_owner("_scope_pkg", Some(other), Some(package)).as_deref(),
        Some("@scope/pkg")
    );
    assert_eq!(legacy_backup_owner("_scope_pkg", Some(other), None), None);
    assert_eq!(legacy_backup_owner("x", Some(b"\xff\xfe"), None), None);
}

#[test]
fn string_fields_are_read_from_json_objects_only() {
    assert_eq!(string_field(br#"{"a":"b","n":1}"#, "a").as_deref(), Some("b"));
    assert_eq!(string_field(br#"{"a":"b","n":1}"#, "n"), None);
    assert_eq!(string_field(br#"["a"]"#, "a"), None);
    assert_eq!(string_field(b"not json", "a"), None);
}

#[test]
fn recovering_twice_finds_nothing_the_second_time() {
    let t = journal(TransactionPhase::Prepared, true, Some(true));
    let first = recovery_plan(&probe(true, true, false, true), Some(&t), "/p/.phl-txn");
    assert_eq!(first.failure, None);
    assert_eq!(first.steps.last(), Some(&RecoveryStep::Finish));
    let second = recovery_plan(&probe(false, false, false, true), None, "/p/.phl-txn");
    assert!(second.steps.is_empty());
    assert_eq!(second.failure, None);
}
