use phl::storage::{
    commit_target, destination_preflight, ensure_recovery_is_unambiguous, finish_target,
    resume_plan, should_retire, undo_preflight, DirSummary, EntryProbe, EntryState,
    MigrationJournal, MoveAction, ResumePlan, RootDataSummary, next_move_action, staged_size_check, undo_row,
};

fn journal() -> MigrationJournal {
    MigrationJournal::fresh("D:/old".into(), "E:/new".into(), "2026-01-01T00:00:00Z".into())
}

fn dir(entries: usize) -> DirSummary {
    DirSummary { exists: entries > 0, entries }
}

#[test]
fn a_fresh_journal_has_every_data_directory_pending() {
    let j = journal();
    let kinds: Vec<&str> = j.entries.iter().map(|e| e.kind.as_str()).collect();
    assert_eq!(kinds, vec!["instances", "versions", "runtimes", "config", "cache"]);
    assert!(j.entries.iter().all(|e| e.state == EntryState::Pending && e.bytes == 0));
    assert!(!j.committed);
    assert!(!j.started());
    assert_eq!(j.entry("config"), EntryState::Pending);
    assert_eq!(j.entry("nonsense"), EntryState::Pending);
}

#[test]
fn set_then_entry_reads_back_the_written_state() {
    let mut j = journal();
    j.set("runtimes", EntryState::Moved, 42);
    j.set("instances", EntryState::Moving, 0);
    j.set("nonsense", EntryState::Moved, 7);
    assert_eq!(j.entry("runtimes"), EntryState::Moved);
    assert_eq!(j.entry("instances"), EntryState::Moving);
    assert_eq!(j.entries.len(), 5);
    assert!(j.started());
    j.set("config", EntryState::Moved, 8);
    let (kinds, bytes) = j.moved_kinds();
    assert_eq!(kinds, vec!["runtimes".to_string(), "config".to_string()]);
    assert_eq!(bytes, 50);
}

#[test]
fn a_root_has_data_when_any_directory_has_an_entry() {
    let empty = RootDataSummary::of(dir(0), dir(0), dir(0), dir(0), dir(0));
    assert!(!empty.has_data);
    let some = RootDataSummary::of(dir(0), dir(0), dir(0), dir(3), dir(0));
    assert!(some.has_data);
    assert_eq!(some.config.entries, 3);
}

#[test]
fn interrupted_landing_with_an_existing_destination_is_ambiguous() {
    assert!(ensure_recovery_is_unambiguous(EntryState::Moving, "a", "b", false).is_ok());
    assert!(ensure_recovery_is_unambiguous(EntryState::Moved, "a", "b", true).is_ok());
    assert_eq!(
        ensure_recovery_is_unambiguous(EntryState::Moving, "a", "b", true).unwrap_err(),
        "迁移在目录落位时中断，无法确认 a 与 b 哪一侧完整；已保留两侧数据和迁移记录，请核对后恢复"
    );
}

fn probe(src_exists: bool, dst_exists: bool) -> EntryProbe {
    EntryProbe { src: "s".into(), dst: "d".into(), src_exists, dst_exists }
}

#[test]
fn undo_refuses_committed_and_ambiguous_journals() {
    let mut j = journal();
    let probes: Vec<EntryProbe> = (0..5).map(|_| probe(true, false)).collect();
    assert!(undo_preflight(&j, &probes).is_ok());
    j.set("versions", EntryState::Moved, 1);
    let mut both: Vec<EntryProbe> = (0..5).map(|_| probe(true, false)).collect();
    both[1] = probe(true, true);
    assert_eq!(
        undo_preflight(&j, &both).unwrap_err(),
        "源和目标都保留了 versions，无法确认源目录是否完整；已保留两侧数据和迁移记录，请核对后恢复"
    );
    j.committed = true;
    assert_eq!(undo_preflight(&j, &probes).unwrap_err(), "迁移已完成提交，不能整体撤销");
}

#[test]
fn an_open_journal_for_a_different_pair_blocks_a_new_migration() {
    let mut j = journal();
    assert!(matches!(resume_plan(None, true, true), ResumePlan::Fresh));
    assert!(matches!(resume_plan(Some(&j), true, true), ResumePlan::Resume));
    match resume_plan(Some(&j), true, false) {
        ResumePlan::Refuse(m) => assert_eq!(m, "存在未完成的迁移 D:/old → E:/new，请先在设置中继续或撤销它"),
        other => panic!("expected a refusal, got {other:?}"),
    }
    j.committed = true;
    assert!(matches!(resume_plan(Some(&j), true, true), ResumePlan::Finished));
}

#[test]
fn a_non_empty_destination_is_refused_before_anything_moves() {
    assert!(destination_preflight(EntryState::Pending, "s", "d", true, true, false).is_ok());
    assert!(destination_preflight(EntryState::Pending, "s", "d", false, true, true).is_ok());
    assert!(destination_preflight(EntryState::Moved, "s", "d", true, true, true).is_ok());
    assert_eq!(
        destination_preflight(EntryState::Pending, "s", "d", true, true, true).unwrap_err(),
        "目标已存在非空目录 d —— 请改用一个空目录"
    );
}

#[test]
fn only_a_finished_root_may_retire_its_journal() {
    assert!(should_retire(true, true, true, false, true));
    assert!(!should_retire(true, true, true, true, true));
    assert!(!should_retire(false, true, true, false, false));
    assert!(!should_retire(true, false, true, false, false));
}

#[test]
fn a_cancelled_move_does_not_return_or_commit_a_new_root() {
    let mut j = journal();
    assert_eq!(commit_target(true, Some(&j), true, true, "E:/new").unwrap(), None);
    assert_eq!(
        commit_target(false, Some(&j), true, true, "E:/new").unwrap_err(),
        "迁移记录与目标不一致，未切换数据目录"
    );
    j.committed = true;
    assert_eq!(
        commit_target(false, Some(&j), true, true, "E:/new").unwrap(),
        Some("E:/new".to_string())
    );
    assert_eq!(
        commit_target(false, None, true, true, "E:/new").unwrap_err(),
        "迁移记录缺失，无法确认目标目录"
    );
    assert_eq!(
        commit_target(false, None, false, true, "F:/x").unwrap(),
        Some("F:/x".to_string())
    );
}

#[test]
fn finish_only_adopts_a_committed_journal() {
    let mut j = journal();
    assert_eq!(finish_target(None).unwrap_err(), "迁移记录不存在，无法确认");
    assert_eq!(
        finish_target(Some(&j)).unwrap_err(),
        "迁移尚未完成数据搬运，请继续迁移或撤销"
    );
    j.committed = true;
    assert_eq!(finish_target(Some(&j)).unwrap(), "E:/new");
}

#[test]
fn a_run_moves_unarrived_directories_in_order_then_commits() {
    let mut j = journal();
    match next_move_action(&j, false) {
        MoveAction::Move { kind, redo } => {
            assert_eq!(kind, "instances");
            assert!(!redo);
        }
        other => panic!("expected a move, got {other:?}"),
    }
    j.set("instances", EntryState::Moved, 10);
    j.set("versions", EntryState::Moving, 0);
    match next_move_action(&j, false) {
        MoveAction::Move { kind, redo } => {
            assert_eq!(kind, "versions");
            assert!(redo, "an interrupted directory is redone");
        }
        other => panic!("expected a move, got {other:?}"),
    }
    assert!(matches!(next_move_action(&j, true), MoveAction::Stop));
    for kind in ["versions", "runtimes", "config", "cache"] {
        j.set(kind, EntryState::Moved, 1);
    }
    assert!(matches!(next_move_action(&j, false), MoveAction::Commit));
}

#[test]
fn a_staged_copy_must_match_the_source_size() {
    assert!(staged_size_check("D:/old/runtimes", 100, 100).is_ok());
    assert_eq!(
        staged_size_check("D:/old/runtimes", 100, 90).unwrap_err(),
        "D:/old/runtimes 的暂存副本校验不一致（源 100 字节，暂存 90 字节），已中止"
    );
}

#[test]
fn undo_returns_what_arrived_and_keeps_a_reappeared_source() {
    assert_eq!(undo_row(EntryState::Pending, true, false, "s").unwrap(), false);
    assert_eq!(undo_row(EntryState::Moved, false, false, "s").unwrap(), false);
    assert_eq!(undo_row(EntryState::Moving, true, false, "s").unwrap(), true);
    assert_eq!(
        undo_row(EntryState::Moved, true, true, "D:/old/config").unwrap_err(),
        "源目录 D:/old/config 已存在，已保留目标副本"
    );
}

#[test]
fn resumed_migration_moves_only_what_has_not_arrived() {
    let mut j = journal();
    j.set("instances", EntryState::Moved, 10);
    j.set("config", EntryState::Moving, 0);
    let mut moved = Vec::new();
    loop {
        match next_move_action(&j, false) {
            MoveAction::Move { kind, redo } => {
                assert_eq!(redo, kind == "config");
                j.set(&kind, EntryState::Moved, 1);
                moved.push(kind);
            }
            MoveAction::Commit => break,
            MoveAction::Stop => panic!("not cancelled"),
        }
    }
    assert_eq!(moved, vec!["versions", "runtimes", "config", "cache"]);
    let (kinds, bytes) = j.moved_kinds();
    assert_eq!(kinds, vec!["instances", "versions", "runtimes", "config", "cache"]);
    assert_eq!(bytes, 14);
}

#[test]
fn undo_after_a_passing_preflight_never_stops() {
    let mut j = journal();
    j.set("instances", EntryState::Moved, 10);
    let probes: Vec<EntryProbe> = ["instances", "versions", "runtimes", "config", "cache"]
        .iter()
        .map(|k| EntryProbe {
            src: format!("D:/old/{k}"),
            dst: format!("E:/new/{k}"),
            src_exists: *k != "instances",
            dst_exists: *k == "instances",
        })
        .collect();
    assert_eq!(undo_preflight(&j, &probes), Ok(()));
    let back: Vec<bool> = j
        .entries
        .iter()
        .zip(&probes)
        .map(|(e, p)| undo_row(e.state, p.dst_exists, p.src_exists, &p.src).unwrap())
        .collect();
    assert_eq!(back, vec![true, false, false, false, false]);
}

#[test]
fn nested_roots_refuse_the_same_root() {
    assert!(phl::storage::roots_nested("/data", "/data", '/'));
    assert!(phl::storage::roots_nested("C:\\phl", "C:\\phl\\new", '\\'));
}

fn dest(kind: &str, src_exists: bool, dst_exists: bool, dst_nonempty: bool) -> phl::storage::DestProbe {
    phl::storage::DestProbe {
        kind: kind.into(),
        src: format!("D:/old/{kind}"),
        dst: format!("E:/new/{kind}"),
        src_exists,
        dst_exists,
        dst_nonempty,
    }
}

#[test]
fn late_destination_conflict_is_found_before_any_move() {
    let j = journal();
    let probes = vec![
        dest("instances", true, false, false),
        dest("versions", false, false, false),
        dest("runtimes", false, false, false),
        dest("config", true, true, true),
        dest("cache", false, false, false),
    ];
    assert_eq!(
        phl::storage::destinations_preflight(&j, &probes).unwrap_err(),
        "目标已存在非空目录 E:/new/config —— 请改用一个空目录"
    );
    let ok = vec![dest("instances", true, true, false), dest("config", true, false, false)];
    assert_eq!(phl::storage::destinations_preflight(&j, &ok), Ok(()));
}

#[test]
fn config_only_root_lists_only_what_moved() {
    let mut j = journal();
    let mut moved: Vec<String> = Vec::new();
    let mut total: u64 = 0;
    loop {
        match next_move_action(&j, false) {
            MoveAction::Move { kind, .. } => {
                let present = kind == "config";
                phl::storage::record_arrival(&mut j, &mut moved, &mut total, &kind, present, if present { 11 } else { 0 });
            }
            MoveAction::Commit => break,
            MoveAction::Stop => panic!("not cancelled"),
        }
    }
    assert_eq!(moved, vec!["config"]);
    assert_eq!(total, 11);
    assert_eq!(j.entry("instances"), EntryState::Moved);
}

#[test]
fn undo_plan_returns_everything_moved() {
    let mut j = journal();
    j.set("instances", EntryState::Moved, 10);
    j.set("config", EntryState::Moved, 3);
    let probes: Vec<EntryProbe> = ["instances", "versions", "runtimes", "config", "cache"]
        .iter()
        .map(|k| EntryProbe {
            src: format!("D:/old/{k}"),
            dst: format!("E:/new/{k}"),
            src_exists: !(*k == "instances" || *k == "config"),
            dst_exists: *k == "instances" || *k == "config",
        })
        .collect();
    assert_eq!(phl::storage::undo_plan(&j, &probes).unwrap(), vec!["instances", "config"]);
    let mut committed = journal();
    committed.committed = true;
    assert_eq!(
        phl::storage::undo_plan(&committed, &probes).unwrap_err(),
        "迁移已完成提交，不能整体撤销"
    );
}
