use phl::guard::{guarded_begin, guarded_end, GuardRefusal};
use phl::resources::ResourceLocks;
use phl::resources::{Resource, TaskState};
use phl::tasks::{TaskInfo, Tasks, HISTORY_LIMIT};

fn info(id: &str, at: i64) -> TaskInfo {
    TaskInfo::new(id.to_string(), "test", String::new(), &[], at)
}

#[test]
fn history_is_capped() {
    let mut tasks = Tasks::new();
    for i in 0..(HISTORY_LIMIT + 25) {
        let id = format!("old-{i}");
        tasks.begin(info(&id, i as i64), false).unwrap();
        tasks.finish(&id, Ok(()), false, i as i64);
    }
    assert_eq!(tasks.list().len(), HISTORY_LIMIT + 1);
    assert_eq!(tasks.list()[0].id, format!("old-{}", HISTORY_LIMIT + 24));
    tasks.begin(info("newer", 1000), false).unwrap();
    assert_eq!(tasks.list().len(), HISTORY_LIMIT + 1);
    assert_eq!(
        tasks
            .list()
            .iter()
            .filter(|t| t.state == TaskState::Running)
            .count(),
        1
    );
}

#[test]
fn a_new_row_records_its_resources_and_starts_running() {
    let t = TaskInfo::new(
        "t1".into(),
        "plugin-install",
        "安装 dsh-foo".into(),
        &[Resource::Instance("main".into()), Resource::DataRoot],
        42,
    );
    assert_eq!(t.resources, vec!["instance:main".to_string(), "root".to_string()]);
    assert_eq!(t.phase, "started");
    assert_eq!(t.state, TaskState::Running);
    assert_eq!(t.started_at, 42);
    assert!(t.finished_at.is_none());
}

#[test]
fn duplicate_live_id_is_refused_not_shared() {
    let mut tasks = Tasks::new();
    tasks.begin(info("dup", 1), false).unwrap();
    let err = tasks.begin(info("dup", 2), false).unwrap_err();
    assert!(err.contains("正在进行中"), "{err}");
    assert_eq!(err, "任务 dup 正在进行中");
    tasks.finish("dup", Ok(()), false, 3);
    // A finished id can be reused; the new row replaces the old one.
    tasks.begin(info("dup", 4), false).unwrap();
    let rows = tasks.list();
    assert_eq!(rows.len(), 1);
    assert_eq!(rows[0].started_at, 4);
    assert_eq!(rows[0].state, TaskState::Running);
}

#[test]
fn guarded_records_success_phase_and_error() {
    let mut tasks = Tasks::new();
    tasks.begin(info("t1", 1), false).unwrap();
    tasks.set_phase("t1", "committing");
    tasks.finish("t1", Ok(()), false, 2);
    tasks.begin(info("t2", 3), false).unwrap();
    tasks.finish("t2", Err("磁盘满了".into()), false, 4);
    let rows = tasks.list();
    assert_eq!(rows[0].id, "t2");
    assert_eq!(rows[0].state, TaskState::Failed);
    assert_eq!(rows[0].error.as_deref(), Some("磁盘满了"));
    assert_eq!(rows[1].state, TaskState::Done);
    assert_eq!(rows[1].phase, "committing");
    assert_eq!(rows[1].finished_at, Some(2));
}

#[test]
fn cancel_via_the_flag_or_the_registry_lands_as_cancelled() {
    let mut tasks = Tasks::new();
    tasks.begin(info("t3", 1), false).unwrap();
    tasks.finish("t3", Err("cancelled".into()), true, 2);
    tasks.begin(info("t4", 3), true).unwrap();
    assert!(tasks.cancel_observed("t4", false));
    tasks.finish("t4", Ok(()), false, 4);
    tasks.begin(info("t5", 5), false).unwrap();
    assert!(!tasks.cancel_observed("t5", false));
    tasks.request_cancel("t5");
    assert!(tasks.cancel_observed("t5", false));
    tasks.finish("t5", Err("network".into()), false, 6);
    for row in tasks.list() {
        assert_eq!(row.state, TaskState::Cancelled, "{}", row.id);
        assert!(row.error.is_none());
    }
}

#[test]
fn a_panic_is_not_left_running() {
    let mut tasks = Tasks::new();
    tasks.begin(info("t6", 1), false).unwrap();
    tasks.abandon("t6", 2);
    let rows = tasks.list();
    assert_eq!(rows[0].state, TaskState::Failed);
    assert!(rows[0].error.as_deref().unwrap().contains("中断"));
    // A finished row keeps its outcome.
    tasks.finish("t6", Ok(()), false, 3);
    tasks.abandon("t6", 4);
    assert_eq!(tasks.list()[0].state, TaskState::Done);
}

#[test]
fn the_list_is_newest_first() {
    let mut tasks = Tasks::new();
    for (id, at) in [("a", 5), ("b", 9), ("c", 1), ("d", 7)] {
        tasks.begin(info(id, at), false).unwrap();
    }
    let ids: Vec<String> = tasks.list().into_iter().map(|t| t.id).collect();
    assert_eq!(ids, vec!["b", "d", "a", "c"]);
}

#[test]
fn guarded_start_refusals_leave_everything_as_it_was() {
    let mut locks = ResourceLocks::new();
    let mut tasks = Tasks::new();
    let main = [Resource::Instance("main".into())];
    let held = match guarded_begin(&mut locks, &mut tasks, info("t1", 1), &main, false) {
        Ok(h) => h,
        Err(e) => panic!("should start: {e:?}"),
    };
    assert_eq!(locks.snapshot(), vec!["instance:main".to_string()]);
    // The same resource is busy: nothing registered, nothing taken.
    match guarded_begin(&mut locks, &mut tasks, info("t2", 2), &main, false) {
        Err(GuardRefusal::Busy(c)) => assert_eq!(c.resource, "instance:main"),
        other => panic!("expected busy, got {other:?}"),
    }
    assert_eq!(tasks.list().len(), 1);
    // The same id is running: the other resource is given back.
    match guarded_begin(&mut locks, &mut tasks, info("t1", 3), &[Resource::Instance("b".into())], false) {
        Err(GuardRefusal::Duplicate(m)) => assert_eq!(m, "任务 t1 正在进行中"),
        other => panic!("expected duplicate, got {other:?}"),
    }
    assert_eq!(locks.snapshot(), vec!["instance:main".to_string()]);
    guarded_end(&mut locks, &mut tasks, held, "t1", Ok(()), false, 9);
    assert!(locks.snapshot().is_empty());
    assert_eq!(tasks.list()[0].state, TaskState::Done);
    assert_eq!(tasks.list()[0].finished_at, Some(9));
}
