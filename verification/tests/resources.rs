use phl::resources::{
    begin_refused, describe, duplicate_task_message, next_task_id, settle, Resource,
    ResourceLocks, TaskState,
};

fn instance(id: &str) -> Resource {
    Resource::Instance(id.to_string())
}

#[test]
fn same_resource_is_exclusive_and_releases_after_the_guard_drops() {
    let mut locks = ResourceLocks::new();
    let held = locks.acquire(&[instance("main")]).unwrap();
    let err = locks.acquire(&[instance("main")]).unwrap_err();
    assert!(err.message().contains("实例 main"), "{}", err.message());
    locks.release(held);
    assert!(locks.acquire(&[instance("main")]).is_ok());
}

#[test]
fn unrelated_resources_never_block_each_other() {
    let mut locks = ResourceLocks::new();
    let _a = locks.acquire(&[instance("main")]).unwrap();
    let _b = locks.acquire(&[instance("other")]).unwrap();
    let _c = locks
        .acquire(&[Resource::Version("0.17.3".into())])
        .unwrap();
    let _d = locks
        .acquire(&[Resource::Runtime("node-22".into())])
        .unwrap();
}

#[test]
fn migration_is_exclusive_with_everything_both_ways() {
    let mut locks = ResourceLocks::new();
    let root = locks.acquire(&[Resource::DataRoot]).unwrap();
    assert!(locks.acquire(&[instance("main")]).is_err());
    assert!(locks.acquire(&[Resource::Version("1".into())]).is_err());
    locks.release(root);
    let inst = locks.acquire(&[instance("main")]).unwrap();
    assert!(locks.acquire(&[Resource::DataRoot]).is_err());
    locks.release(inst);
    assert!(locks.acquire(&[Resource::DataRoot]).is_ok());
}

#[test]
fn multi_resource_acquire_is_all_or_nothing() {
    let mut locks = ResourceLocks::new();
    let busy = locks.acquire(&[instance("dst")]).unwrap();
    let err = locks
        .acquire(&[instance("src"), instance("dst")])
        .expect_err("the busy side must refuse the whole pair");
    assert!(err.resource.contains("dst"));
    locks.release(busy);
    assert!(locks.acquire(&[instance("src")]).is_ok());
}

#[test]
fn a_migration_blocked_by_a_live_operation_names_the_resource() {
    let mut locks = ResourceLocks::new();
    let _inst = locks.acquire(&[instance("main")]).unwrap();
    let err = locks.acquire(&[Resource::DataRoot]).unwrap_err();
    assert_eq!(err.resource, "root");
    assert_eq!(err.held_by, "instance:main");
    assert_eq!(err.message(), "数据目录 正被另一个操作占用，请等待其完成后重试");
    let mut locks = ResourceLocks::new();
    let _root = locks.acquire(&[Resource::DataRoot]).unwrap();
    let err = locks.acquire(&[Resource::Version("0.17.3".into())]).unwrap_err();
    assert_eq!(err.message(), "版本 0.17.3 正被数据目录迁移占用，迁移完成后才能操作");
}

#[test]
fn keys_and_their_descriptions() {
    assert_eq!(instance("main").key(), "instance:main");
    assert_eq!(Resource::Version("1.2".into()).key(), "version:1.2");
    assert_eq!(Resource::Runtime("node-22".into()).key(), "runtime:node-22");
    assert_eq!(Resource::DataRoot.key(), "root");
    assert_eq!(describe("runtime:node-22"), "Runtime node-22");
    assert_eq!(describe("root"), "数据目录");
}

#[test]
fn snapshot_lists_held_keys_sorted_and_release_empties_it() {
    let mut locks = ResourceLocks::new();
    let a = locks
        .acquire(&[Resource::Version("2".into()), instance("b"), instance("a")])
        .unwrap();
    assert_eq!(
        locks.snapshot(),
        vec![
            "instance:a".to_string(),
            "instance:b".to_string(),
            "version:2".to_string()
        ]
    );
    locks.release(a);
    assert!(locks.snapshot().is_empty());
}

#[test]
fn task_ids_count_up_and_wrap() {
    let mut seq: u64 = 7;
    assert_eq!(next_task_id("copy", &mut seq), "task-copy-7");
    assert_eq!(seq, 8);
    let mut top = u64::MAX;
    assert_eq!(next_task_id("x", &mut top), format!("task-x-{}", u64::MAX));
    assert_eq!(top, 0);
}

#[test]
fn a_finished_task_settles_by_outcome_and_cancellation() {
    assert_eq!(settle(Ok(()), false, false), (TaskState::Done, None));
    assert_eq!(
        settle(Err("boom".into()), false, false),
        (TaskState::Failed, Some("boom".to_string()))
    );
    assert_eq!(settle(Err("boom".into()), true, false), (TaskState::Cancelled, None));
    assert_eq!(settle(Ok(()), false, true), (TaskState::Cancelled, None));
    assert_eq!(
        settle(Err("cancelled".into()), false, false),
        (TaskState::Cancelled, None)
    );
}

#[test]
fn duplicate_live_ids_are_refused() {
    assert!(begin_refused(Some(TaskState::Running)));
    assert!(!begin_refused(Some(TaskState::Done)));
    assert!(!begin_refused(None));
    assert_eq!(duplicate_task_message("t1"), "任务 t1 正在进行中");
}

#[test]
fn resource_keys_never_collide() {
    assert_eq!(Resource::Instance("root".into()).key(), "instance:root");
    assert_ne!(Resource::Instance("root".into()).key(), Resource::DataRoot.key());
    assert_ne!(
        Resource::Version("1".into()).key(),
        Resource::Runtime("1".into()).key()
    );
    assert_eq!(Resource::Runtime("node-22".into()).key(), Resource::Runtime("node-22".into()).key());
}

#[test]
fn task_ids_from_different_counters_values_differ_across_kinds() {
    let mut n: u64 = 11;
    let a = next_task_id("a-1", &mut n);
    let b = next_task_id("a", &mut n);
    assert_eq!(a, "task-a-1-11");
    assert_eq!(b, "task-a-12");
    assert_ne!(a, b);
}
