use kvx::queue::{lock_scope, now, running_key, ScheduleMode};
use kvx::{KeyValueStore, Namespace, Segment};
use serde_json::Value;

fn queue_store(ns: &str) -> KeyValueStore {
    KeyValueStore::new_memory(Namespace::parse(ns).unwrap())
}

#[test]
fn test_reschedule_long_running() {
    let mut queue = queue_store("test_cleanup_queue");
    queue.clear().unwrap();

    let name = "job";
    let segment = Segment::parse(name).unwrap();
    let value = Value::from("value");

    queue
        .schedule_task(segment, value, None, ScheduleMode::FinishOrReplaceExisting)
        .unwrap();

    assert_eq!(queue.pending_tasks_remaining().unwrap(), 1);

    let job = queue.claim_scheduled_pending_task().unwrap();

    assert!(job.is_some());
    assert_eq!(queue.pending_tasks_remaining().unwrap(), 0);

    let job = queue.claim_scheduled_pending_task().unwrap();

    assert!(job.is_none());

    queue.reschedule_long_running_tasks(Some(0)).unwrap();

    let existing = queue
        .pending_task_scheduled(Segment::parse(name).unwrap())
        .unwrap();

    assert!(existing.is_some());
    assert_eq!(queue.pending_tasks_remaining().unwrap(), 1);

    let job = queue.claim_scheduled_pending_task().unwrap();

    assert!(job.is_some());
    assert_eq!(queue.pending_tasks_remaining().unwrap(), 0);
}

#[test]
fn test_reschedule_finished_task() {
    let mut queue = queue_store("test_cleanup_queue2");
    queue.clear().unwrap();

    let name = "task";
    let segment = Segment::parse(name).unwrap();
    let value = Value::from("value");

    queue
        .schedule_task(segment, value, None, ScheduleMode::FinishOrReplaceExisting)
        .unwrap();
    assert_eq!(queue.pending_tasks_remaining().unwrap(), 1);

    let running_task = queue.claim_scheduled_pending_task().unwrap().unwrap();
    assert_eq!(queue.pending_tasks_remaining().unwrap(), 0);
    assert_eq!(queue.running_tasks_remaining().unwrap(), 1);

    queue
        .schedule_task(
            running_task.name,
            running_task.value,
            Some(now()),
            ScheduleMode::FinishOrReplaceExisting,
        )
        .unwrap();

    assert_eq!(queue.pending_tasks_remaining().unwrap(), 1);
    assert_eq!(queue.running_tasks_remaining().unwrap(), 0);

    let running_task = queue.claim_scheduled_pending_task().unwrap().unwrap();
    assert_eq!(queue.pending_tasks_remaining().unwrap(), 0);
    queue
        .finish_running_task(&running_key(running_task.timestamp, &running_task.name))
        .unwrap();

    assert_eq!(queue.pending_tasks_remaining().unwrap(), 0);
}

#[test]
fn test_schedule_with_existing_task() {
    let mut queue = queue_store("test_cleanup_queue3");
    queue.clear().unwrap();

    let name = Segment::parse("task").unwrap();
    let value_1 = Value::from("value_1");
    let value_2 = Value::from("value_2");

    let in_a_while = now() + 180;

    // Schedule a task, and then schedule again replacing the old.
    {
        queue
            .schedule_task(
                name.clone(),
                value_1.clone(),
                None,
                ScheduleMode::FinishOrReplaceExisting,
            )
            .unwrap();
        assert_eq!(queue.pending_tasks_remaining().unwrap(), 1);

        queue
            .schedule_task(
                name.clone(),
                value_2.clone(),
                None,
                ScheduleMode::FinishOrReplaceExisting,
            )
            .unwrap();
        assert_eq!(queue.pending_tasks_remaining().unwrap(), 1);

        let task = queue.claim_scheduled_pending_task().unwrap().unwrap();
        assert_eq!(task.value, value_2);

        assert_eq!(queue.running_tasks_remaining().unwrap(), 1);
        queue
            .finish_running_task(&running_key(task.timestamp, &task.name))
            .unwrap();
    }

    // Schedule a task, and then schedule again keeping the old.
    {
        queue
            .schedule_task(
                name.clone(),
                value_1.clone(),
                None,
                ScheduleMode::FinishOrReplaceExisting,
            )
            .unwrap();
        queue
            .schedule_task(
                name.clone(),
                value_2.clone(),
                Some(in_a_while),
                ScheduleMode::IfMissing,
            )
            .unwrap();

        assert_eq!(queue.pending_tasks_remaining().unwrap(), 1);
        let task = queue.claim_scheduled_pending_task().unwrap().unwrap();
        assert_eq!(task.value, value_1);
    }

    // Schedule a task, and then schedule again rescheduling it.
    {
        queue
            .schedule_task(
                name.clone(),
                value_1.clone(),
                None,
                ScheduleMode::FinishOrReplaceExisting,
            )
            .unwrap();

        assert_eq!(queue.pending_tasks_remaining().unwrap(), 1);

        queue
            .schedule_task(
                name.clone(),
                value_2.clone(),
                Some(in_a_while),
                ScheduleMode::FinishOrReplaceExisting,
            )
            .unwrap();

        assert!(queue.claim_scheduled_pending_task().unwrap().is_none());
    }

    // Schedule a task, claim it, and then finish and schedule a new task.
    {
        queue.clear().unwrap();
        queue
            .schedule_task(
                name.clone(),
                value_1.clone(),
                None,
                ScheduleMode::FinishOrReplaceExisting,
            )
            .unwrap();

        assert_eq!(queue.pending_tasks_remaining().unwrap(), 1);
        assert_eq!(queue.running_tasks_remaining().unwrap(), 0);

        let task = queue.claim_scheduled_pending_task().unwrap().unwrap();
        assert_eq!(task.value, value_1);
        assert_eq!(queue.pending_tasks_remaining().unwrap(), 0);
        assert_eq!(queue.running_tasks_remaining().unwrap(), 1);

        queue
            .schedule_task(
                name.clone(),
                value_2.clone(),
                None,
                ScheduleMode::FinishOrReplaceExisting,
            )
            .unwrap();

        assert_eq!(queue.running_tasks_remaining().unwrap(), 0);
        assert_eq!(queue.pending_tasks_remaining().unwrap(), 1);

        let task = queue.claim_scheduled_pending_task().unwrap().unwrap();
        assert_eq!(task.value, value_2);
    }
}

#[test]
fn queue_workers_drain_the_queue() {
    let mut queue = queue_store("test_queue");
    queue.clear().unwrap();

    for i in 1..=10 {
        let name = format!("job-{i}");
        let segment = Segment::parse(&name).unwrap();
        let value = Value::from("value");
        queue
            .schedule_task(segment, value, None, ScheduleMode::FinishOrReplaceExisting)
            .unwrap();
    }
    assert_eq!(queue.pending_tasks_remaining().unwrap(), 10);

    let mut claimed = 0;
    while queue.pending_tasks_remaining().unwrap() > 0 {
        if let Some(running_task) = queue.claim_scheduled_pending_task().unwrap() {
            claimed += 1;
            queue
                .finish_running_task(&running_key(running_task.timestamp, &running_task.name))
                .unwrap();
        }
    }

    assert_eq!(claimed, 10);
    assert_eq!(queue.pending_tasks_remaining().unwrap(), 0);
    assert_eq!(queue.running_tasks_remaining().unwrap(), 0);
}

#[test]
fn claim_prefers_the_earliest_task() {
    let mut queue = queue_store("test_order_queue");
    let t = now();
    queue
        .schedule_task(
            Segment::parse("late").unwrap(),
            Value::from("l"),
            Some(t.saturating_sub(10)),
            ScheduleMode::FinishOrReplaceExisting,
        )
        .unwrap();
    queue
        .schedule_task(
            Segment::parse("early").unwrap(),
            Value::from("e"),
            Some(t.saturating_sub(100)),
            ScheduleMode::FinishOrReplaceExisting,
        )
        .unwrap();
    let first = queue.claim_scheduled_pending_task().unwrap().unwrap();
    assert_eq!(first.name.as_str(), "early");
    let second = queue.claim_scheduled_pending_task().unwrap().unwrap();
    assert_eq!(second.name.as_str(), "late");
    assert_eq!(queue.running_tasks_keys().unwrap().len(), 2);
}

#[test]
fn queue_lock_scope_is_global() {
    assert!(lock_scope().is_global());
}

#[test]
fn finish_unknown_task_fails() {
    let mut queue = queue_store("test_finish_queue");
    let missing = running_key(now(), &Segment::parse("ghost").unwrap());
    assert!(matches!(
        queue.finish_running_task(&missing),
        Err(kvx::Error::Other(_))
    ));
}

#[test]
fn reschedule_running_task_moves_it_back() {
    let mut queue = queue_store("test_back_queue");
    queue
        .schedule_task(
            Segment::parse("job").unwrap(),
            Value::from("v"),
            None,
            ScheduleMode::FinishOrReplaceExisting,
        )
        .unwrap();
    let task = queue.claim_scheduled_pending_task().unwrap().unwrap();
    let rkey = running_key(task.timestamp, &task.name);
    queue.reschedule_running_task(&rkey, Some(now())).unwrap();
    assert_eq!(queue.running_tasks_remaining().unwrap(), 0);
    assert_eq!(queue.pending_tasks_remaining().unwrap(), 1);
}

#[test]
fn task_selection_decisions() {
    let t = now();
    let mut queue = queue_store("test_select_queue");
    queue
        .schedule_task(
            Segment::parse("a").unwrap(),
            Value::from(1),
            Some(t.saturating_sub(5)),
            ScheduleMode::FinishOrReplaceExisting,
        )
        .unwrap();
    queue
        .schedule_task(
            Segment::parse("b").unwrap(),
            Value::from(2),
            Some(t.saturating_sub(9)),
            ScheduleMode::FinishOrReplaceExisting,
        )
        .unwrap();
    queue
        .schedule_task(
            Segment::parse("c").unwrap(),
            Value::from(3),
            Some(t + 100),
            ScheduleMode::FinishOrReplaceExisting,
        )
        .unwrap();
    let keys = queue.list_keys(&kvx::queue::pending_scope()).unwrap();
    let (i, due_ts) = kvx::queue::select_due_task(&keys, t).unwrap();
    assert_eq!(due_ts, t.saturating_sub(9));
    let (ts, name) = kvx::queue::decode_task_name(keys[i].name()).unwrap();
    assert_eq!(ts, due_ts);
    assert_eq!(name.as_str(), "b");
    let found =
        kvx::queue::find_task_named(&keys, &kvx::queue::pending_scope(), &name).unwrap();
    assert_eq!(keys[found].name().as_str(), keys[i].name().as_str());
    assert!(kvx::queue::find_task_named(
        &keys,
        &kvx::queue::pending_scope(),
        &Segment::parse("ghost").unwrap()
    )
    .is_none());
}

#[test]
fn sweep_leaves_fresh_tasks_alone() {
    let mut queue = queue_store("test_sweep_queue");
    let t = now();
    queue
        .schedule_task(
            Segment::parse("waiting").unwrap(),
            Value::from("w"),
            Some(t + 300),
            ScheduleMode::FinishOrReplaceExisting,
        )
        .unwrap();
    queue
        .schedule_task(
            Segment::parse("fresh").unwrap(),
            Value::from("f"),
            Some(t.saturating_sub(1)),
            ScheduleMode::FinishOrReplaceExisting,
        )
        .unwrap();
    let claimed = queue.claim_scheduled_pending_task().unwrap().unwrap();
    assert_eq!(claimed.name.as_str(), "fresh");

    // A generous cutoff reschedules nothing: the fresh running task and the
    // waiting pending task both survive untouched.
    queue.reschedule_long_running_tasks(Some(3600)).unwrap();
    assert_eq!(queue.running_tasks_remaining().unwrap(), 1);
    assert_eq!(queue.pending_tasks_remaining().unwrap(), 1);
    assert!(queue
        .pending_task_scheduled(Segment::parse("waiting").unwrap())
        .unwrap()
        .is_some());
}
