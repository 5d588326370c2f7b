use chrono::DateTime;
use gantt_scheduler::date_utils::{add_business_days, sub_business_days};
use gantt_scheduler::graph_utils::{dfs, make_graph_from_tasks, make_reverse_graph, topo_order};
use gantt_scheduler::{schedule_tasks, ScheduleError, Task};

const FMT: &str = "%Y-%m-%d %H:%M:%S%.3f %z";

/// The day number of a timestamp: calendar days since 1970-01-01, which is
/// day zero of the library's calendar (a Thursday).
fn day_number(s: &str) -> i64 {
    DateTime::parse_from_str(s, FMT)
        .unwrap()
        .timestamp()
        .div_euclid(86400)
}

fn mk_task(
    id: &str,
    title: &str,
    start: i64,
    end: i64,
    duration: usize,
    position: i64,
    progress: usize,
    resource: &str,
    deps: Option<Vec<&str>>,
) -> Task {
    Task {
        id: id.to_string(),
        title: title.to_string(),
        start,
        end,
        duration,
        position,
        progress,
        resource_id: resource.to_string(),
        dependencies: deps.map(|v| v.iter().map(|s| s.to_string()).collect()),
    }
}

fn assert_identical(a: &Task, b: &Task) {
    assert_eq!(a.id, b.id);
    assert_eq!(a.title, b.title);
    assert_eq!(a.start, b.start);
    assert_eq!(a.end, b.end);
    assert_eq!(a.duration, b.duration);
    assert_eq!(a.position, b.position);
    assert_eq!(a.progress, b.progress);
    assert_eq!(a.resource_id, b.resource_id);
    assert_eq!(a.dependencies, b.dependencies);
}

#[test]
fn test_schedule_tasks() {
    let today_for_test = day_number("2020-01-01 12:29:03.274 +0000");
    let day_plus_one = day_number("2020-01-02 12:29:03.274 +0000");
    let three = day_number("2020-01-03 12:29:03.274 +0000");
    let four = day_number("2020-01-04 12:29:03.274 +0000");
    let six = day_number("2020-01-06 12:29:03.274 +0000");
    let seven = day_number("2020-01-07 12:29:03.274 +0000");
    let eight = day_number("2020-01-08 12:29:03.274 +0000");
    let nine = day_number("2020-01-09 12:29:03.274 +0000");
    let ten = day_number("2020-01-10 12:29:03.274 +0000");

    let mut tasks: Vec<Task> = vec![
        mk_task(
            "0",
            "Make scheduling algorithm",
            today_for_test,
            day_plus_one,
            2,
            0,
            0,
            "Alice",
            Some(vec!["1"]),
        ),
        mk_task(
            "1",
            "Write tests for algorithms",
            today_for_test,
            day_plus_one,
            2,
            1,
            0,
            "Bob",
            None,
        ),
        mk_task(
            "2",
            "Research a lot of gantt plotting libs",
            today_for_test,
            day_plus_one,
            2,
            2,
            0,
            "Bob",
            Some(vec!["3"]),
        ),
        mk_task("3", "Write your own", today_for_test, day_plus_one, 2, 3, 0, "Alice", None),
    ];

    let correctly_scheduled_tasks: Vec<Task> = vec![
        mk_task(
            "0",
            "Make scheduling algorithm",
            today_for_test,
            day_plus_one,
            2,
            0,
            0,
            "Alice",
            Some(vec!["1"]),
        ),
        mk_task("1", "Write tests for algorithms", three, six, 2, 1, 0, "Bob", None),
        mk_task(
            "2",
            "Research a lot of gantt plotting libs",
            seven,
            eight,
            2,
            2,
            0,
            "Bob",
            Some(vec!["3"]),
        ),
        mk_task("3", "Write your own", nine, ten, 2, 3, 0, "Alice", None),
    ];

    let mut tasks_with_progresses: Vec<Task> = vec![
        mk_task(
            "0",
            "Make scheduling algorithm",
            today_for_test,
            four,
            4,
            0,
            50,
            "Alice",
            Some(vec!["1"]),
        ),
        mk_task(
            "1",
            "Write tests for algorithms",
            today_for_test,
            day_plus_one,
            2,
            1,
            50,
            "Bob",
            None,
        ),
    ];

    let correctly_scheduled_tasks_with_progresses: Vec<Task> = vec![
        mk_task(
            "0",
            "Make scheduling algorithm",
            sub_business_days(today_for_test, 2),
            day_plus_one,
            4,
            0,
            50,
            "Alice",
            Some(vec!["1"]),
        ),
        mk_task(
            "1",
            "Write tests for algorithms",
            add_business_days(today_for_test, 1),
            three,
            2,
            1,
            50,
            "Bob",
            None,
        ),
    ];

    schedule_tasks(&mut tasks, today_for_test).unwrap();
    assert_eq!(tasks, correctly_scheduled_tasks);

    schedule_tasks(&mut tasks_with_progresses, today_for_test).unwrap();
    assert_eq!(tasks_with_progresses, correctly_scheduled_tasks_with_progresses);
}

#[test]
fn test_gated_task_dates() {
    // Epoch 2020-01-01 is a Wednesday. Task "a" gates task "b" and is a
    // fixed anchor: it keeps its dates. Task "b" starts one business day
    // after "a" ends (Friday 2020-01-03) and its two-day duration ends on
    // Monday 2020-01-06, skipping the weekend.
    let epoch = day_number("2020-01-01 12:29:03.274 +0000");
    let jan2 = day_number("2020-01-02 12:29:03.274 +0000");
    let jan3 = day_number("2020-01-03 12:29:03.274 +0000");
    let jan6 = day_number("2020-01-06 12:29:03.274 +0000");
    let mut tasks = vec![
        mk_task("a", "anchor", epoch, jan2, 2, 0, 0, "X", Some(vec!["b"])),
        mk_task("b", "follower", epoch, jan2, 2, 1, 0, "Y", None),
    ];
    schedule_tasks(&mut tasks, epoch).unwrap();
    assert_eq!(tasks[0].start, epoch);
    assert_eq!(tasks[0].end, jan2);
    assert_eq!(tasks[1].start, jan3);
    assert_eq!(tasks[1].end, jan6);
}

#[test]
fn test_progress_backdating() {
    // An isolated task, half done, with a duration of four business days:
    // two completed days are subtracted from the epoch's business day
    // (Wednesday 2020-01-01), giving Monday 2019-12-30; three more business
    // days end it on Thursday 2020-01-02.
    let epoch = day_number("2020-01-01 12:29:03.274 +0000");
    let dec30 = day_number("2019-12-30 12:29:03.274 +0000");
    let jan2 = day_number("2020-01-02 12:29:03.274 +0000");
    let mut tasks = vec![mk_task("t", "half done", epoch, epoch, 4, 0, 50, "X", None)];
    schedule_tasks(&mut tasks, epoch).unwrap();
    assert_eq!(tasks[0].start, dec30);
    assert_eq!(tasks[0].end, jan2);
}

#[test]
fn test_two_disjoint_clusters() {
    // Two fully unrelated clusters must both be scheduled in one call.
    let epoch = day_number("2020-01-01 12:29:03.274 +0000");
    let jan2 = day_number("2020-01-02 12:29:03.274 +0000");
    let jan3 = day_number("2020-01-03 12:29:03.274 +0000");
    let jan6 = day_number("2020-01-06 12:29:03.274 +0000");
    let mut tasks = vec![
        mk_task("a1", "first anchor", epoch, jan2, 2, 0, 0, "R1", Some(vec!["a2"])),
        mk_task("a2", "first follower", epoch, jan2, 2, 0, 0, "R2", None),
        mk_task("b1", "second anchor", epoch, jan2, 2, 0, 0, "R3", Some(vec!["b2"])),
        mk_task("b2", "second follower", epoch, jan2, 2, 0, 0, "R4", None),
    ];
    schedule_tasks(&mut tasks, epoch).unwrap();
    // Both anchors untouched, both followers moved past their anchor's end.
    assert_eq!(tasks[0].start, epoch);
    assert_eq!(tasks[2].start, epoch);
    assert_eq!(tasks[1].start, jan3);
    assert_eq!(tasks[1].end, jan6);
    assert_eq!(tasks[3].start, jan3);
    assert_eq!(tasks[3].end, jan6);
}

#[test]
fn test_schedule_idempotent() {
    // A second pass over an already-scheduled collection changes nothing.
    let epoch = day_number("2020-01-01 12:29:03.274 +0000");
    let jan2 = day_number("2020-01-02 12:29:03.274 +0000");
    let mut tasks = vec![
        mk_task("0", "one", epoch, jan2, 2, 0, 0, "Alice", Some(vec!["1"])),
        mk_task("1", "two", epoch, jan2, 3, 1, 50, "Bob", None),
        mk_task("2", "three", epoch, jan2, 2, 2, 0, "Bob", Some(vec!["3"])),
        mk_task("3", "four", epoch, jan2, 2, 3, 0, "Alice", None),
        mk_task("4", "alone", epoch, jan2, 4, 0, 25, "Carol", None),
    ];
    schedule_tasks(&mut tasks, epoch).unwrap();
    let first_pass = tasks.clone();
    schedule_tasks(&mut tasks, epoch).unwrap();
    assert_eq!(tasks.len(), first_pass.len());
    for (a, b) in tasks.iter().zip(first_pass.iter()) {
        assert_identical(a, b);
    }
}

#[test]
fn test_unresolved_reference() {
    let epoch = day_number("2020-01-01 12:29:03.274 +0000");
    let mut tasks = vec![
        mk_task("a", "broken", epoch, epoch, 2, 0, 0, "X", Some(vec!["missing"])),
    ];
    let before = tasks.clone();
    let err = schedule_tasks(&mut tasks, epoch).unwrap_err();
    assert_eq!(err, ScheduleError::UnresolvedReference("missing".to_string()));
    // The collection is left untouched on failure.
    for (a, b) in tasks.iter().zip(before.iter()) {
        assert_identical(a, b);
    }
}

#[test]
fn test_cyclic_dependency() {
    let epoch = day_number("2020-01-01 12:29:03.274 +0000");
    let mut tasks = vec![
        mk_task("a", "first", epoch, epoch, 2, 0, 0, "X", Some(vec!["b"])),
        mk_task("b", "second", epoch, epoch, 2, 0, 0, "Y", Some(vec!["a"])),
    ];
    let err = schedule_tasks(&mut tasks, epoch).unwrap_err();
    assert_eq!(err, ScheduleError::CyclicDependency);
}

#[test]
fn test_resource_lane_cycle() {
    // The resource lane orders "b" after "a", while "b" declares that it
    // gates "a": together that is a cycle.
    let epoch = day_number("2020-01-01 12:29:03.274 +0000");
    let mut tasks = vec![
        mk_task("a", "first", epoch, epoch, 2, 0, 0, "X", None),
        mk_task("b", "second", epoch, epoch, 2, 1, 0, "X", Some(vec!["a"])),
    ];
    let err = schedule_tasks(&mut tasks, epoch).unwrap_err();
    assert_eq!(err, ScheduleError::CyclicDependency);
}

#[test]
fn test_make_graph_edges() {
    let epoch = day_number("2020-01-01 12:29:03.274 +0000");
    let jan2 = day_number("2020-01-02 12:29:03.274 +0000");
    let tasks = vec![
        mk_task("0", "one", epoch, jan2, 2, 0, 0, "Alice", Some(vec!["1"])),
        mk_task("1", "two", epoch, jan2, 2, 1, 0, "Bob", None),
        mk_task("2", "three", epoch, jan2, 2, 2, 0, "Bob", Some(vec!["3"])),
        mk_task("3", "four", epoch, jan2, 2, 3, 0, "Alice", None),
    ];
    let graph = make_graph_from_tasks(&tasks).unwrap();
    // Declared gates 0 -> 1 and 2 -> 3, plus the resource lanes
    // Alice: 0 -> 3 and Bob: 1 -> 2.
    let mut rows: Vec<Vec<usize>> = graph.iter().cloned().collect();
    for row in rows.iter_mut() {
        row.sort();
    }
    assert_eq!(rows, vec![vec![1, 3], vec![2], vec![3], vec![]]);

    let rev = make_reverse_graph(&graph);
    assert_eq!(rev, vec![vec![], vec![0], vec![1], vec![0, 2]]);

    let order = topo_order(&graph).unwrap();
    assert_eq!(order, vec![0, 1, 2, 3]);
}

#[test]
fn test_dfs_covers_all_components() {
    // Two disjoint components: the walk must visit every node exactly once.
    let graph: Vec<Vec<usize>> = vec![vec![1], vec![], vec![3], vec![], vec![]];
    let mut order = dfs(&graph);
    assert_eq!(order.len(), 5);
    order.sort();
    assert_eq!(order, vec![0, 1, 2, 3, 4]);
}

#[test]
fn test_duplicate_position_tie_break() {
    // Two tasks of one resource share a position: the tie is broken by
    // input order, deterministically, so the first one gates the second.
    let epoch = day_number("2020-01-01 12:29:03.274 +0000");
    let jan2 = day_number("2020-01-02 12:29:03.274 +0000");
    let jan3 = day_number("2020-01-03 12:29:03.274 +0000");
    let jan6 = day_number("2020-01-06 12:29:03.274 +0000");
    let mut tasks = vec![
        mk_task("a", "first", epoch, jan2, 2, 5, 0, "X", None),
        mk_task("b", "second", epoch, jan2, 2, 5, 0, "X", None),
    ];
    schedule_tasks(&mut tasks, epoch).unwrap();
    // "a" anchors the lane and keeps its dates; "b" follows it.
    assert_eq!(tasks[0].start, epoch);
    assert_eq!(tasks[0].end, jan2);
    assert_eq!(tasks[1].start, jan3);
    assert_eq!(tasks[1].end, jan6);
}
