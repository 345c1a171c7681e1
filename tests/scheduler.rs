use dagrun::names::{contains_name, same_name};
use dagrun::{exector_wapper, Executor, Graph, Manager, ScheduleError, Status, TracingInfo, TracingInfoManager};

#[derive(Debug, PartialEq)]
struct Job(&'static str);

impl Executor for Job {
    fn name(&self) -> &'static str {
        self.0
    }
}

fn names(tasks: &[(&'static str, Job)]) -> Vec<&'static str> {
    let mut v: Vec<&'static str> = tasks.iter().map(|t| t.0).collect();
    v.sort();
    v
}

fn manager_with(tasks: &[&'static str]) -> Manager<Job> {
    let mut m = Manager::new(1000);
    for t in tasks {
        m.add_exector(Job(t)).unwrap();
    }
    m
}

fn info(m: &Manager<Job>, name: &str) -> TracingInfo {
    m.tracing_info(name).unwrap()
}

#[test]
fn names_compare_by_characters() {
    let owned = String::from("build");
    let a: &str = owned.as_str();
    assert!(same_name(a, "build"));
    assert!(!same_name("build", "built"));
    assert!(!same_name("build", "buil"));
    assert!(same_name("", ""));
    let list = vec!["a", "bb", "c"];
    assert!(contains_name(&list, "bb"));
    assert!(!contains_name(&list, "b"));
}

#[test]
fn edge_added_twice_is_added_once() {
    let mut g = Graph::new();
    g.add_edge("a", "b");
    g.add_edge("a", "b");
    assert_eq!(g.dependents("a").unwrap(), &vec!["b"]);
    assert_eq!(g.prerequisites("b").unwrap(), &vec!["a"]);
    assert!(g.contains_edge("a", "b"));
    assert!(!g.contains_edge("b", "a"));
    assert!(g.dependents("b").is_none());
    assert!(g.prerequisites("a").is_none());
}

#[test]
fn edges_keep_declaration_order() {
    let mut m = manager_with(&["a", "b", "c", "d"]);
    m.add_edges("a", vec!["b", "c", "b"]);
    m.add_deps("d", vec!["b", "c"]);
    m.add_dep("d", "b");
    let started = m.begin_at(1).unwrap();
    assert_eq!(names(&started), vec!["a"]);
    let next = m.finish_at("a", 2);
    assert_eq!(next.iter().map(|t| t.0).collect::<Vec<_>>(), vec!["b", "c"]);
}

#[test]
fn duplicate_identity_is_rejected() {
    let mut m: Manager<Job> = Manager::new(10);
    assert!(m.add_exector(Job("a")).is_ok());
    match m.add_exector(Job("a")) {
        Err(ScheduleError::DuplicateTask(n)) => assert_eq!(n, "a"),
        other => panic!("expected a duplicate, got {:?}", other),
    }
    let started = m.begin_at(5).unwrap();
    assert_eq!(names(&started), vec!["a"]);
    assert!(m.all_started());
}

#[test]
fn batch_registration_stops_at_duplicate() {
    let mut m: Manager<Job> = Manager::new(10);
    let r = m.add_exectors(vec![Job("a"), Job("b"), Job("a"), Job("c")]);
    match r {
        Err(ScheduleError::DuplicateTask(n)) => assert_eq!(n, "a"),
        other => panic!("expected a duplicate, got {:?}", other),
    }
    assert!(m.tracing_info("a").is_some());
    assert!(m.tracing_info("b").is_some());
    assert!(m.tracing_info("c").is_none());
    assert!(m.add_exectors(vec![Job("d"), Job("e")]).is_ok());
    assert!(m.tracing_info("e").is_some());
}

#[test]
fn no_start_node_fails_before_any_start() {
    let mut m = manager_with(&["a", "b"]);
    m.add_dep("a", "b");
    m.add_dep("b", "a");
    match m.begin_at(7) {
        Err(ScheduleError::NoStartNodes) => {}
        other => panic!("expected no start nodes, got {:?}", other.map(|v| names(&v))),
    }
    assert_eq!(info(&m, "a").status, Status::NotStarted);
    assert_eq!(info(&m, "b").status, Status::NotStarted);
    assert!(!m.all_started());
}

#[test]
fn cycle_behind_start_fails_before_any_start() {
    let mut m = manager_with(&["s", "a", "b"]);
    m.add_edge("s", "a");
    m.add_edge("a", "b");
    m.add_edge("b", "a");
    match m.begin_at(7) {
        Err(ScheduleError::Blocked(mut b)) => {
            b.sort();
            assert_eq!(b, vec!["a", "b"]);
        }
        other => panic!("expected a cycle, got {:?}", other.map(|v| names(&v))),
    }
    for n in ["s", "a", "b"] {
        assert_eq!(info(&m, n).status, Status::NotStarted);
    }
    assert!(m.pre_check_and_find_start_nodes().is_err());
}

#[test]
fn self_loop_is_a_cycle() {
    let mut m = manager_with(&["s", "a"]);
    m.add_edge("s", "a");
    m.add_edge("a", "a");
    assert!(matches!(m.pre_check_and_find_start_nodes(), Err(ScheduleError::Blocked(_))));
}

#[test]
fn dependency_on_unknown_task_is_refused() {
    let mut m = manager_with(&["s", "a"]);
    m.add_dep("a", "ghost");
    match m.pre_check_and_find_start_nodes() {
        Err(ScheduleError::UnknownTask(n)) => assert_eq!(n, "ghost"),
        other => panic!("expected an unknown task, got {:?}", other),
    }
}

#[test]
fn cycle_of_unregistered_identities_is_refused() {
    let mut m = manager_with(&["S"]);
    m.add_edge("S", "X");
    m.add_edge("X", "Y");
    m.add_edge("Y", "X");
    match m.begin_at(3) {
        Err(ScheduleError::UnknownTask(n)) => assert!(n == "X" || n == "Y"),
        other => panic!("expected an unknown task, got {:?}", other.map(|v| names(&v))),
    }
    assert_eq!(info(&m, "S").status, Status::NotStarted);
    assert!(!m.all_started());
}

#[test]
fn register_under_reported_name() {
    let mut m: Manager<Job> = Manager::new(10);
    assert!(m.register("a", Job("a")).is_ok());
    assert!(m.is_pending("a"));
    assert!(!m.is_pending("b"));
    match m.register("a", Job("a")) {
        Err(ScheduleError::DuplicateTask(n)) => assert_eq!(n, "a"),
        other => panic!("expected a duplicate, got {:?}", other),
    }
    assert!(m.register("b", Job("b")).is_ok());
    assert_eq!(names(&m.begin_at(1).unwrap()), vec!["a", "b"]);
    assert!(!m.is_pending("a"));
}

#[test]
fn diamond_runs_in_dependency_order() {
    let mut m = manager_with(&["A", "B", "C", "D"]);
    m.add_edge("A", "B");
    m.add_edge("A", "C");
    m.add_edge("B", "D");
    m.add_edge("C", "D");
    assert_eq!(m.pre_check_and_find_start_nodes().unwrap(), vec!["A"]);
    let started = m.begin_at(100).unwrap();
    assert_eq!(names(&started), vec!["A"]);
    assert_eq!(info(&m, "A").status, Status::Doing);
    assert_eq!(info(&m, "A").start_time, 100);

    let next = m.finish_at("A", 200);
    assert_eq!(names(&next), vec!["B", "C"]);
    assert_eq!(info(&m, "B").start_time, 200);
    assert_eq!(info(&m, "C").start_time, 200);

    let next = m.finish_at("B", 300);
    assert!(next.is_empty());
    assert_eq!(info(&m, "D").status, Status::NotStarted);

    let next = m.finish_at("C", 350);
    assert_eq!(names(&next), vec!["D"]);
    let d = info(&m, "D");
    let b = info(&m, "B");
    let c = info(&m, "C");
    assert!(d.start_time >= b.end_time.max(c.end_time));

    assert!(m.finish_at("D", 400).is_empty());
    assert!(m.all_started());
    for n in ["A", "B", "C", "D"] {
        assert_eq!(info(&m, n).status, Status::Done);
    }
    assert_eq!(
        info(&m, "D"),
        TracingInfo { status: Status::Done, start_time: 350, end_time: 400 }
    );
}

#[test]
fn failed_task_still_releases_its_dependent() {
    let mut m = manager_with(&["X", "Y"]);
    m.add_dep("Y", "X");
    let started = m.begin_at(10).unwrap();
    assert_eq!(names(&started), vec!["X"]);
    // X's run failed; it is ready all the same.
    let next = m.finish_at("X", 20);
    assert_eq!(names(&next), vec!["Y"]);
    assert!(info(&m, "Y").start_time >= info(&m, "X").end_time);
    assert!(m.finish_at("Y", 30).is_empty());
    assert_eq!(info(&m, "Y").status, Status::Done);
    assert_eq!(info(&m, "X").status, Status::Done);
}

#[test]
fn task_is_handed_out_once() {
    let mut m = manager_with(&["a", "b", "c"]);
    m.add_edge("a", "c");
    m.add_edge("b", "c");
    let started = m.begin_at(1).unwrap();
    assert_eq!(names(&started), vec!["a", "b"]);
    assert!(m.finish_at("a", 2).is_empty());
    assert_eq!(names(&m.finish_at("b", 3)), vec!["c"]);
    assert!(m.finish_at("b", 4).is_empty());
    assert!(m.finish_at("a", 5).is_empty());
    assert_eq!(info(&m, "b").end_time, 3);
}

#[test]
fn clock_sets_the_times() {
    let mut m = manager_with(&["a", "b"]);
    m.add_edge("a", "b");
    let started = m.begin().unwrap();
    assert_eq!(names(&started), vec!["a"]);
    assert!(info(&m, "a").start_time > 0);
    let next = m.finish("a");
    assert_eq!(names(&next), vec!["b"]);
    let a = info(&m, "a");
    assert!(a.end_time >= a.start_time);
    assert!(info(&m, "b").start_time > 0);
}

#[test]
fn ledger_moves_forward_only() {
    let mut l = TracingInfoManager::new();
    assert!(!l.start_at("x", 1));
    l.add_tracing_info("x");
    assert_eq!(l.snapshot_at(0).len(), 1);
    assert!(!l.done_at("x", 2));
    assert_eq!(l.get_tracing_info("x").unwrap().status, Status::NotStarted);
    assert!(l.start_at("x", 3));
    assert!(!l.start_at("x", 4));
    assert_eq!(l.get_tracing_info("x").unwrap().start_time, 3);
    assert!(l.done_at("x", 5));
    assert!(!l.done_at("x", 6));
    assert_eq!(
        l.get_tracing_info("x").unwrap(),
        TracingInfo { status: Status::Done, start_time: 3, end_time: 5 }
    );
    assert!(l.get_tracing_info("y").is_none());
    l.add_tracing_info("x");
    assert_eq!(l.snapshot_at(0).len(), 1);
    assert_eq!(l.get_tracing_info("x").unwrap(), TracingInfo::new());
}

#[test]
fn record_uses_clock() {
    let mut t = TracingInfo::new();
    assert!(t.start());
    assert_eq!(t.status, Status::Doing);
    assert!(t.start_time > 0);
    assert!(!t.start());
    assert!(t.done());
    assert!(t.end_time >= t.start_time);
    assert!(!t.done());
}

#[test]
fn snapshot_shows_now_for_running_tasks() {
    let mut m = manager_with(&["a", "b", "c"]);
    m.add_edge("a", "b");
    m.add_edge("b", "c");
    m.begin_at(10).unwrap();
    m.finish_at("a", 20);
    let mut rows = m.tracing_snapshot_at(99);
    rows.sort_by(|x, y| x.0.cmp(y.0));
    assert_eq!(rows.len(), 3);
    assert_eq!(rows[0], ("a", TracingInfo { status: Status::Done, start_time: 10, end_time: 20 }));
    assert_eq!(rows[1], ("b", TracingInfo { status: Status::Doing, start_time: 20, end_time: 99 }));
    assert_eq!(rows[2], ("c", TracingInfo::new()));
}

#[test]
fn status_labels() {
    assert_eq!(Status::NotStarted.label(), "NotStarted");
    assert_eq!(Status::Doing.label(), "Doing");
    assert_eq!(Status::Done.label(), "Done");
}

#[test]
fn wrapper_shares_the_task() {
    let shared = exector_wapper(Job("w"));
    assert_eq!(shared.name(), "w");
    assert_eq!(*shared, Job("w"));
}

#[test]
fn deadline_is_kept() {
    let m: Manager<Job> = Manager::new(250);
    assert_eq!(m.timeout_ms(), 250);
    assert!(m.all_started());
}

#[test]
fn empty_registry_has_no_start() {
    let mut m: Manager<Job> = Manager::new(5);
    assert!(m.find_start_nodes().is_empty());
    assert!(matches!(m.begin_at(1), Err(ScheduleError::NoStartNodes)));
}

#[test]
fn ledger_clock_by_key() {
    let mut l = TracingInfoManager::new();
    l.add_tracing_info("k");
    assert!(!l.start("other"));
    assert!(!l.done("k"));
    assert!(l.start("k"));
    let t = l.get_tracing_info("k").unwrap();
    assert_eq!(t.status, Status::Doing);
    assert!(t.start_time > 0);
    assert!(l.done("k"));
    let t = l.get_tracing_info("k").unwrap();
    assert_eq!(t.status, Status::Done);
    assert!(t.end_time >= t.start_time);
}

#[test]
fn validation_accepts_a_diamond() {
    let mut m = manager_with(&["a", "b", "c", "d", "e"]);
    m.add_deps("d", vec!["b", "c"]);
    m.add_deps("b", vec!["a"]);
    m.add_deps("c", vec!["a"]);
    m.add_dep("e", "d");
    m.add_dep("e", "a");
    assert_eq!(m.pre_check_and_find_start_nodes().unwrap(), vec!["a"]);
}
