use moose_core::scheduler::{MissionStatus, Scheduler, TaskDescriptor, TaskStatus};

fn descriptor(id: &str, agent: &str, task: &str, deps: Option<&str>) -> TaskDescriptor {
    TaskDescriptor {
        id: Some(id.to_string()),
        agent_id: Some(agent.to_string()),
        task: Some(task.to_string()),
        depends_on: deps.map(|d| d.to_string()),
    }
}

fn diamond() -> Vec<TaskDescriptor> {
    vec![
        descriptor("A", "agent1", "start", None),
        descriptor("B", "agent2", "left", Some("A")),
        descriptor("C", "agent3", "right", Some("A")),
        descriptor("D", "agent4", "join", Some("B,C")),
    ]
}

#[test]
fn dag_layering_waves() {
    let mut s = Scheduler::new(None);
    s.submit_mission("m1".to_string(), diamond()).unwrap();
    let levels = &s.missions[0].levels;
    assert_eq!(levels.len(), 3);
    assert_eq!(levels[0], vec!["A".to_string()]);
    let mut mid = levels[1].clone();
    mid.sort();
    assert_eq!(mid, vec!["B".to_string(), "C".to_string()]);
    assert_eq!(levels[2], vec!["D".to_string()]);
}

#[test]
fn dag_layering_completion_in_order() {
    let mut s = Scheduler::new(None);
    let m = "m1".to_string();
    s.submit_mission(m.clone(), diamond()).unwrap();
    let ready = s.get_ready_tasks(&m);
    assert_eq!(ready.len(), 1);
    assert_eq!(ready[0].id, "A");
    assert!(s.complete_task(&m, &"A".to_string(), None));
    let mut ready: Vec<String> = s.get_ready_tasks(&m).into_iter().map(|t| t.id).collect();
    ready.sort();
    assert_eq!(ready, vec!["B".to_string(), "C".to_string()]);
    assert!(s.complete_task(&m, &"B".to_string(), Some("done-b".to_string())));
    assert!(s.complete_task(&m, &"C".to_string(), None));
    let ready = s.get_ready_tasks(&m);
    assert_eq!(ready.len(), 1);
    assert_eq!(ready[0].id, "D");
    assert!(s.complete_task(&m, &"D".to_string(), None));
    let summary = s.get_mission(&m).unwrap();
    assert_eq!(summary.status, MissionStatus::Completed);
    assert_eq!(summary.completed_tasks, 4);
    assert_eq!(summary.total_tasks, 4);
}

#[test]
fn fail_fast_mission_fails_at_once() {
    let mut s = Scheduler::new(None);
    let m = "m1".to_string();
    s.submit_mission(m.clone(), diamond()).unwrap();
    assert!(s.complete_task(&m, &"A".to_string(), None));
    assert!(s.fail_task(&m, &"B".to_string(), "boom".to_string()));
    let summary = s.get_mission(&m).unwrap();
    assert_eq!(summary.status, MissionStatus::Failed);
    // C has not started, yet nothing is ready any more
    assert!(s.get_ready_tasks(&m).is_empty());
}

#[test]
fn cycle_still_places_every_task() {
    let mut s = Scheduler::new(None);
    let m = "m1".to_string();
    let tasks = vec![
        descriptor("X", "a", "one", Some("Y")),
        descriptor("Y", "a", "two", Some("X")),
        descriptor("Z", "a", "three", None),
    ];
    s.submit_mission(m.clone(), tasks).unwrap();
    let mission = &s.missions[0];
    let total: usize = mission.levels.iter().map(|w| w.len()).sum();
    assert_eq!(total, mission.total_tasks);
    assert_eq!(mission.total_tasks, 3);
    // the acyclic task forms the first wave; the cyclic residue one final wave
    assert_eq!(mission.levels[0], vec!["Z".to_string()]);
    assert_eq!(mission.levels[1].len(), 2);
}

#[test]
fn duplicate_mission_id_rejected() {
    let mut s = Scheduler::new(None);
    s.submit_mission("m1".to_string(), vec![descriptor("A", "a", "t", None)]).unwrap();
    let e = s.submit_mission("m1".to_string(), vec![descriptor("B", "a", "t", None)]);
    assert!(e.is_err());
    let msg = e.err().unwrap().message();
    assert_eq!(msg, "Mission already exists: m1");
}

#[test]
fn start_task_moves_pending_to_running() {
    let mut s = Scheduler::new(None);
    let m = "m1".to_string();
    s.submit_mission(m.clone(), diamond()).unwrap();
    assert!(s.start_task(&m, &"A".to_string()));
    assert_eq!(s.missions[0].tasks[0].status, TaskStatus::Running);
    // a running task cannot be started again
    assert!(!s.start_task(&m, &"A".to_string()));
    // a task of an unknown mission cannot be started
    assert!(!s.start_task(&"nope".to_string(), &"A".to_string()));
}

#[test]
fn cancel_mission_is_sticky() {
    let mut s = Scheduler::new(None);
    let m = "m1".to_string();
    s.submit_mission(m.clone(), diamond()).unwrap();
    assert!(s.cancel_mission(&m));
    assert_eq!(s.get_mission(&m).unwrap().status, MissionStatus::Failed);
    // cancelling again has no effect
    assert!(!s.cancel_mission(&m));
    assert_eq!(s.get_mission(&m).unwrap().status, MissionStatus::Failed);
}

#[test]
fn clear_completed_removes_terminal_missions() {
    let mut s = Scheduler::new(None);
    s.submit_mission("m1".to_string(), vec![descriptor("A", "a", "t", None)]).unwrap();
    s.submit_mission("m2".to_string(), vec![descriptor("A", "a", "t", None)]).unwrap();
    s.submit_mission("m3".to_string(), vec![descriptor("A", "a", "t", None)]).unwrap();
    assert!(s.complete_task(&"m1".to_string(), &"A".to_string(), None));
    assert!(s.cancel_mission(&"m3".to_string()));
    assert_eq!(s.mission_count(), 3);
    let removed = s.clear_completed();
    assert_eq!(removed, 2);
    assert_eq!(s.mission_count(), 1);
    assert_eq!(s.list_missions(), vec!["m2".to_string()]);
}

#[test]
fn completing_a_task_twice_counts_once() {
    let mut s = Scheduler::new(None);
    let m = "m1".to_string();
    s.submit_mission(m.clone(), diamond()).unwrap();
    assert!(s.complete_task(&m, &"A".to_string(), None));
    assert!(s.complete_task(&m, &"A".to_string(), None));
    let summary = s.get_mission(&m).unwrap();
    assert_eq!(summary.completed_tasks, 1);
    assert!(summary.completed_tasks <= summary.total_tasks);
}

#[test]
fn tasks_without_id_get_one() {
    let mut s = Scheduler::new(None);
    let m = "m1".to_string();
    let tasks = vec![TaskDescriptor {
        id: None,
        agent_id: Some("a".to_string()),
        task: Some("work".to_string()),
        depends_on: None,
    }];
    s.submit_mission(m.clone(), tasks).unwrap();
    let ready = s.get_ready_tasks(&m);
    assert_eq!(ready.len(), 1);
    assert_eq!(ready[0].id.len(), 8);
}

#[test]
fn depends_on_parsing_trims_and_drops_blanks() {
    let deps = moose_core::scheduler::parse_depends_on(" a , b ,, c ");
    assert_eq!(deps, vec!["a".to_string(), "b".to_string(), "c".to_string()]);
    let empty = moose_core::scheduler::parse_depends_on("");
    assert!(empty.is_empty());
    let spaces = moose_core::scheduler::parse_depends_on("  ,  ");
    assert!(spaces.is_empty());
}
