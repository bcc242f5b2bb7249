use hypatia::daemon::debounce::{daemon_step, start_decision, DaemonAction, DaemonEvent, PendingChanges, StartDecision};
use hypatia::daemon::state::{state_path_under, DaemonState};
use hypatia::daemon::watcher::{
    auto_watch_projects, determine_shelf_for_path, group_by_shelf, is_relevant_event,
    is_relevant_path, project_for_shelf,
};
use hypatia::model::project::{Project, ProjectRegistry};
use hypatia::service::project::ProjectManager;

#[test]
fn add_watch_replaces_entry_for_same_path() {
    let mut s = DaemonState::default();
    s.add_watch("/a", "s1", "p1");
    s.add_watch("/b", "s2", "p2");
    s.add_watch("/a", "s3", "p3");
    let paths: Vec<&str> = s.watched.iter().map(|e| e.path.as_str()).collect();
    assert_eq!(paths, vec!["/b", "/a"]);
    assert_eq!(s.watched[1].shelf, "s3");
    assert_eq!(s.watched[1].files_indexed, 0);
    assert_eq!(s.watched[1].last_modified, None);
}

#[test]
fn remove_watch_reports_whether_watched() {
    let mut s = DaemonState::default();
    s.add_watch("/a", "s1", "p1");
    assert!(s.remove_watch("/a"));
    assert!(!s.remove_watch("/a"));
    assert!(s.watched.is_empty());
}

#[test]
fn running_and_stopped() {
    let mut s = DaemonState::default();
    assert!(!s.is_running && s.pid.is_none() && s.last_check.is_none());
    s.mark_running(42);
    assert!(s.is_running);
    assert_eq!(s.pid, Some(42));
    assert!(s.last_check.is_some());
    s.mark_stopped();
    assert!(!s.is_running);
    assert_eq!(s.pid, None);
    assert!(s.last_check.is_some());
}

#[test]
fn daemon_state_path() {
    assert_eq!(state_path_under("/home/u"), "/home/u/.hypatia/daemon_state.json");
}

#[test]
fn relevant_paths_and_events() {
    assert!(is_relevant_path("/x/a.rs"));
    assert!(!is_relevant_path("/x/a.RS"));
    assert!(!is_relevant_path("/x/Makefile"));
    let paths = vec!["/x/a.bin".to_string(), "/x/b.md".to_string()];
    assert!(is_relevant_event(true, &paths));
    assert!(!is_relevant_event(false, &paths));
    assert!(!is_relevant_event(true, &vec!["/x/a.bin".to_string()]));
}

fn manager() -> ProjectManager {
    let mut r = ProjectRegistry::new();
    let mut p1 = Project::new("p1".to_string(), "/home/u/p1".to_string());
    p1.auto_watch = true;
    r.add(p1);
    let mut p2 = Project::new("p2".to_string(), "/home/u/p10".to_string());
    p2.shelf = "other".to_string();
    r.add(p2);
    ProjectManager::new("/home/u/.hypatia", r)
}

#[test]
fn shelf_for_changed_path() {
    let m = manager();
    assert_eq!(determine_shelf_for_path(&m, "/home/u/p1/src/x.rs"), Some("p1".to_string()));
    assert_eq!(determine_shelf_for_path(&m, "/home/u/p10/x.rs"), Some("other".to_string()));
    assert_eq!(determine_shelf_for_path(&m, "/home/u/p2/x.rs"), None);
}

#[test]
fn pending_changes_grouped_by_shelf() {
    let changes = vec![
        ("a".to_string(), "s1".to_string()),
        ("b".to_string(), "s2".to_string()),
        ("c".to_string(), "s1".to_string()),
    ];
    let g = group_by_shelf(&changes);
    assert_eq!(
        g,
        vec![
            ("s1".to_string(), vec!["a".to_string(), "c".to_string()]),
            ("s2".to_string(), vec!["b".to_string()]),
        ]
    );
}

#[test]
fn projects_by_shelf_and_auto_watch() {
    let m = manager();
    assert_eq!(project_for_shelf(m.list_projects(), "other"), Some(1));
    assert_eq!(project_for_shelf(m.list_projects(), "none"), None);
    assert_eq!(auto_watch_projects(m.list_projects()), vec![0]);
}

fn strs(v: &[&str]) -> Vec<String> {
    v.iter().map(|s| s.to_string()).collect()
}

#[test]
fn daemon_step_records_debounces_and_processes() {
    let m = manager();
    let mut p = PendingChanges::new();
    let a = daemon_step(&mut p, &m, DaemonEvent::Changed { is_change: true, paths: strs(&["/home/u/p1/a.rs", "/elsewhere/b.rs", "/home/u/p10/c.bin"]) });
    assert!(matches!(a, DaemonAction::Wait));
    assert_eq!(p.changes().len(), 2);
    let a = daemon_step(&mut p, &m, DaemonEvent::Changed { is_change: false, paths: strs(&["/home/u/p1/z.rs"]) });
    assert!(matches!(a, DaemonAction::Wait));
    let a = daemon_step(&mut p, &m, DaemonEvent::Changed { is_change: true, paths: strs(&["/home/u/p1/z.bin"]) });
    assert!(matches!(a, DaemonAction::Wait));
    let _ = daemon_step(&mut p, &m, DaemonEvent::Changed { is_change: true, paths: strs(&["/home/u/p1/a.rs"]) });
    assert_eq!(p.changes().len(), 2);
    assert!(matches!(daemon_step(&mut p, &m, DaemonEvent::Idle { since_last_ns: 2_000_000_000 }), DaemonAction::Wait));
    assert!(matches!(daemon_step(&mut p, &m, DaemonEvent::WatchError), DaemonAction::ReportError));
    match daemon_step(&mut p, &m, DaemonEvent::Idle { since_last_ns: 2_000_000_001 }) {
        DaemonAction::Process(groups) => assert_eq!(
            groups,
            vec![
                ("p1".to_string(), strs(&["/home/u/p1/a.rs"])),
                ("other".to_string(), strs(&["/home/u/p10/c.bin"])),
            ]
        ),
        _ => panic!("expected processing"),
    }
    assert!(p.changes().is_empty());
    assert!(matches!(daemon_step(&mut p, &m, DaemonEvent::Idle { since_last_ns: u64::MAX }), DaemonAction::Wait));
    assert!(matches!(daemon_step(&mut p, &m, DaemonEvent::Disconnected), DaemonAction::Stop));
}

#[test]
fn start_decisions() {
    let m = manager();
    let mut s = DaemonState::default();
    match start_decision(&s, false, m.list_projects()) {
        StartDecision::Watch(w) => assert_eq!(w, vec![0]),
        _ => panic!("expected watch"),
    }
    s.mark_running(7);
    assert!(matches!(start_decision(&s, true, m.list_projects()), StartDecision::AlreadyRunning));
    assert!(matches!(start_decision(&s, false, m.list_projects()), StartDecision::Watch(_)));
    let none: Vec<Project> = vec![Project::new("q".to_string(), "/q".to_string())];
    assert!(matches!(start_decision(&DaemonState::default(), true, &none), StartDecision::NoProjects));
}
