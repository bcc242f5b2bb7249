use hypatia::config::{expand_tilde_with, generate_template_config, global_config_path_under};
use hypatia::model::project::{LocalProjectConfig, Project, ProjectRegistry, Room, Wing};
use hypatia::model::query::{QueryResult, QueryTarget, SearchOpts};
use hypatia::service::project::ProjectManager;

fn project(name: &str, root: &str) -> Project {
    Project::new(name.to_string(), root.to_string())
}

#[test]
fn project_new_uses_defaults_and_own_shelf() {
    let p = project("api", "/src/api");
    assert_eq!(p.name, "api");
    assert_eq!(p.root, "/src/api");
    assert_eq!(p.shelf, "api");
    assert_eq!(p.wing, None);
    assert_eq!(p.room, None);
    assert_eq!(p.max_file_size, 1048576);
    assert_eq!(p.chunk_size, 512);
    assert!(!p.auto_watch);
    assert_eq!(p.last_indexed, None);
    assert_eq!(p.skip_patterns, vec!["target/**", "node_modules/**", ".git/**", "dist/**", "*.lock", "*.log"]);
    assert_eq!(p.extensions, vec!["rs", "ts", "js", "py", "md", "json", "yaml", "yml", "toml", "txt"]);
    assert!(!p.created_at.is_empty());
}

#[test]
fn project_default_is_on_default_shelf() {
    let p = Project::default();
    assert_eq!(p.name, "");
    assert_eq!(p.root, ".");
    assert_eq!(p.shelf, "default");
}

#[test]
fn project_paths_under_root() {
    let p = project("api", "/src/api");
    assert_eq!(p.hypatia_dir(), "/src/api/.hypatia");
    assert_eq!(p.config_path(), "/src/api/.hypatia/project.toml");
}

#[test]
fn registry_add_replaces_same_name_and_keeps_order() {
    let mut r = ProjectRegistry::new();
    r.add(project("a", "/1"));
    r.add(project("b", "/2"));
    r.add(project("a", "/3"));
    let names: Vec<&str> = r.list().iter().map(|p| p.name.as_str()).collect();
    assert_eq!(names, vec!["b", "a"]);
    assert_eq!(r.get("a").map(|p| p.root.as_str()), Some("/3"));
    assert_eq!(r.get("b").map(|p| p.root.as_str()), Some("/2"));
    assert!(r.get("c").is_none());
}

#[test]
fn registry_remove_after_add_returns_project() {
    let mut r = ProjectRegistry::default();
    r.add(project("a", "/1"));
    r.add(project("b", "/2"));
    let removed = r.remove("a").expect("registered");
    assert_eq!(removed.root, "/1");
    assert!(r.get("a").is_none());
    assert!(r.remove("a").is_none());
    assert_eq!(r.list().len(), 1);
}

#[test]
fn registry_get_mut_changes_in_place() {
    let mut r = ProjectRegistry::new();
    r.add(project("a", "/1"));
    if let Some(p) = r.get_mut("a") {
        p.chunk_size = 99;
    }
    assert_eq!(r.get("a").unwrap().chunk_size, 99);
    assert!(r.get_mut("zz").is_none());
}

#[test]
fn registry_duplicates_from_outside_found_first() {
    let r = ProjectRegistry { projects: vec![project("a", "/1"), project("a", "/2")] };
    assert_eq!(r.get("a").unwrap().root, "/1");
}

#[test]
fn manager_add_and_toggle() {
    let mut m = ProjectManager::new("/home/u/.hypatia", ProjectRegistry::new());
    assert_eq!(m.registry_path(), "/home/u/.hypatia/projects.json");
    let p = m.add_project("p".to_string(), "/w/p".to_string(), None, Some("work".to_string()), None);
    assert_eq!(p.shelf, "p");
    assert_eq!(p.wing.as_deref(), Some("work"));
    let q = m.add_project("q".to_string(), "/w/q".to_string(), Some("shared".to_string()), None, Some("r1".to_string()));
    assert_eq!(q.shelf, "shared");
    assert_eq!(q.room.as_deref(), Some("r1"));
    assert!(m.toggle_auto_watch("p", true));
    assert!(m.get_project("p").unwrap().auto_watch);
    assert!(!m.toggle_auto_watch("nope", true));
    assert_eq!(m.find_by_root("/w/q").map(|p| p.name.as_str()), Some("q"));
    assert_eq!(m.find_by_root("/w/q/").map(|p| p.name.as_str()), Some("q"));
    assert!(m.find_by_root("/w").is_none());
    assert!(m.update_last_indexed("q"));
    assert!(m.get_project("q").unwrap().last_indexed.is_some());
    assert!(!m.update_last_indexed("nope"));
    assert_eq!(m.list_projects().len(), 2);
    assert_eq!(m.remove_project("p").map(|p| p.name), Some("p".to_string()));
    assert!(m.remove_project("p").is_none());
    assert_eq!(m.registry().list().len(), 1);
}

#[test]
fn manager_local_config_for_new_project() {
    let c = ProjectManager::new_local_config("p", &Some("w".to_string()), &None);
    assert_eq!(c.name, "p");
    assert_eq!(c.wing.as_deref(), Some("w"));
    assert_eq!(c.room, None);
    assert!(c.skip_patterns.is_empty() && c.extensions.is_empty());
    assert_eq!((c.max_file_size, c.chunk_size), (1048576, 512));
}

#[test]
fn local_config_default_values() {
    let c = LocalProjectConfig::default();
    assert_eq!(c.name, "default");
    assert_eq!((c.max_file_size, c.chunk_size), (1048576, 512));
}

#[test]
fn template_config_values() {
    let c = generate_template_config("demo");
    assert_eq!(c.name, "demo");
    assert_eq!(c.skip_patterns, vec!["target/**", "node_modules/**", ".git/**", "dist/**", "*.lock"]);
    assert_eq!(c.extensions.len(), 10);
    assert_eq!((c.max_file_size, c.chunk_size), (1048576, 512));
}

#[test]
fn config_paths_and_tilde() {
    assert_eq!(global_config_path_under("/home/u"), "/home/u/.hypatia/config.toml");
    assert_eq!(expand_tilde_with("~/x/y", Some("/home/u".to_string())), "/home/u/x/y");
    assert_eq!(expand_tilde_with("~x", Some("/home/u".to_string())), "~x");
    assert_eq!(expand_tilde_with("~/x", None), "~/x");
    assert_eq!(expand_tilde_with("/abs", Some("/home/u".to_string())), "/abs");
}

#[test]
fn wing_and_room() {
    let w = Wing::new("work".to_string(), "s".to_string());
    assert_eq!((w.name.as_str(), w.shelf.as_str(), w.description.is_none()), ("work", "s", true));
    let r = Room::new("prod".to_string(), "work".to_string(), "s".to_string());
    assert_eq!((r.name.as_str(), r.wing.as_str(), r.shelf.as_str()), ("prod", "work", "s"));
}

#[test]
fn query_model() {
    assert_eq!(QueryTarget::Knowledge.table_name(), "knowledge");
    assert_eq!(QueryTarget::Statement.table_name(), "statement");
    let o = SearchOpts::default();
    assert_eq!((o.catalog, o.limit, o.offset), (None, 100, 0));
    let q = QueryResult::new(vec![serde_json::Map::new()]).with_total_count(7);
    assert_eq!(q.rows.len(), 1);
    assert_eq!(q.total_count, Some(7));
}

#[test]
fn project_clone_is_equal() {
    let mut p = project("a", "/1");
    p.wing = Some("w".to_string());
    let q = p.clone();
    assert_eq!((q.name, q.root, q.wing, q.created_at), (p.name, p.root, p.wing, p.created_at));
}
