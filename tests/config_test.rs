use md_task::config::{config_dir, get_config_search_paths, join_path, merge_configs, resolve_config, Config};

#[test]
fn test_get_config_dir() {
    assert_eq!(config_dir(true, None), "./dev-config");
}

#[test]
fn config_dir_uses_the_configuration_home() {
    assert_eq!(config_dir(false, Some("/xdg".to_string())), "/xdg/md-task");
    assert_eq!(config_dir(true, Some("/xdg".to_string())), "./dev-config");
}

#[test]
fn join_path_adds_one_separator() {
    assert_eq!(join_path("a", "b"), "a/b");
    assert_eq!(join_path("a/", "b"), "a/b");
    assert_eq!(join_path("", "b"), "b");
}

#[test]
fn search_paths_in_order_of_precedence() {
    let p = get_config_search_paths(Some("/proj".to_string()), "/cfg".to_string());
    assert_eq!(p, vec!["md-task.toml", "/proj/md-task.toml", "/cfg/config.toml"]);
    let p = get_config_search_paths(None, "/cfg".to_string());
    assert_eq!(p, vec!["md-task.toml", "/cfg/config.toml"]);
    let p = get_config_search_paths(Some(String::new()), "/cfg/".to_string());
    assert_eq!(p, vec!["md-task.toml", "/cfg/config.toml"]);
}

#[test]
fn default_config_values() {
    let c = Config::default();
    assert_eq!(c.task_management.default_priority, "medium");
    assert!(c.task_management.auto_format);
    assert!(!c.task_management.allow_incomplete_in_archive);
    assert!(!c.display.show_completed_by_default);
    assert_eq!(c.file_paths.task_file, "tasks.md");
}

#[test]
fn merge_takes_every_setting_of_the_override() {
    let mut base = Config::default();
    let mut o = Config::default();
    o.task_management.default_priority = "high".to_string();
    o.task_management.auto_format = false;
    o.task_management.allow_incomplete_in_archive = true;
    o.display.show_completed_by_default = true;
    o.file_paths.task_file = "test-tasks.md".to_string();
    merge_configs(&mut base, o);
    assert_eq!(base.task_management.default_priority, "high");
    assert!(!base.task_management.auto_format);
    assert!(base.task_management.allow_incomplete_in_archive);
    assert!(base.display.show_completed_by_default);
    assert_eq!(base.file_paths.task_file, "test-tasks.md");
}

#[test]
fn resolve_takes_the_first_found() {
    let mut local = Config::default();
    local.file_paths.task_file = "local.md".to_string();
    let mut global = Config::default();
    global.file_paths.task_file = "global.md".to_string();
    let c = resolve_config(vec![None, Some(local), Some(global)]);
    assert_eq!(c.file_paths.task_file, "local.md");
    let c = resolve_config(vec![None, None]);
    assert_eq!(c.file_paths.task_file, "tasks.md");
}
