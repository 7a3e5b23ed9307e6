use crush_tether::config::discover::{
    discover_layers, explicit_path, find_project_root_from, global_dir, home_dir, parent_of, FileRead,
};

/// Reader of a file system in which the given files exist.
fn fs_with(files: Vec<(&'static str, &'static str)>) -> impl Fn(&str) -> FileRead {
    move |p: &str| match files.iter().find(|(path, _)| *path == p) {
        Some((_, text)) => FileRead::Text(text.to_string()),
        None => FileRead::Missing,
    }
}

#[test]
fn discover_layers_all_none_when_no_files() {
    let home = "/tmp/crush-tether-m22-home-empty";
    let proj = "/tmp/crush-tether-m22-proj-empty";
    let found = discover_layers(Some(proj), Some(home), None, &fs_with(Vec::new())).unwrap();
    assert!(found.global.is_none() && found.user.is_none() && found.project.is_none());
}

#[test]
fn discover_layers_skips_layer_without_home() {
    let proj = "/tmp/crush-tether-m22-proj-nohome";
    let found = discover_layers(Some(proj), None, None, &fs_with(Vec::new())).unwrap();
    assert!(found.user.is_none());
    assert!(found.project.is_none() && found.global.is_none());
}

#[test]
fn discover_layers_reads_user_and_project_layers() {
    let read = fs_with(vec![
        ("/home/u/.config/crush-tether/rules.toml", "version = 1\ndefault = \"deny\""),
        ("/p/.crush-tether/rules.toml", "version = 1\n[local]\nallow = [\"ls\"]"),
    ]);
    let found = discover_layers(Some("/p"), Some("/home/u"), None, &read).unwrap();
    assert!(found.user.is_some());
    assert!(found.project.is_some());
    assert!(found.global.is_none());
}

#[test]
fn discover_layers_broken_file_is_error_not_absence() {
    let read = fs_with(vec![("/p/.crush-tether/rules.toml", "version = 1\nalow = []")]);
    assert!(discover_layers(Some("/p"), None, None, &read).is_err());
}

#[test]
fn discover_layers_broken_global_is_error_not_absence() {
    let read = fs_with(vec![("/etc/ct/rules.toml", "version = 1\nalow = []")]);
    assert!(discover_layers(None, None, Some("/etc/ct"), &read).is_err());
}

#[test]
fn broken_knowledge_is_absent_with_a_warning() {
    let read = fs_with(vec![("/p/.crush-tether/knowledge.toml", "version = 7")]);
    let found = discover_layers(Some("/p"), None, None, &read).unwrap();
    assert!(found.knowledge.is_none());
    assert_eq!(found.warnings.len(), 1);
}

#[test]
fn project_root_walks_up_to_nearest_marker() {
    let root = find_project_root_from("/r/a/b", &|d: &str| d == "/r");
    assert_eq!(root, "/r");
    let none = find_project_root_from("/r/a/b", &|_d: &str| false);
    assert_eq!(none, "/r/a/b");
}

#[test]
fn parents_follow_the_path() {
    assert_eq!(parent_of("/a/b"), Some("/a".to_string()));
    assert_eq!(parent_of("/a/b/"), Some("/a".to_string()));
    assert_eq!(parent_of("/a"), Some("/".to_string()));
    assert_eq!(parent_of("/"), None);
    assert_eq!(parent_of("a"), Some(String::new()));
    assert_eq!(parent_of(""), None);
}

#[test]
fn locations_from_the_environment() {
    assert_eq!(explicit_path(Some("x.toml"), Some("y.toml".into())), Some("x.toml".to_string()));
    assert_eq!(explicit_path(None, Some("y.toml".into())), Some("y.toml".to_string()));
    assert_eq!(global_dir(None), "/etc/crush-tether");
    assert_eq!(global_dir(Some(String::new())), "/etc/crush-tether");
    assert_eq!(global_dir(Some("/g".into())), "/g");
    assert_eq!(home_dir(None, Some("/h".into())), Some("/h".to_string()));
}

#[test]
fn knowledge_warning_names_the_file_and_the_fault() {
    let read = fs_with(vec![("/p/.crush-tether/knowledge.toml", "[git]\nmay_write = true")]);
    let found = discover_layers(Some("/p"), None, None, &read).unwrap();
    assert!(found.knowledge.is_none());
    assert_eq!(
        found.warnings,
        vec!["crush-tether: knowledge file /p/.crush-tether/knowledge.toml invalid: missing field `version`; treating as absent"
            .to_string()]
    );
    let ok = fs_with(vec![("/p/.crush-tether/knowledge.toml", "version = 1\n[pip3]\nalias_of = \"pip\"")]);
    let found = discover_layers(Some("/p"), None, None, &ok).unwrap();
    assert!(found.knowledge.is_some());
    assert!(found.warnings.is_empty());
}
