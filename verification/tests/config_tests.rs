use tps::config::Config;
use tps::config::SortMode;
use tps::config::normalize_path;
use tps::config::normalize_paths;
use tps::config::sort_paths;

#[test]
fn normalize_expands_home_shorthand() {
    let home = "/home/alice".to_string();
    assert_eq!("/home/alice/code", normalize_path(&"~/code".to_string(), &home));
    assert_eq!("/home/alice", normalize_path(&"~".to_string(), &home));
    assert_eq!("/opt/work", normalize_path(&"/opt/work".to_string(), &home));
    assert_eq!("", normalize_path(&"".to_string(), &home));
}

#[test]
fn normalize_paths_maps_every_entry() {
    let home = "/h".to_string();
    let raws = vec!["~/a".to_string(), "/b".to_string()];
    assert_eq!(vec!["/h/a".to_string(), "/b".to_string()], normalize_paths(&raws, &home));
}

#[test]
fn sort_paths_orders_ascending() {
    let v = vec!["/b".to_string(), "/a".to_string(), "/c".to_string(), "/a".to_string()];
    let sorted = sort_paths(v);
    assert_eq!(
        vec!["/a".to_string(), "/a".to_string(), "/b".to_string(), "/c".to_string()],
        sorted
    );
}

#[test]
fn sort_mode_parses_case_insensitively_with_fallback() {
    assert_eq!(SortMode::Alphabetical, SortMode::from("alphabetical"));
    assert_eq!(SortMode::Recent, SortMode::from("recent"));
    assert_eq!(SortMode::Recent, SortMode::from("Recent"));
    assert_eq!(SortMode::Recent, SortMode::from("RECENT"));
    assert_eq!(SortMode::Alphabetical, SortMode::from("nonsense"));
    assert_eq!(SortMode::Alphabetical, SortMode::default());
}

#[test]
fn assemble_combines_filters_and_sorts() {
    let explicit = vec!["/p/extra".to_string()];
    let discovered = vec!["/p/b".to_string(), "/p/a".to_string(), "/here".to_string()];
    let current = "/here".to_string();
    let config = Config::assemble(
        explicit,
        discovered,
        true,
        &current,
        &Some("recent".to_string()),
        None,
        &"/home/alice/.cache".to_string(),
    )
    .expect("projects remain after the filter");
    assert_eq!(
        vec!["/p/a".to_string(), "/p/b".to_string(), "/p/extra".to_string()],
        config.projects
    );
    assert!(config.skip_current);
    assert_eq!(SortMode::Recent, config.sort_mode);
    assert_eq!("/home/alice/.cache/tps/access_cache", config.cache_path);
}

#[test]
fn assemble_keeps_current_when_not_skipping() {
    let config = Config::assemble(
        vec![],
        vec!["/here".to_string()],
        false,
        &"/here".to_string(),
        &None,
        Some("/custom/store".to_string()),
        &"/cache".to_string(),
    )
    .expect("one project remains");
    assert_eq!(vec!["/here".to_string()], config.projects);
    assert_eq!(SortMode::Alphabetical, config.sort_mode);
    assert_eq!("/custom/store", config.cache_path);
}

#[test]
fn assemble_with_no_projects_is_none() {
    let r = Config::assemble(
        vec![],
        vec!["/only".to_string()],
        true,
        &"/only".to_string(),
        &None,
        None,
        &"/cache".to_string(),
    );
    assert!(r.is_none());
}
