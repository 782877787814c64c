use tps::discover::Classification;
use tps::discover::Resolver;

fn run_alice_scenario() -> Vec<String> {
    let mut r = Resolver::new(vec!["/home/alice/code".to_string()]);
    let root = r.next_dir().expect("the configured root should be handed out");
    assert_eq!("/home/alice/code", root);

    r.record_child(&root, &"proj1".to_string(), true, &Classification::NotARepo);
    r.record_child(
        &root,
        &"proj2".to_string(),
        true,
        &Classification::BareRepo { worktrees: vec!["wt-a".to_string(), "wt-b".to_string()] },
    );
    r.record_child(&root, &".git".to_string(), true, &Classification::NotARepo);

    // proj1 was queued for descent; it has no children of its own.
    let next = r.next_dir().expect("proj1 should be queued");
    assert_eq!("/home/alice/code/proj1", next);
    assert!(r.next_dir().is_none());

    r.projects().clone()
}

#[test]
fn discovery_scenario_expands_bare_repo_and_skips_metadata_dir() {
    let projects = run_alice_scenario();
    assert_eq!(3, projects.len());
    assert!(projects.contains(&"/home/alice/code/proj1".to_string()));
    assert!(projects.contains(&"/home/alice/code/proj2/wt-a".to_string()));
    assert!(projects.contains(&"/home/alice/code/proj2/wt-b".to_string()));
    assert!(!projects.contains(&"/home/alice/code/proj2".to_string()));
    assert!(!projects.contains(&"/home/alice/code/.git".to_string()));
}

#[test]
fn discovery_is_idempotent_over_the_same_events() {
    let first = run_alice_scenario();
    let second = run_alice_scenario();
    assert_eq!(first, second);
}

#[test]
fn no_duplicates_when_a_directory_is_reachable_twice() {
    let mut r = Resolver::new(vec!["/r1".to_string(), "/r2".to_string(), "/r2".to_string()]);
    let d1 = r.next_dir().expect("first root");
    assert_eq!("/r2", d1);
    r.record_child(&d1, &"shared".to_string(), true, &Classification::Repo);
    // The duplicate root is skipped outright.
    let d2 = r.next_dir().expect("next unvisited directory");
    assert_eq!("/r2/shared", d2);
    let d3 = r.next_dir().expect("remaining root");
    assert_eq!("/r1", d3);
    // The same child offered again changes nothing.
    r.record_child(&d1, &"shared".to_string(), true, &Classification::Repo);
    assert!(r.next_dir().is_none());

    let projects = r.projects();
    assert_eq!(1, projects.len());
    assert_eq!("/r2/shared", projects[0]);
}

#[test]
fn bare_repo_reached_twice_adds_each_worktree_once() {
    let mut r = Resolver::new(vec!["/a".to_string(), "/b".to_string()]);
    let wt = || Classification::BareRepo { worktrees: vec!["main".to_string()] };
    let d1 = r.next_dir().unwrap();
    assert_eq!("/b", d1);
    r.record_child(&"/x".to_string(), &"bare".to_string(), true, &wt());
    let d2 = r.next_dir().unwrap();
    assert_eq!("/a", d2);
    r.record_child(&"/x".to_string(), &"bare".to_string(), true, &wt());
    assert!(r.next_dir().is_none());
    let projects = r.projects();
    assert_eq!(1, projects.len());
    assert_eq!("/x/bare/main", projects[0]);
}

#[test]
fn non_directory_children_are_ignored() {
    let mut r = Resolver::new(vec!["/r".to_string()]);
    let d = r.next_dir().unwrap();
    r.record_child(&d, &"notes.txt".to_string(), false, &Classification::NotARepo);
    assert!(r.next_dir().is_none());
    assert_eq!(0, r.projects().len());
}

#[test]
fn wants_child_filters_metadata_non_dirs_and_visited() {
    let mut r = Resolver::new(vec!["/r".to_string()]);
    let d = r.next_dir().unwrap();
    assert!(r.wants_child(&d, &"proj".to_string(), true));
    assert!(!r.wants_child(&d, &".git".to_string(), true));
    assert!(!r.wants_child(&d, &"file".to_string(), false));
    r.record_child(&d, &"proj".to_string(), true, &Classification::NotARepo);
    // The child joins the visited set once it is handed out for expansion.
    assert_eq!(Some("/r/proj".to_string()), r.next_dir());
    assert!(!r.wants_child(&d, &"proj".to_string(), true));
}
