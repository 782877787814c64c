use std::cmp::Ordering;

use tps::access_cache::AccessCache;
use tps::access_cache::CacheError;
use tps::session::Project;

#[test]
fn register_access_doesnt_eject_other_cache_lines_when_nonfull() {
    let mut access_cache = AccessCache::load_blank(None, 10);
    access_cache.register_access_at(&"/my/path/1".to_string(), 0);

    let project = Project::new("/my/path/2".into(), &vec![]);
    access_cache.register_access(&project.path);

    assert_eq!(2, access_cache.len());
}

#[test]
fn register_access_updates_existing_cache_line() {
    let mut access_cache = AccessCache::load_blank(None, 10);
    let target_path: String = "/my/path/2".into();
    access_cache.register_access_at(&"/my/path/1".to_string(), 0);
    access_cache.register_access_at(&target_path, 0);
    access_cache.register_access_at(&"/my/path/3".to_string(), 0);

    let project = Project::new("/my/path/2".into(), &vec![]);
    access_cache.register_access(&project.path);

    assert_eq!(3, access_cache.len());
    assert!(access_cache.contains_path(&target_path));
    assert_ne!(0, access_cache.get_access_time_for_project(&target_path));
}

#[test]
fn register_access_ejects_oldest_cache_line_over_capacity() {
    let mut access_cache = AccessCache::load_blank(None, 10);
    let target_path: String = "/my/path/0".into();
    let count: usize = 10;
    for i in 0..count {
        access_cache.register_access_at(&format!("/my/path/{}", i), i as i64);
    }

    assert_eq!(count, access_cache.len());

    let project = Project::new("/a/different/path".into(), &vec![]);
    access_cache.register_access(&project.path);

    assert_eq!(count, access_cache.len());
    assert!(!access_cache.contains_path(&target_path));
}

#[test]
fn capacity_never_exceeded_over_any_run_of_accesses() {
    let capacity: usize = 3;
    let mut cache = AccessCache::load_blank(None, capacity);
    let paths = ["/a", "/b", "/c", "/a", "/d", "/e", "/b", "/f", "/a"];
    for (i, p) in paths.iter().enumerate() {
        cache.register_access_at(&p.to_string(), i as i64);
        assert!(cache.len() <= capacity);
    }
}

#[test]
fn lru_eviction_drops_exactly_the_first_of_capacity_plus_one() {
    let capacity: usize = 4;
    let mut cache = AccessCache::load_blank(None, capacity);
    for i in 0..capacity + 1 {
        cache.register_access_at(&format!("/proj/{}", i), 100 + i as i64);
    }
    assert_eq!(capacity, cache.len());
    assert!(!cache.contains_path(&"/proj/0".to_string()));
    for i in 1..capacity + 1 {
        let p = format!("/proj/{}", i);
        assert!(cache.contains_path(&p));
        assert_eq!(100 + i as i64, cache.get_access_time_for_project(&p));
    }
}

#[test]
fn update_of_present_path_keeps_count_and_evicts_nothing() {
    let mut cache = AccessCache::load_blank(None, 2);
    cache.register_access_at(&"/p/old".to_string(), 10);
    cache.register_access_at(&"/p/new".to_string(), 20);
    cache.register_access_at(&"/p/old".to_string(), 30);
    assert_eq!(2, cache.len());
    assert!(cache.contains_path(&"/p/old".to_string()));
    assert!(cache.contains_path(&"/p/new".to_string()));
    assert_eq!(30, cache.get_access_time_for_project(&"/p/old".to_string()));
}

#[test]
fn capacity_two_scenario_keeps_the_two_most_recent() {
    let mut cache = AccessCache::load_blank(None, 2);
    cache.register_access_at(&"/p/1".to_string(), 1);
    cache.register_access_at(&"/p/2".to_string(), 2);
    cache.register_access_at(&"/p/3".to_string(), 3);
    assert_eq!(2, cache.len());
    assert!(!cache.contains_path(&"/p/1".to_string()));
    assert!(cache.contains_path(&"/p/2".to_string()));
    assert!(cache.contains_path(&"/p/3".to_string()));
}

#[test]
fn comparator_orders_most_recent_first_and_unseen_last() {
    let mut cache = AccessCache::load_blank(None, 10);
    let a = "/proj/a".to_string();
    let b = "/proj/b".to_string();
    let c = "/proj/c".to_string();
    cache.register_access_at(&a, 100);
    cache.register_access_at(&b, 200);
    assert_eq!(Ordering::Greater, cache.cmp_projects_by_access_cache_time(&a, &b));
    assert_eq!(Ordering::Less, cache.cmp_projects_by_access_cache_time(&b, &a));
    assert_eq!(Ordering::Less, cache.cmp_projects_by_access_cache_time(&a, &c));
    assert_eq!(Ordering::Less, cache.cmp_projects_by_access_cache_time(&b, &c));
    assert_eq!(Ordering::Equal, cache.cmp_projects_by_access_cache_time(&c, &c));
    assert_eq!(0, cache.get_access_time_for_project(&c));
}

#[test]
fn store_round_trip_preserves_every_entry() {
    let mut cache = AccessCache::load_blank(Some("/tmp/ignored".to_string()), 10);
    cache.register_access_at(&"/alpha".to_string(), 11);
    cache.register_access_at(&"/beta".to_string(), 22);
    cache.register_access_at(&"/gamma with space".to_string(), 33);

    let text = cache.store_contents();
    let reloaded = AccessCache::load_from_contents(Some(&text), None, 10)
        .expect("the rendered store should parse");

    assert_eq!(3, reloaded.len());
    assert_eq!(11, reloaded.get_access_time_for_project(&"/alpha".to_string()));
    assert_eq!(22, reloaded.get_access_time_for_project(&"/beta".to_string()));
    assert_eq!(33, reloaded.get_access_time_for_project(&"/gamma with space".to_string()));
}

#[test]
fn corrupt_store_is_refused() {
    let text = "this is [ not a path-to-timestamp table".to_string();
    match AccessCache::load_from_contents(Some(&text), None, 10) {
        Err(CacheError::StoreCorrupt(msg)) => assert!(!msg.is_empty()),
        _ => panic!("a malformed store must be refused as corrupt"),
    }
}

#[test]
fn missing_store_loads_an_empty_cache() {
    let cache = AccessCache::load_from_contents(None, Some("/tmp/store".to_string()), 5)
        .expect("a missing store means an empty cache");
    assert_eq!(0, cache.len());
    assert_eq!(Some(&"/tmp/store".to_string()), cache.store_location().as_ref());
}

#[test]
fn eject_oldest_to_size_trims_to_the_bound() {
    let mut cache = AccessCache::load_blank(None, 10);
    for i in 0..6 {
        cache.register_access_at(&format!("/e/{}", i), i as i64);
    }
    cache.eject_oldest_to_size(4);
    assert_eq!(4, cache.len());
    assert!(!cache.contains_path(&"/e/0".to_string()));
    assert!(!cache.contains_path(&"/e/1".to_string()));
    assert!(cache.contains_path(&"/e/5".to_string()));
    cache.eject_oldest_to_size(6);
    assert_eq!(4, cache.len());
}

#[test]
fn equal_timestamps_evict_the_earliest_recorded() {
    let mut cache = AccessCache::load_blank(None, 2);
    cache.register_access_at(&"/p/x".to_string(), 7);
    cache.register_access_at(&"/p/y".to_string(), 7);
    cache.register_access_at(&"/p/z".to_string(), 7);
    assert_eq!(2, cache.len());
    assert!(!cache.contains_path(&"/p/x".to_string()));
    assert!(cache.contains_path(&"/p/y".to_string()));
    assert!(cache.contains_path(&"/p/z".to_string()));
}
