use klaar::cache::registry::Registry;
use klaar::cache::watcher::{process_event, Change, FileWatcher, WatchStep};
use klaar::cache::SearchCache;
use klaar::tools::index::{ProjectIndex, SymbolEntry};
use std::sync::Arc;

#[test]
fn test_cache_overflow_recovery_targeted() {
    let mut cache = SearchCache::new();

    let proj_a = "/tmp/project-a".to_string();
    let proj_b = "/tmp/project-b".to_string();

    let key_a = SearchCache::key_search(&proj_a, "query", false, None);
    let key_b = SearchCache::key_search(&proj_b, "query", false, None);

    // 1. Insert search records into cache for both projects
    cache.insert_search(&proj_a, key_a.clone(), "result_a".to_string());
    cache.insert_search(&proj_b, key_b.clone(), "result_b".to_string());

    // Verify they exist
    assert_eq!(cache.cached(&key_a), Some("result_a".to_string()));
    assert_eq!(cache.cached(&key_b), Some("result_b".to_string()));

    // 2. Simulate modifications exclusively for Project A
    cache.record_modified(&proj_a, "/tmp/project-a/src/main.rs");

    // 3. Trigger targeted eviction for active projects
    cache.clear_volatile_for_active_projects();

    // 4. Verify Project A's search is evicted, but Project B's is preserved
    assert!(cache.cached(&key_a).is_none());
    assert!(cache.cached(&key_b).is_some());
}

#[test]
fn test_watcher_storm_stress() {
    let mut cache = SearchCache::new();
    let root = "/tmp/storm".to_string();
    for i in 0..100 {
        let changes = vec![Change {
            path: format!("{root}/storm_file_{i}.txt"),
            root: Some(root.clone()),
        }];
        process_event(&mut cache, false, &changes);
    }
    let len = cache.modified_files.count(&root).unwrap_or(0);
    assert!(len <= 50, "Modified files set grew unbounded: {len}");
    assert!(cache.modified_files.len() <= 20, "Project keys grew unbounded");
    assert_eq!(len, 50);
}

#[test]
fn modified_projects_are_capped() {
    let mut cache = SearchCache::new();
    for i in 0..30 {
        cache.record_modified(&format!("/p{i}"), &format!("/p{i}/f"));
    }
    assert_eq!(cache.modified_files.len(), 20);
    // A known project still takes files.
    cache.record_modified("/p0", "/p0/g");
    assert_eq!(cache.modified_files.count("/p0"), Some(2));
    assert_eq!(cache.modified_files.count("/p25"), None);
    let mut taken = cache.take_modified("/p0");
    taken.sort();
    assert_eq!(taken, vec!["/p0/f".to_string(), "/p0/g".to_string()]);
    assert!(cache.take_modified("/p0").is_empty());
}

#[test]
fn keys_have_their_forms() {
    assert_eq!(SearchCache::key_search("/p", "q", true, Some("*.rs")), "search:/p:q:true:*.rs");
    assert_eq!(SearchCache::key_search("/p", "q", false, None), "search:/p:q:false:");
    assert_eq!(SearchCache::key_read("/p/a.rs", "full"), "read:/p/a.rs:full");
}

#[test]
fn a_change_evicts_what_is_stale_and_nothing_else() {
    let mut cache = SearchCache::new();
    cache.insert_read("/p/a.rs", "full", "a full");
    cache.insert_read("/p/a.rs", "skeleton", "a skeleton");
    cache.insert_read("/p/a.rs", "compressed", "a compressed");
    cache.insert_read("/p/b.rs", "full", "b full");
    let inside = SearchCache::key_search("/p", "q", true, None);
    let beside = SearchCache::key_search("/pq", "q", true, None);
    cache.insert_search("/p", inside.clone(), "in p".to_string());
    cache.insert_search("/pq", beside.clone(), "in pq".to_string());
    cache.insert_last_sent("one".to_string(), "/p/a.rs".to_string(), "old a".to_string());
    cache.insert_last_sent("two".to_string(), "/p/a.rs".to_string(), "old a".to_string());
    cache.insert_last_sent("one".to_string(), "/p/b.rs".to_string(), "old b".to_string());
    cache.insert_symbol_index("/p", Arc::new(ProjectIndex::new()));
    cache.insert_symbol_index("/pq", Arc::new(ProjectIndex::new()));

    cache.invalidate_path("/p/a.rs");

    for mode in ["full", "skeleton", "compressed"] {
        assert_eq!(cache.cached(&SearchCache::key_read("/p/a.rs", mode)), None);
    }
    assert_eq!(cache.cached(&SearchCache::key_read("/p/b.rs", "full")), Some("b full".to_string()));
    assert_eq!(cache.cached(&inside), None);
    assert_eq!(cache.cached(&beside), Some("in pq".to_string()));
    assert_eq!(cache.last_sent("one", "/p/a.rs"), None);
    assert_eq!(cache.last_sent("two", "/p/a.rs"), None);
    assert_eq!(cache.last_sent("one", "/p/b.rs"), Some("old b".to_string()));
    assert!(cache.symbol_index("/p").is_none());
    assert!(cache.symbol_index("/pq").is_some());
}

#[test]
fn symbol_indexes_come_back_as_they_were() {
    let mut cache = SearchCache::new();
    let index = ProjectIndex {
        symbols: vec![SymbolEntry { name: "f".to_string(), locations: Vec::new() }],
    };
    cache.insert_symbol_index("/p", Arc::new(index));
    let found = cache.symbol_index("/p").expect("the index was just inserted");
    assert!(found.find("f").is_some());
    assert!(found.find("g").is_none());
}

#[test]
fn clearing_keeps_or_drops_the_right_layers() {
    let mut cache = SearchCache::new();
    let key = SearchCache::key_search("/p", "q", true, None);
    cache.insert_search("/p", key.clone(), "found".to_string());
    cache.insert_last_sent("one".to_string(), "/p/a.rs".to_string(), "old".to_string());
    cache.insert_symbol_index("/p", Arc::new(ProjectIndex::new()));

    cache.clear_volatile();
    assert_eq!(cache.cached(&key), None);
    assert_eq!(cache.search_keys.len(), 0);
    assert_eq!(cache.last_sent("one", "/p/a.rs"), Some("old".to_string()));
    assert!(cache.symbol_index("/p").is_some());

    cache.insert_search("/p", key.clone(), "found".to_string());
    cache.record_modified("/p", "/p/a.rs");
    cache.clear_all();
    assert_eq!(cache.cached(&key), None);
    assert_eq!(cache.last_sent("one", "/p/a.rs"), None);
    assert!(cache.symbol_index("/p").is_none());
    assert_eq!(cache.modified_files.len(), 0);
    assert_eq!(cache.last_sent_agents.len(), 0);
}

#[test]
fn a_flush_without_active_projects_clears_everything_volatile() {
    let mut cache = SearchCache::new();
    let key = SearchCache::key_search("/p", "q", true, None);
    cache.insert_search("/p", key.clone(), "found".to_string());
    cache.insert_read("/p/a.rs", "full", "text");
    cache.clear_volatile_for_active_projects();
    assert_eq!(cache.cached(&key), None);
    assert_eq!(cache.cached(&SearchCache::key_read("/p/a.rs", "full")), None);
}

#[test]
fn a_flush_drops_the_reads_of_modified_files() {
    let mut cache = SearchCache::new();
    cache.insert_read("/p/a.rs", "full", "a");
    cache.insert_read("/p/b.rs", "full", "b");
    cache.record_modified("/p", "/p/a.rs");
    cache.clear_volatile_for_active_projects();
    assert_eq!(cache.cached(&SearchCache::key_read("/p/a.rs", "full")), None);
    assert_eq!(cache.cached(&SearchCache::key_read("/p/b.rs", "full")), Some("b".to_string()));
    assert_eq!(cache.modified_files.len(), 0);
}

#[test]
fn compaction_keeps_live_keys() {
    let mut cache = SearchCache::new();
    let keys: Vec<String> =
        (0..210).map(|i| SearchCache::key_search("/p", &format!("q{i}"), true, None)).collect();
    for k in &keys {
        cache.insert_search("/p", k.clone(), "found".to_string());
    }
    // Nothing was lost, so everything is still registered.
    let live = keys.iter().filter(|k| cache.cached(k).is_some()).count();
    assert_eq!(cache.search_keys.count("/p"), Some(live));
    assert_eq!(live, 210);
    cache.invalidate_path("/p/x.rs");
    assert!(keys.iter().all(|k| cache.cached(k).is_none()));
    assert_eq!(cache.search_keys.len(), 0);
}

#[test]
fn compaction_drops_lost_keys() {
    let mut cache = SearchCache::new();
    let keys: Vec<String> =
        (0..200).map(|i| SearchCache::key_search("/p", &format!("q{i}"), true, None)).collect();
    for k in &keys {
        cache.insert_search("/p", k.clone(), "found".to_string());
    }
    cache.insert_last_sent("one".to_string(), "/p/a.rs".to_string(), "old".to_string());
    // The cache loses entries without telling the registries.
    for k in &keys[10..] {
        cache.content.invalidate(k);
    }
    cache.last_sent.invalidate(&("one".to_string(), "/p/a.rs".to_string()));
    assert_eq!(cache.search_keys.count("/p"), Some(200));
    assert_eq!(cache.last_sent_agents.count("/p/a.rs"), Some(1));
    // One key too many starts the compaction.
    let last = SearchCache::key_search("/p", "last", true, None);
    cache.insert_search("/p", last.clone(), "found".to_string());
    assert_eq!(cache.search_keys.count("/p"), Some(11));
    assert!(cache.search_keys.has("/p", &keys[0]));
    assert!(!cache.search_keys.has("/p", &keys[10]));
    assert!(cache.search_keys.has("/p", &last));
    assert_eq!(cache.last_sent_agents.count("/p/a.rs"), None);
}

#[test]
fn events_evict_and_record() {
    let mut cache = SearchCache::new();
    cache.insert_read("/p/a.rs", "full", "a");
    cache.insert_read("/p/b.rs", "full", "b");
    let changes = vec![
        Change { path: "/p/a.rs".to_string(), root: Some("/p".to_string()) },
        Change { path: "/q/c.rs".to_string(), root: None },
    ];
    process_event(&mut cache, false, &changes);
    assert_eq!(cache.cached(&SearchCache::key_read("/p/a.rs", "full")), None);
    assert_eq!(cache.cached(&SearchCache::key_read("/p/b.rs", "full")), Some("b".to_string()));
    assert!(cache.modified_files.has("/p", "/p/a.rs"));
    assert_eq!(cache.modified_files.len(), 1);

    // After an overflow the active projects are flushed first.
    cache.insert_read("/p/a.rs", "full", "a again");
    process_event(&mut cache, true, &Vec::new());
    assert_eq!(cache.cached(&SearchCache::key_read("/p/a.rs", "full")), None);
    assert_eq!(cache.cached(&SearchCache::key_read("/p/b.rs", "full")), Some("b".to_string()));
    assert_eq!(cache.modified_files.len(), 0);
}

#[test]
fn directories_are_watched_once() {
    let mut w = FileWatcher::new();
    assert!(matches!(w.watch("/p", true), WatchStep::Start));
    match w.watch("/missing", false) {
        WatchStep::Missing(e) => assert_eq!(e, "Path does not exist: /missing"),
        _ => panic!("a missing directory cannot be watched"),
    }
    w.started("/p");
    assert!(matches!(w.watch("/p", true), WatchStep::AlreadyWatched));
    assert!(matches!(w.watch("/p", false), WatchStep::AlreadyWatched));
    assert!(matches!(w.watch("/q", true), WatchStep::Start));
}

#[test]
fn a_default_cache_is_empty() {
    let mut cache = SearchCache::default();
    assert_eq!(cache.cached("anything"), None);
    assert_eq!(cache.search_keys.len(), 0);
}

#[test]
fn registries_keep_what_is_live() {
    let mut registry = Registry::new();
    registry.add("/p", "a");
    registry.add("/p", "b");
    registry.add("/q", "a");
    let mut live = Registry::new();
    live.add("/p", "b");
    live.add("/p", "c");
    registry.retain_live(&live);
    assert!(registry.has("/p", "b"));
    assert!(!registry.has("/p", "a"));
    assert!(!registry.has("/p", "c"));
    assert!(!registry.has("/q", "a"));
}

#[test]
fn compaction_keeps_what_is_cached() {
    let mut cache = SearchCache::new();
    let key = SearchCache::key_search("/p", "q", false, None);
    cache.insert_search("/p", key.clone(), "found".to_string());
    cache.insert_last_sent("me".to_string(), "/p/a.rs".to_string(), "text".to_string());
    cache.compact_registries();
    assert_eq!(cache.cached(&key), Some("found".to_string()));
    assert_eq!(cache.last_sent("me", "/p/a.rs"), Some("text".to_string()));
    // The search is still registered, so an edit in the project takes it out.
    cache.invalidate_path("/p/a.rs");
    assert_eq!(cache.cached(&key), None);
}
