use git_afk::config::{Configuration, RepositoryConfig};
use git_afk::events::EventClass;
use git_afk::registry::{parse_config, Registry, RegistryError};
use ignore::gitignore::{Gitignore, GitignoreBuilder};

fn no_rules() -> Gitignore {
    Gitignore::empty()
}

fn rules(root: &str, lines: &[&str]) -> Gitignore {
    let mut b = GitignoreBuilder::new(root);
    for l in lines {
        b.add_line(None, l).unwrap();
    }
    b.build().unwrap()
}

fn paths(d: &[git_afk::registry::Dispatch]) -> Vec<String> {
    d.iter().map(|x| x.path.clone()).collect()
}

#[test]
fn debounce_window_scenario() {
    let mut r = Registry::new();
    r.register("/repo".to_string(), 10, "auto", no_rules(), 0).unwrap();
    r.mark_dirty("/repo", 0);
    assert!(r.take_due(5).is_empty());
    r.mark_dirty("/repo", 6);
    assert_eq!(r.dirty_since("/repo"), Some(6));
    assert!(r.take_due(12).is_empty());
    let due = r.take_due(17);
    assert_eq!(paths(&due), vec!["/repo".to_string()]);
    assert_eq!(due[0].commit_msg, "auto");
    assert_eq!(r.dirty_since("/repo"), None);
    assert!(r.take_due(20).is_empty());
}

#[test]
fn due_exactly_at_window_end() {
    let mut r = Registry::new();
    r.register("/repo".to_string(), 10, "m", no_rules(), 6).unwrap();
    assert!(r.take_due(15).is_empty());
    assert_eq!(r.take_due(16).len(), 1);
}

#[test]
fn fresh_registration_is_dirty() {
    let mut r = Registry::new();
    r.register("/a".to_string(), 3, "m", no_rules(), 100).unwrap();
    assert_eq!(r.dirty_since("/a"), Some(100));
    assert_eq!(paths(&r.take_due(103)), vec!["/a".to_string()]);
}

#[test]
fn clean_repository_is_never_dispatched() {
    let mut r = Registry::new();
    r.register("/a".to_string(), 1, "m", no_rules(), 0).unwrap();
    assert_eq!(r.take_due(10).len(), 1);
    for t in [11u64, 100, 1000, u64::MAX] {
        assert!(r.take_due(t).is_empty());
    }
    assert_eq!(r.dirty_since("/a"), None);
}

#[test]
fn take_due_does_not_repeat() {
    let mut r = Registry::new();
    r.register("/a".to_string(), 1, "m", no_rules(), 0).unwrap();
    r.register("/b".to_string(), 50, "n", no_rules(), 0).unwrap();
    let first = r.take_due(10);
    assert_eq!(paths(&first), vec!["/a".to_string()]);
    assert!(r.take_due(11).is_empty());
    r.mark_dirty("/a", 12);
    assert_eq!(paths(&r.take_due(13)), vec!["/a".to_string()]);
    assert_eq!(paths(&r.take_due(60)), vec!["/b".to_string()]);
}

#[test]
fn mark_dirty_keeps_later_mark() {
    let mut r = Registry::new();
    r.register("/a".to_string(), 10, "m", no_rules(), 20).unwrap();
    r.mark_dirty("/a", 5);
    assert_eq!(r.dirty_since("/a"), Some(20));
    r.mark_dirty("/a", 25);
    assert_eq!(r.dirty_since("/a"), Some(25));
}

#[test]
fn mark_dirty_on_unknown_is_noop() {
    let mut r = Registry::new();
    r.register("/a".to_string(), 10, "m", no_rules(), 0).unwrap();
    r.take_due(10);
    r.mark_dirty("/zzz", 11);
    assert!(!r.is_registered("/zzz"));
    assert_eq!(r.dirty_since("/a"), None);
    assert_eq!(r.len(), 1);
}

#[test]
fn duplicate_registration_is_refused() {
    let mut r = Registry::new();
    r.register("/a".to_string(), 10, "m", no_rules(), 0).unwrap();
    r.take_due(10);
    assert_eq!(r.register("/a".to_string(), 1, "x", no_rules(), 50), Err(RegistryError::DuplicateIdentity));
    assert_eq!(r.len(), 1);
    assert_eq!(r.dirty_since("/a"), None);
}

#[test]
fn ignored_paths_never_mark_dirty() {
    let mut r = Registry::new();
    r.register("/repo".to_string(), 10, "m", rules("/repo", &["build/"]), 0).unwrap();
    r.take_due(10);
    let ignored = vec!["/repo/build/output.txt".to_string()];
    r.handle_watch_event("/repo", EventClass::Modify, &ignored, &vec![false], 20);
    assert_eq!(r.dirty_since("/repo"), None);
    assert!(r.take_due(1000).is_empty());
    let kept = vec!["/repo/src/main.x".to_string()];
    r.handle_watch_event("/repo", EventClass::Modify, &kept, &vec![false], 30);
    assert_eq!(r.dirty_since("/repo"), Some(30));
    assert_eq!(r.take_due(40).len(), 1);
}

#[test]
fn event_with_one_kept_path_qualifies() {
    let mut r = Registry::new();
    r.register("/repo".to_string(), 10, "m", rules("/repo", &["*.log"]), 0).unwrap();
    r.take_due(10);
    let p = vec!["/repo/a.log".to_string(), "/repo/b.txt".to_string()];
    r.handle_watch_event("/repo", EventClass::Create, &p, &vec![false, false], 20);
    assert_eq!(r.dirty_since("/repo"), Some(20));
}

#[test]
fn non_change_events_are_dropped() {
    let mut r = Registry::new();
    r.register("/repo".to_string(), 10, "m", no_rules(), 0).unwrap();
    r.take_due(10);
    let p = vec!["/repo/file".to_string()];
    for k in [EventClass::Access, EventClass::Metadata, EventClass::Other] {
        r.handle_watch_event("/repo", k, &p, &vec![false], 20);
    }
    assert_eq!(r.dirty_since("/repo"), None);
    r.handle_watch_event("/repo", EventClass::Remove, &p, &vec![false], 21);
    assert_eq!(r.dirty_since("/repo"), Some(21));
}

#[test]
fn record_event_with_all_paths_ignored() {
    let mut r = Registry::new();
    r.register("/repo".to_string(), 10, "m", no_rules(), 0).unwrap();
    r.take_due(10);
    r.record_event("/repo", EventClass::Modify, &vec![true, true], 20);
    assert_eq!(r.dirty_since("/repo"), None);
    r.record_event("/repo", EventClass::Modify, &vec![true, false], 21);
    assert_eq!(r.dirty_since("/repo"), Some(21));
}

fn config(entries: &[(&str, u64)]) -> Configuration {
    let mut c = Configuration::empty();
    for (p, d) in entries {
        c.repositories.push(RepositoryConfig::new(p, *d, "msg"));
    }
    c
}

#[test]
fn reload_replaces_watch_set() {
    let mut r = Registry::new();
    r.register("/a".to_string(), 10, "m", no_rules(), 0).unwrap();
    r.register("/b".to_string(), 10, "m", no_rules(), 0).unwrap();
    r.take_due(10);
    r.mark_dirty("/b", 15);
    let cfg = config(&[("/b", 5), ("/c", 7)]);
    let ids = r.reload(&cfg, vec![no_rules(), no_rules()], 100).unwrap();
    assert_eq!(ids, vec!["/b".to_string(), "/c".to_string()]);
    assert!(!r.is_registered("/a"));
    assert_eq!(r.dirty_since("/b"), Some(100));
    assert_eq!(r.dirty_since("/c"), Some(100));
    r.mark_dirty("/a", 101);
    r.handle_watch_event("/a", EventClass::Modify, &vec!["/a/x".to_string()], &vec![false], 102);
    assert!(!r.is_registered("/a"));
    assert_eq!(r.identities(), vec!["/b".to_string(), "/c".to_string()]);
    let due = r.take_due(105);
    assert_eq!(paths(&due), vec!["/b".to_string()]);
}

#[test]
fn reload_with_duplicate_paths_is_refused() {
    let mut r = Registry::new();
    r.register("/a".to_string(), 10, "m", no_rules(), 0).unwrap();
    let cfg = config(&[("/b", 5), ("/b", 7)]);
    assert_eq!(r.reload(&cfg, vec![no_rules(), no_rules()], 100), Err(RegistryError::DuplicateIdentity));
    assert_eq!(r.identities(), vec!["/a".to_string()]);
}

#[test]
fn parse_config_builds_dirty_entries() {
    let cfg = config(&[("/x", 5), ("/y", 9)]);
    let r = parse_config(&cfg, vec![no_rules(), no_rules()], 7).unwrap();
    assert_eq!(r.len(), 2);
    assert_eq!(r.dirty_since("/x"), Some(7));
    let mut r = r;
    assert_eq!(paths(&r.take_due(12)), vec!["/x".to_string()]);
    assert_eq!(paths(&r.take_due(16)), vec!["/y".to_string()]);
}

#[test]
fn overlapping_dispatch_keeps_registry_consistent() {
    let mut r = Registry::new();
    r.register("/x".to_string(), 2, "m", no_rules(), 0).unwrap();
    let first = r.take_due(5);
    assert_eq!(paths(&first), vec!["/x".to_string()]);
    // the commit started by `first` is still running: new changes arrive
    r.mark_dirty("/x", 6);
    let second = r.take_due(9);
    assert_eq!(paths(&second), vec!["/x".to_string()]);
    assert_eq!(r.len(), 1);
    assert_eq!(r.dirty_since("/x"), None);
    assert!(r.take_due(100).is_empty());
}

#[test]
fn replace_all_swaps_contents() {
    let mut r = Registry::new();
    r.register("/a".to_string(), 10, "m", no_rules(), 0).unwrap();
    let mut fresh = Registry::new();
    fresh.register("/z".to_string(), 1, "m", no_rules(), 3).unwrap();
    r.replace_all(fresh);
    assert_eq!(r.identities(), vec!["/z".to_string()]);
    assert_eq!(r.dirty_since("/z"), Some(3));
}

#[test]
fn events_inside_window_give_one_dispatch() {
    let mut r = Registry::new();
    r.register("/repo".to_string(), 10, "m", no_rules(), 0).unwrap();
    let mut dispatched = 0;
    for t in (0u64..=50).step_by(5) {
        r.mark_dirty("/repo", t);
        dispatched += r.take_due(t).len();
    }
    assert_eq!(dispatched, 0);
    for t in 51u64..=100 {
        dispatched += r.take_due(t).len();
    }
    assert_eq!(dispatched, 1);
}

#[test]
fn change_outside_repository_marks_dirty() {
    let mut r = Registry::new();
    r.register("/repo".to_string(), 10, "m", rules("/repo", &["*"]), 0).unwrap();
    r.take_due(10);
    let inside = vec!["/repo/x.txt".to_string()];
    r.handle_watch_event("/repo", EventClass::Modify, &inside, &vec![false], 20);
    assert_eq!(r.dirty_since("/repo"), None);
    let outside = vec!["/elsewhere/x.txt".to_string()];
    r.handle_watch_event("/repo", EventClass::Modify, &outside, &vec![false], 21);
    assert_eq!(r.dirty_since("/repo"), Some(21));
}

#[test]
fn burst_interleaved_with_sweeps_dispatches_once() {
    let mut r = Registry::new();
    r.register("/repo".to_string(), 10, "m", no_rules(), 0).unwrap();
    r.take_due(10);
    let p = vec!["/repo/f".to_string()];
    let mut dispatched = 0;
    let mut t = 20u64;
    while t <= 80 {
        r.handle_watch_event("/repo", EventClass::Modify, &p, &vec![false], t);
        dispatched += r.take_due(t + 4).len();
        dispatched += r.take_due(t + 8).len();
        t += 9;
    }
    assert_eq!(dispatched, 0);
    for s in (t..t + 40).step_by(3) {
        dispatched += r.take_due(s).len();
    }
    assert_eq!(dispatched, 1);
}
