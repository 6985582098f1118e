use std::time::{Duration, Instant};

use agent_gear::watcher::{change_for_raw, ChangeKind, Debouncer, RawEventKind};

fn wait(ms: u64) {
    let start = Instant::now();
    while start.elapsed() < Duration::from_millis(ms) {
        std::hint::spin_loop();
    }
}

#[test]
fn test_debouncer_basic() {
    let mut debouncer = Debouncer::new(50);

    debouncer.add_event("/test/file.txt".to_string(), ChangeKind::Created);

    // Should not flush immediately
    let events = debouncer.flush();
    assert!(events.is_empty());

    // Wait for debounce
    wait(60);

    let events = debouncer.flush();
    assert_eq!(events.len(), 1);
    assert_eq!(events[0].path, "/test/file.txt");
}

#[test]
fn test_debouncer_merge_create_delete() {
    let mut debouncer = Debouncer::new(50);

    debouncer.add_event("/test/file.txt".to_string(), ChangeKind::Created);
    debouncer.add_event("/test/file.txt".to_string(), ChangeKind::Deleted);

    // Created + Deleted = nothing
    assert!(!debouncer.has_pending());
}

#[test]
fn test_debouncer_merge_create_modify() {
    let mut debouncer = Debouncer::new(50);

    debouncer.add_event("/test/file.txt".to_string(), ChangeKind::Created);
    debouncer.add_event("/test/file.txt".to_string(), ChangeKind::Modified);

    wait(60);

    let events = debouncer.flush();
    assert_eq!(events.len(), 1);
    // Should still be Created (not Modified)
    assert!(matches!(events[0].kind, ChangeKind::Created));
}

#[test]
fn create_then_delete_leaves_nothing_for_flush_all() {
    let mut d = Debouncer::new(50);
    d.add_event_at("/r/other.txt".to_string(), ChangeKind::Modified, 1);
    d.add_event_at("/r/p.txt".to_string(), ChangeKind::Created, 2);
    d.add_event_at("/r/p.txt".to_string(), ChangeKind::Deleted, 3);
    let all = d.flush_all();
    assert_eq!(all.len(), 1);
    assert_eq!(all[0].path, "/r/other.txt");
    assert!(all.iter().all(|e| e.path != "/r/p.txt"));
    assert!(!d.has_pending());
}

#[test]
fn create_dominates_modify_and_keeps_first_timestamp() {
    let mut d = Debouncer::new(50);
    d.add_event_at("/r/p.txt".to_string(), ChangeKind::Created, 1_000);
    d.add_event_at("/r/p.txt".to_string(), ChangeKind::Modified, 40_000_000);
    // 50 ms after the creation, but only 11 ms after the modification.
    let out = d.flush_at(51_000_000);
    assert_eq!(out.len(), 1);
    assert_eq!(out[0].kind, ChangeKind::Created);
    assert_eq!(out[0].timestamp, 1_000);
    assert!(!d.has_pending());
}

#[test]
fn flush_at_splits_by_age() {
    let mut d = Debouncer::new(10);
    d.add_event_at("/a".to_string(), ChangeKind::Modified, 0);
    d.add_event_at("/b".to_string(), ChangeKind::Modified, 5_000_000);
    d.add_event_at("/c".to_string(), ChangeKind::Modified, 10_000_000);
    let out = d.flush_at(15_000_000);
    let paths: Vec<&str> = out.iter().map(|e| e.path.as_str()).collect();
    assert_eq!(paths, vec!["/a", "/b"]);
    assert!(d.has_pending());
    let rest = d.flush_all();
    assert_eq!(rest.len(), 1);
    assert_eq!(rest[0].path, "/c");
}

#[test]
fn later_event_replaces_earlier_one() {
    let mut d = Debouncer::new(10);
    d.add_event_at("/a".to_string(), ChangeKind::Modified, 0);
    d.add_event_at("/a".to_string(), ChangeKind::Deleted, 7);
    let all = d.flush_all();
    assert_eq!(all.len(), 1);
    assert_eq!(all[0].kind, ChangeKind::Deleted);
    assert_eq!(all[0].timestamp, 7);
}

#[test]
fn zero_window_flushes_at_once() {
    let mut d = Debouncer::new(0);
    d.add_event_at("/a".to_string(), ChangeKind::Created, 100);
    assert_eq!(d.flush_at(100).len(), 1);
}

#[test]
fn raw_kinds_map_to_changes() {
    assert_eq!(change_for_raw(RawEventKind::CreateFile), Some(ChangeKind::Created));
    assert_eq!(change_for_raw(RawEventKind::CreateFolder), Some(ChangeKind::Created));
    assert_eq!(change_for_raw(RawEventKind::CreateAny), Some(ChangeKind::Created));
    assert_eq!(change_for_raw(RawEventKind::CreateOther), None);
    assert_eq!(change_for_raw(RawEventKind::ModifyData), Some(ChangeKind::Modified));
    assert_eq!(change_for_raw(RawEventKind::ModifyMetadata), None);
    assert_eq!(change_for_raw(RawEventKind::RenameFrom), Some(ChangeKind::Deleted));
    assert_eq!(change_for_raw(RawEventKind::RenameTo), Some(ChangeKind::Created));
    assert_eq!(change_for_raw(RawEventKind::RemoveFile), Some(ChangeKind::Deleted));
    assert_eq!(change_for_raw(RawEventKind::RemoveAny), Some(ChangeKind::Deleted));
    assert_eq!(change_for_raw(RawEventKind::Access), None);
    assert_eq!(change_for_raw(RawEventKind::Other), None);
}

#[test]
fn raw_rename_with_both_paths_is_one_entry_on_source() {
    let mut d = Debouncer::new(10);
    let paths = vec!["/r/old.txt".to_string(), "/r/new.txt".to_string()];
    d.add_raw_event_at(RawEventKind::RenameBoth, &paths, 3);
    let all = d.flush_all();
    assert_eq!(all.len(), 1);
    assert_eq!(all[0].path, "/r/old.txt");
    assert_eq!(
        all[0].kind,
        ChangeKind::Renamed { from: "/r/old.txt".to_string(), to: "/r/new.txt".to_string() }
    );
}

#[test]
fn raw_rename_with_one_path_is_dropped() {
    let mut d = Debouncer::new(10);
    d.add_raw_event_at(RawEventKind::RenameBoth, &vec!["/r/old.txt".to_string()], 3);
    assert!(!d.has_pending());
}

#[test]
fn raw_event_with_many_paths_records_each() {
    let mut d = Debouncer::new(10);
    let paths = vec!["/r/a".to_string(), "/r/b".to_string()];
    d.add_raw_event_at(RawEventKind::RemoveFile, &paths, 1);
    d.add_raw_event_at(RawEventKind::Access, &vec!["/r/c".to_string()], 1);
    let all = d.flush_all();
    assert_eq!(all.len(), 2);
    assert!(all.iter().all(|e| e.kind == ChangeKind::Deleted));
}

#[test]
fn replaced_entry_moves_behind_older_ones() {
    let mut d = Debouncer::new(10);
    d.add_event_at("/a".to_string(), ChangeKind::Modified, 0);
    d.add_event_at("/b".to_string(), ChangeKind::Modified, 1);
    d.add_event_at("/a".to_string(), ChangeKind::Modified, 2);
    let all = d.flush_all();
    let order: Vec<(&str, u64)> = all.iter().map(|e| (e.path.as_str(), e.timestamp)).collect();
    assert_eq!(order, vec![("/b", 1), ("/a", 2)]);
}

#[test]
fn clock_timestamps_never_go_back() {
    let mut d = Debouncer::new(1000);
    d.add_event_at("/a".to_string(), ChangeKind::Modified, u64::MAX / 2);
    d.add_event("/a".to_string(), ChangeKind::Modified);
    let all = d.flush_all();
    assert_eq!(all.len(), 1);
    assert!(all[0].timestamp >= u64::MAX / 2);
}
