use atelier::error::Error;
use atelier::tracker::{
    FileEvent, FileMetadata, FileStatus, FileTracker, FileTrackerEvent, FileType,
};

fn meta(last_modified: u64, length: u64) -> FileMetadata {
    FileMetadata {
        last_modified,
        length,
        file_type: FileType::File,
    }
}

fn root() -> Vec<u8> {
    b"/assets/".to_vec()
}

fn tracker() -> FileTracker {
    FileTracker::new(vec![root()])
}

fn path(name: &str) -> Vec<u8> {
    let mut p = root();
    p.extend_from_slice(name.as_bytes());
    p
}

/// Runs an initial empty scan; the tracker reports a `Start`.
fn initial_scan(t: &mut FileTracker) {
    t.handle_file_event(FileEvent::ScanStart(root())).unwrap();
    let emitted = t
        .handle_file_event(FileEvent::ScanEnd(root(), vec![root()]))
        .unwrap();
    assert!(matches!(emitted, Some(FileTrackerEvent::Start)));
}

#[test]
fn create_file_is_tracked_and_dirty() {
    let mut t = tracker();
    initial_scan(&mut t);
    let p = path("test.txt");
    t.handle_file_event(FileEvent::Updated(p.clone(), meta(10, 4)))
        .unwrap();
    let st = t.get_file_state(&p).expect("tracked after create");
    assert_eq!(st.length, 4);
    assert_eq!(st.last_modified, 10);
    let dirty = t.read_dirty_files();
    assert_eq!(dirty.len(), 1);
    assert_eq!(dirty[0].path, p);
    assert!(matches!(dirty[0].state, FileStatus::Exists));
}

#[test]
fn modify_file_updates_length_and_redirties() {
    let mut t = tracker();
    initial_scan(&mut t);
    let p = path("test.txt");
    t.handle_file_event(FileEvent::Updated(p.clone(), meta(10, 4)))
        .unwrap();
    t.delete_dirty_file_state(&p);
    assert_eq!(t.read_dirty_files().len(), 0);
    // truncate to zero bytes
    t.handle_file_event(FileEvent::Updated(p.clone(), meta(11, 0)))
        .unwrap();
    let st = t.get_file_state(&p).expect("still tracked");
    assert_eq!(st.length, 0);
    let dirty = t.read_dirty_files();
    assert_eq!(dirty.len(), 1);
    assert!(matches!(dirty[0].state, FileStatus::Exists));
}

#[test]
fn unchanged_update_is_a_no_op() {
    let mut t = tracker();
    let p = path("test.txt");
    t.handle_file_event(FileEvent::Updated(p.clone(), meta(10, 4)))
        .unwrap();
    t.delete_dirty_file_state(&p);
    t.handle_file_event(FileEvent::Updated(p.clone(), meta(10, 4)))
        .unwrap();
    assert_eq!(t.read_dirty_files().len(), 0);
}

#[test]
fn delete_file_leaves_last_known_info() {
    let mut t = tracker();
    initial_scan(&mut t);
    let p = path("test.txt");
    t.handle_file_event(FileEvent::Updated(p.clone(), meta(10, 4)))
        .unwrap();
    t.delete_dirty_file_state(&p);
    t.handle_file_event(FileEvent::Removed(p.clone())).unwrap();
    assert!(t.get_file_state(&p).is_none());
    let dirty = t.read_dirty_files();
    assert_eq!(dirty.len(), 1);
    assert!(matches!(dirty[0].state, FileStatus::Deleted));
    assert_eq!(dirty[0].length, 4);
}

#[test]
fn rename_moves_row_and_logs_event() {
    let mut t = tracker();
    let a = path("a.txt");
    let b = path("b.txt");
    t.handle_file_event(FileEvent::Updated(a.clone(), meta(10, 4)))
        .unwrap();
    t.handle_file_event(FileEvent::Renamed(a.clone(), b.clone(), meta(10, 4)))
        .unwrap();
    assert!(t.get_file_state(&a).is_none());
    assert!(t.get_file_state(&b).is_some());
    let dirty = t.read_dirty_files();
    let a_row = dirty.iter().find(|f| f.path == a).expect("row for a");
    let b_row = dirty.iter().find(|f| f.path == b).expect("row for b");
    assert!(matches!(a_row.state, FileStatus::Deleted));
    assert!(matches!(b_row.state, FileStatus::Exists));
    let renames = t.read_rename_events();
    assert_eq!(renames.len(), 1);
    assert_eq!(renames[0].0, 1);
    assert_eq!(renames[0].1.src, a);
    assert_eq!(renames[0].1.dst, b);
}

#[test]
fn rename_sequence_numbers_are_dense() {
    let mut t = tracker();
    let a = path("a.txt");
    let b = path("b.txt");
    let c = path("c.txt");
    t.handle_file_event(FileEvent::Updated(a.clone(), meta(1, 1)))
        .unwrap();
    t.handle_file_event(FileEvent::Renamed(a.clone(), b.clone(), meta(1, 1)))
        .unwrap();
    t.handle_file_event(FileEvent::Renamed(b.clone(), c.clone(), meta(1, 1)))
        .unwrap();
    let renames = t.read_rename_events();
    assert_eq!(renames.len(), 2);
    assert_eq!(renames[0].0, 1);
    assert_eq!(renames[1].0, 2);
    t.clear_rename_events();
    assert_eq!(t.read_rename_events().len(), 0);
}

#[test]
fn scan_removes_unobserved_files() {
    let mut t = tracker();
    let p = path("stale.txt");
    t.handle_file_event(FileEvent::Updated(p.clone(), meta(1, 7)))
        .unwrap();
    t.delete_dirty_file_state(&p);
    // a fresh scan of the root sees nothing
    t.handle_file_event(FileEvent::ScanStart(root())).unwrap();
    let emitted = t
        .handle_file_event(FileEvent::ScanEnd(root(), vec![root()]))
        .unwrap();
    assert!(matches!(emitted, Some(FileTrackerEvent::Start)));
    assert!(t.get_file_state(&p).is_none());
    let dirty = t.read_dirty_files();
    assert_eq!(dirty.len(), 1);
    assert!(matches!(dirty[0].state, FileStatus::Deleted));
    assert_eq!(dirty[0].length, 7);
}

#[test]
fn scan_keeps_observed_files() {
    let mut t = tracker();
    let p = path("kept.txt");
    t.handle_file_event(FileEvent::ScanStart(root())).unwrap();
    t.handle_file_event(FileEvent::Updated(p.clone(), meta(2, 9)))
        .unwrap();
    t.handle_file_event(FileEvent::ScanEnd(root(), vec![root()]))
        .unwrap();
    assert!(t.get_file_state(&p).is_some());
    assert_eq!(t.read_all_files().len(), 1);
}

#[test]
fn top_level_scan_prunes_unwatched_roots() {
    let mut t = tracker();
    let other = b"/elsewhere/old.txt".to_vec();
    t.handle_file_event(FileEvent::Updated(other.clone(), meta(3, 2)))
        .unwrap();
    // the outermost scan ends with only the asset root watched
    t.handle_file_event(FileEvent::ScanStart(root())).unwrap();
    t.handle_file_event(FileEvent::ScanEnd(root(), vec![root()]))
        .unwrap();
    assert!(t.get_file_state(&other).is_none());
}

#[test]
fn transient_watcher_error_is_absorbed() {
    let mut t = tracker();
    let p = path("test.txt");
    t.handle_file_event(FileEvent::Updated(p.clone(), meta(1, 1)))
        .unwrap();
    let r = t.handle_file_event(FileEvent::FileError(false, "busy".to_string()));
    assert!(r.is_ok());
    assert!(t.get_file_state(&p).is_some());
    let r = t.handle_file_event(FileEvent::FileError(true, "watch handle lost".to_string()));
    assert!(matches!(r, Err(Error::Io(_))));
    // the fatal error changed nothing
    assert!(t.get_file_state(&p).is_some());
}

fn event_stream() -> Vec<FileEvent> {
    vec![
        FileEvent::ScanStart(root()),
        FileEvent::Updated(path("a.txt"), meta(1, 10)),
        FileEvent::Updated(path("b.txt"), meta(2, 20)),
        FileEvent::ScanEnd(root(), vec![root()]),
        FileEvent::Renamed(path("a.txt"), path("c.txt"), meta(3, 10)),
        FileEvent::Removed(path("b.txt")),
        FileEvent::Updated(path("d.txt"), meta(4, 5)),
    ]
}

#[test]
fn replaying_a_stream_is_deterministic() {
    let mut t1 = tracker();
    let mut t2 = tracker();
    for e in event_stream() {
        t1.handle_file_event(e).unwrap();
    }
    for e in event_stream() {
        t2.handle_file_event(e).unwrap();
    }
    let all1 = t1.read_all_files();
    let all2 = t2.read_all_files();
    assert_eq!(all1.len(), all2.len());
    for f in &all1 {
        assert!(all2.iter().any(|g| g == f));
    }
    let d1 = t1.read_dirty_files();
    let d2 = t2.read_dirty_files();
    assert_eq!(d1.len(), d2.len());
    for f in &d1 {
        assert!(d2.iter().any(|g| g == f));
    }
    let r1 = t1.read_rename_events();
    let r2 = t2.read_rename_events();
    assert_eq!(r1.len(), r2.len());
    for i in 0..r1.len() {
        assert_eq!(r1[i].0, r2[i].0);
        assert_eq!(r1[i].1.src, r2[i].1.src);
        assert_eq!(r1[i].1.dst, r2[i].1.dst);
    }
}

#[test]
fn add_dirty_file_by_hand() {
    let mut t = tracker();
    let p = path("manual.txt");
    t.add_dirty_file(&p, Some(meta(5, 3)));
    assert!(t.get_file_state(&p).is_some());
    assert!(t.get_dirty_file_state(&p).is_some());
    t.delete_dirty_file_state(&p);
    // without an observation, a tracked path is marked deleted
    t.add_dirty_file(&p, None);
    let dirty = t.read_dirty_files();
    assert_eq!(dirty.len(), 1);
    assert!(matches!(dirty[0].state, FileStatus::Deleted));
    // an untracked path without an observation is a no-op
    let mut t2 = tracker();
    t2.add_dirty_file(&path("ghostly.txt"), None);
    assert_eq!(t2.read_dirty_files().len(), 0);
}

#[test]
fn watch_dirs_are_kept() {
    let t = tracker();
    assert_eq!(t.get_watch_dirs().len(), 1);
    assert_eq!(t.get_watch_dirs()[0], root());
}

#[test]
fn change_detection_matches_the_tables() {
    let mut t = tracker();
    let p = path("test.txt");
    assert!(t.event_changes_tables(&FileEvent::Updated(p.clone(), meta(1, 1))));
    t.handle_file_event(FileEvent::Updated(p.clone(), meta(1, 1)))
        .unwrap();
    // an unchanged observation writes nothing
    assert!(!t.event_changes_tables(&FileEvent::Updated(p.clone(), meta(1, 1))));
    assert!(!t.event_changes_tables(&FileEvent::ScanStart(root())));
    assert!(!t.event_changes_tables(&FileEvent::FileError(false, "busy".to_string())));
    assert!(t.event_changes_tables(&FileEvent::Removed(p.clone())));
    assert!(!t.event_changes_tables(&FileEvent::Removed(path("absent.txt"))));
    assert!(t.event_changes_tables(&FileEvent::Renamed(
        p.clone(),
        path("other.txt"),
        meta(1, 1)
    )));
    // a scan that saw nothing removes the tracked file, so it writes
    t.handle_file_event(FileEvent::ScanStart(root())).unwrap();
    assert!(t.event_changes_tables(&FileEvent::ScanEnd(root(), vec![root()])));
    // over empty tables the same scan writes nothing
    let mut fresh = tracker();
    fresh.handle_file_event(FileEvent::ScanStart(root())).unwrap();
    assert!(!fresh.event_changes_tables(&FileEvent::ScanEnd(root(), vec![root()])));
}

#[test]
fn exported_rows_restore_the_tracker() {
    let mut t = tracker();
    let a = path("a.txt");
    let b = path("b.txt");
    t.handle_file_event(FileEvent::Updated(a.clone(), meta(1, 10)))
        .unwrap();
    t.handle_file_event(FileEvent::Updated(b.clone(), meta(2, 20)))
        .unwrap();
    t.handle_file_event(FileEvent::Renamed(a.clone(), path("c.txt"), meta(3, 10)))
        .unwrap();
    // a restart: the exported rows rebuild identical tables
    let restored = atelier::tracker::FileTracker::restore(
        t.get_watch_dirs().clone(),
        t.export_source_rows(),
        t.export_dirty_rows(),
        t.read_rename_events().into_iter().map(|(_s, e)| e).collect(),
    );
    let all1 = t.read_all_files();
    let all2 = restored.read_all_files();
    assert_eq!(all1.len(), all2.len());
    for i in 0..all1.len() {
        assert!(all1[i] == all2[i]);
    }
    let d1 = t.read_dirty_files();
    let d2 = restored.read_dirty_files();
    assert_eq!(d1.len(), d2.len());
    for i in 0..d1.len() {
        assert!(d1[i] == d2[i]);
    }
    let r1 = t.read_rename_events();
    let r2 = restored.read_rename_events();
    assert_eq!(r1.len(), r2.len());
    for i in 0..r1.len() {
        // the sequence numbers continue where they left off
        assert_eq!(r1[i].0, r2[i].0);
        assert_eq!(r1[i].1.src, r2[i].1.src);
        assert_eq!(r1[i].1.dst, r2[i].1.dst);
    }
}

#[test]
fn read_rows_come_in_ascending_path_order() {
    let mut t = tracker();
    // inserted out of order on purpose
    t.handle_file_event(FileEvent::Updated(path("zz.txt"), meta(1, 1)))
        .unwrap();
    t.handle_file_event(FileEvent::Updated(path("aa.txt"), meta(2, 2)))
        .unwrap();
    t.handle_file_event(FileEvent::Updated(path("mm.txt"), meta(3, 3)))
        .unwrap();
    let rows = t.read_all_files();
    assert_eq!(rows.len(), 3);
    assert_eq!(rows[0].path, path("aa.txt"));
    assert_eq!(rows[1].path, path("mm.txt"));
    assert_eq!(rows[2].path, path("zz.txt"));
    let dirty = t.read_dirty_files();
    assert_eq!(dirty[0].path, path("aa.txt"));
    assert_eq!(dirty[2].path, path("zz.txt"));
}

#[test]
fn scan_of_one_root_keeps_the_other_watched_root() {
    let mut t = FileTracker::new(vec![b"/assets/".to_vec(), b"/extra/".to_vec()]);
    let kept = b"/extra/kept.txt".to_vec();
    let stale = path("stale.txt");
    t.handle_file_event(FileEvent::Updated(kept.clone(), meta(1, 1)))
        .unwrap();
    t.handle_file_event(FileEvent::Updated(stale.clone(), meta(2, 2)))
        .unwrap();
    // a full scan of the asset root sees nothing there, with both
    // roots still watched
    t.handle_file_event(FileEvent::ScanStart(root())).unwrap();
    t.handle_file_event(FileEvent::ScanEnd(
        root(),
        vec![root(), b"/extra/".to_vec()],
    ))
    .unwrap();
    assert!(t.get_file_state(&stale).is_none());
    assert!(t.get_file_state(&kept).is_some());
}
