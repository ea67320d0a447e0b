use usb_manager::db::{Database, EventType};
use usb_manager::file_scanner::ScanEntry;
use usb_manager::file_watcher::FileWatcher;

fn file(path: &str, len: u64) -> ScanEntry {
    ScanEntry {
        path: path.to_string(),
        name: Some(path.rsplit('/').next().unwrap().to_string()),
        is_dir: false,
        is_file: true,
        len,
    }
}

fn setup() -> (Database, FileWatcher, i64) {
    let mut db = Database::new(0);
    let id = db.create_activity_log("S1", EventType::Connect, 0).unwrap();
    (db, FileWatcher::new(id), id)
}

#[test]
fn debounce_records_once_per_window() {
    let (mut db, mut w, id) = setup();
    let x = file("/mnt/u/x.bin", 8);
    let mut recorded = 0;
    for t in [0u64, 1000, 2900, 3100] {
        if w.handle_copy_event(&mut db, &x, t).is_some() {
            recorded += 1;
        }
    }
    assert_eq!(recorded, 2);
    assert_eq!(db.get_file_snapshots(id).len(), 2);
}

#[test]
fn window_is_per_path() {
    let (mut db, mut w, _) = setup();
    assert!(w.handle_copy_event(&mut db, &file("/m/a.bin", 1), 0).is_some());
    assert!(w.handle_copy_event(&mut db, &file("/m/b.bin", 1), 10).is_some());
    assert!(w.handle_copy_event(&mut db, &file("/m/a.bin", 1), 2999).is_none());
    assert!(w.handle_copy_event(&mut db, &file("/m/a.bin", 1), 3000).is_some());
}

#[test]
fn noise_and_folders_are_skipped() {
    let (mut db, mut w, _) = setup();
    assert!(w.handle_copy_event(&mut db, &file("/m/~lock.tmp", 1), 0).is_none());
    assert!(w.handle_copy_event(&mut db, &file("/m/.hidden", 1), 0).is_none());
    let dir = ScanEntry { path: "/m/d".to_string(), name: Some("d".to_string()), is_dir: true, is_file: false, len: 0 };
    assert!(w.handle_copy_event(&mut db, &dir, 0).is_none());
    assert_eq!(db.snapshot_count(), 0);
}

#[test]
fn recorded_snapshot_describes_the_file() {
    let (mut db, mut w, id) = setup();
    let s = w.handle_copy_event(&mut db, &file("/m/Report.PDF", 42), 0).unwrap();
    assert_eq!(s.id, Some(1));
    assert_eq!(s.activity_log_id, id);
    assert_eq!(s.file_name, "Report.PDF");
    assert_eq!(s.file_extension, Some("pdf".to_string()));
    assert_eq!(s.file_size, 42);
    assert!(!s.is_folder);
}

#[test]
fn watcher_against_disconnect_stores_nothing() {
    let mut db = Database::new(0);
    db.create_activity_log("S1", EventType::Connect, 0).unwrap();
    let d = db.create_activity_log("S1", EventType::Disconnect, 1).unwrap();
    let mut w = FileWatcher::new(d);
    assert!(w.handle_copy_event(&mut db, &file("/m/a.bin", 1), 0).is_none());
    assert_eq!(db.snapshot_count(), 0);
}
