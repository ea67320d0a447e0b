use usb_manager::db::{Database, EventType, StoreError};
use usb_manager::file_scanner::{FileScanner, ScanEntry, ScanResult};
use usb_manager::usb_monitor::{get_device_all_scans, get_device_files, get_file_snapshots, UsbDevice, UsbMonitor};

fn entry(path: &str, is_dir: bool, len: u64) -> ScanEntry {
    ScanEntry {
        path: path.to_string(),
        name: Some(path.rsplit('/').next().unwrap().to_string()),
        is_dir,
        is_file: !is_dir,
        len,
    }
}

fn s3_entries() -> Vec<ScanEntry> {
    vec![entry("/mnt/u/a.txt", false, 10), entry("/mnt/u/b", true, 4096), entry("/mnt/u/b/c.TXT", false, 20)]
}

#[test]
fn scan_records_each_entry() {
    let snaps = FileScanner::scan_directory(&s3_entries(), 7);
    assert_eq!(snaps.len(), 3);
    let ext: Vec<Option<String>> = snaps.iter().map(|s| s.file_extension.clone()).collect();
    assert_eq!(ext, vec![Some("txt".to_string()), None, Some("txt".to_string())]);
    let sizes: Vec<i64> = snaps.iter().map(|s| s.file_size).collect();
    assert_eq!(sizes, vec![10, 0, 20]);
    let folders: Vec<bool> = snaps.iter().map(|s| s.is_folder).collect();
    assert_eq!(folders, vec![false, true, false]);
    assert_eq!(snaps[2].file_name, "c.TXT");
    assert!(snaps.iter().all(|s| s.activity_log_id == 7 && s.id.is_none()));
}

#[test]
fn extensions_follow_path_rules() {
    let names = [("/m/.bashrc", None), ("/m/archive.tar.GZ", Some("gz")), ("/m/noext", None), ("/m/trail.", Some(""))];
    for (path, want) in names {
        let s = FileScanner::snapshot_from_entry(&entry(path, false, 1), 1);
        assert_eq!(s.file_extension, want.map(|w| w.to_string()), "{}", path);
    }
    let dir = FileScanner::snapshot_from_entry(&entry("/m/photos.d", true, 1), 1);
    assert_eq!(dir.file_extension, None);
    let odd = ScanEntry { path: "/m/x".to_string(), name: None, is_dir: false, is_file: true, len: 3 };
    let s = FileScanner::snapshot_from_entry(&odd, 1);
    assert_eq!(s.file_name, "unknown");
    assert_eq!(s.file_extension, None);
}

#[test]
fn huge_lengths_are_capped() {
    let s = FileScanner::snapshot_from_entry(&entry("/m/big", false, u64::MAX), 1);
    assert_eq!(s.file_size, i64::MAX);
}

#[test]
fn scan_and_save_stores_all_and_counts() {
    let mut db = Database::new(0);
    let id = db.create_activity_log("S1", EventType::Connect, 1).unwrap();
    let r = FileScanner::scan_and_save(&s3_entries(), id, &mut db).unwrap();
    assert_eq!(r, ScanResult { total_files: 2, total_folders: 1, total_size_bytes: 30 });
    assert_eq!(db.snapshot_count(), 3);
    assert_eq!(db.get_scan_stats(id), (2, 1));
}

#[test]
fn scan_against_unknown_event_stores_nothing() {
    let mut db = Database::new(0);
    let r = FileScanner::scan_and_save(&s3_entries(), 5, &mut db);
    assert_eq!(r, Err(StoreError::UnknownActivity));
    assert_eq!(db.snapshot_count(), 0);
}

#[test]
fn empty_scan_writes_nothing() {
    let mut db = Database::new(0);
    let r = FileScanner::scan_and_save(&vec![], 5, &mut db);
    assert_eq!(r, Ok(ScanResult { total_files: 0, total_folders: 0, total_size_bytes: 0 }));
    assert_eq!(db.snapshot_count(), 0);
}

#[test]
fn summary_size_saturates() {
    let mut db = Database::new(0);
    let id = db.create_activity_log("S1", EventType::Connect, 1).unwrap();
    let entries = vec![entry("/m/a", false, u64::MAX), entry("/m/b", false, 5)];
    let r = FileScanner::scan_and_save(&entries, id, &mut db).unwrap();
    assert_eq!(r.total_size_bytes, i64::MAX);
    assert_eq!(r.total_files, 2);
}

#[test]
fn directory_size_counts_regular_files() {
    let entries = s3_entries();
    assert_eq!(FileScanner::get_directory_size(&entries), 30);
    assert_eq!(FileScanner::get_directory_size(&vec![]), 0);
}

#[test]
fn queries_after_round_trip() {
    let mut db = Database::new(0);
    let mut m = UsbMonitor::new();
    let s1 = UsbDevice {
        id: 1,
        vendor_id: 0x1234,
        product_id: 0x5678,
        product_name: None,
        manufacturer_name: None,
        serial_number: Some("S1".to_string()),
        mount_point: Some("/mnt/u".to_string()),
        total_space: Some(100),
    };
    let t = m.emit_events(&mut db, &vec![s1], 0);
    let e1 = t[0].activity_id;
    FileScanner::scan_and_save(&s3_entries(), e1, &mut db).unwrap();
    m.emit_events(&mut db, &vec![], 2);
    let scans = get_device_all_scans(&db, "S1");
    assert_eq!(scans.len(), 1);
    assert_eq!(scans[0].activity_id, e1);
    assert_eq!((scans[0].file_count, scans[0].folder_count, scans[0].snapshot_count), (2, 1, 3));
    let files = get_device_files(&db, "S1");
    assert_eq!(files.activity_id, e1);
    assert_eq!(files.snapshots.len(), 3);
    assert_eq!(files.snapshots[0].file_path, "/mnt/u/a.txt");
    assert_eq!((files.total_files, files.total_folders), (2, 1));
    let (snaps, stats) = get_file_snapshots(&db, e1);
    assert_eq!(snaps.len(), 3);
    assert_eq!(stats, (2, 1));
    let none = get_device_files(&db, "nobody");
    assert_eq!(none.activity_id, 0);
    assert!(none.snapshots.is_empty());
}
