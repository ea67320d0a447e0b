use usb_manager::db::{Database, Device, EventType, FileSnapshot, StoreError};

fn device(serial: &str) -> Device {
    Device {
        serial_number: serial.to_string(),
        vendor_id: 0x1234,
        product_id: 0x5678,
        name: Some("Stick".to_string()),
        manufacturer: None,
        total_capacity: Some(1000),
    }
}

fn snap(activity: i64, path: &str, size: i64, folder: bool) -> FileSnapshot {
    FileSnapshot {
        id: None,
        activity_log_id: activity,
        file_path: path.to_string(),
        file_name: path.rsplit('/').next().unwrap().to_string(),
        file_extension: None,
        file_size: size,
        is_folder: folder,
    }
}

#[test]
fn event_type_text() {
    assert_eq!(EventType::Connect.as_str(), "CONNECT");
    assert_eq!(EventType::Disconnect.as_str(), "DISCONNECT");
}

#[test]
fn event_ids_count_up_and_history_is_newest_first() {
    let mut db = Database::new(100);
    assert_eq!(db.create_activity_log("A", EventType::Connect, 100), Ok(1));
    assert_eq!(db.create_activity_log("B", EventType::Connect, 105), Ok(2));
    assert_eq!(db.create_activity_log("A", EventType::Disconnect, 110), Ok(3));
    let h = db.get_activity_history(2);
    assert_eq!(h.len(), 2);
    assert_eq!(h[0].id, 3);
    assert_eq!(h[0].device_id, "A");
    assert_eq!(h[0].event_type, EventType::Disconnect);
    assert_eq!(h[0].timestamp, 110);
    assert_eq!(h[1].id, 2);
    assert_eq!(db.get_activity_history(-1).len(), 3);
    assert_eq!(db.get_activity_history(0).len(), 0);
    assert_eq!(db.get_activity_history(50).len(), 3);
}

#[test]
fn clock_never_runs_backwards() {
    let mut db = Database::new(0);
    db.create_activity_log("A", EventType::Connect, 50).unwrap();
    db.create_activity_log("A", EventType::Disconnect, 20).unwrap();
    let h = db.get_activity_history(-1);
    assert_eq!(h[0].timestamp, 50);
    assert_eq!(h[1].timestamp, 50);
    assert_eq!(db.last_event_timestamp(), 50);
}

#[test]
fn upsert_keeps_one_row_per_identity() {
    let mut db = Database::new(0);
    db.upsert_device(&device("S1"), 10);
    db.upsert_device(&device("S2"), 20);
    let mut changed = device("S1");
    changed.name = Some("Renamed".to_string());
    db.upsert_device(&changed, 30);
    let rows = db.get_devices();
    assert_eq!(rows.len(), 2);
    assert_eq!(rows[0].serial_number, "S1");
    assert_eq!(rows[0].name, Some("Renamed".to_string()));
    assert_eq!(rows[1].serial_number, "S2");
}

#[test]
fn bulk_insert_is_all_or_nothing() {
    let mut db = Database::new(0);
    let id = db.create_activity_log("S1", EventType::Connect, 1).unwrap();
    let bad = vec![snap(id, "/m/a", 1, false), snap(99, "/m/b", 1, false)];
    assert_eq!(db.insert_file_snapshots_batch(&bad), Err(StoreError::UnknownActivity));
    assert_eq!(db.snapshot_count(), 0);
    let good = vec![snap(id, "/m/a", 1, false), snap(id, "/m/b", 2, false)];
    assert_eq!(db.insert_file_snapshots_batch(&good), Ok(()));
    assert_eq!(db.snapshot_count(), 2);
    let stored = db.get_file_snapshots(id);
    assert_eq!(stored[0].id, Some(1));
    assert_eq!(stored[1].id, Some(2));
}

#[test]
fn snapshots_must_reference_a_connect() {
    let mut db = Database::new(0);
    let c = db.create_activity_log("S1", EventType::Connect, 1).unwrap();
    let d = db.create_activity_log("S1", EventType::Disconnect, 2).unwrap();
    assert_eq!(db.insert_file_snapshot(&snap(d, "/m/x", 1, false)), Err(StoreError::UnknownActivity));
    assert_eq!(db.insert_file_snapshot(&snap(0, "/m/x", 1, false)), Err(StoreError::UnknownActivity));
    assert_eq!(db.insert_file_snapshot(&snap(c, "/m/x", 1, false)), Ok(()));
    assert_eq!(db.snapshot_count(), 1);
}

#[test]
fn sizes_are_checked() {
    let mut db = Database::new(0);
    let c = db.create_activity_log("S1", EventType::Connect, 1).unwrap();
    assert_eq!(db.insert_file_snapshot(&snap(c, "/m/x", -1, false)), Err(StoreError::InvalidSize));
    assert_eq!(db.insert_file_snapshot(&snap(c, "/m/d", 4, true)), Err(StoreError::InvalidSize));
    let batch = vec![snap(c, "/m/d", 0, true), snap(c, "/m/x", -5, false)];
    assert_eq!(db.insert_file_snapshots_batch(&batch), Err(StoreError::InvalidSize));
    assert_eq!(db.snapshot_count(), 0);
}

#[test]
fn listing_is_ordered_by_path_and_filtered_by_event() {
    let mut db = Database::new(0);
    let a = db.create_activity_log("S1", EventType::Connect, 1).unwrap();
    let b = db.create_activity_log("S2", EventType::Connect, 2).unwrap();
    let batch = vec![
        snap(a, "/m/zeta", 1, false),
        snap(b, "/n/other", 1, false),
        snap(a, "/m/Alpha", 0, true),
        snap(a, "/m/beta", 3, false),
    ];
    db.insert_file_snapshots_batch(&batch).unwrap();
    let paths: Vec<String> = db.get_file_snapshots(a).iter().map(|s| s.file_path.clone()).collect();
    assert_eq!(paths, vec!["/m/Alpha", "/m/beta", "/m/zeta"]);
    assert_eq!(db.get_scan_stats(a), (2, 1));
    assert_eq!(db.get_scan_stats(b), (1, 0));
    assert_eq!(db.get_scan_stats(77), (0, 0));
    assert!(db.get_file_snapshots(77).is_empty());
}

#[test]
fn latest_and_all_connections_of_a_device() {
    let mut db = Database::new(0);
    assert_eq!(db.get_latest_device_snapshots("S1").0, 0);
    assert!(db.get_latest_device_snapshots("S1").1.is_empty());
    let first = db.create_activity_log("S1", EventType::Connect, 10).unwrap();
    db.create_activity_log("S1", EventType::Disconnect, 20).unwrap();
    let second = db.create_activity_log("S1", EventType::Connect, 30).unwrap();
    db.create_activity_log("S9", EventType::Connect, 40).unwrap();
    db.insert_file_snapshot(&snap(first, "/m/old", 1, false)).unwrap();
    db.insert_file_snapshot(&snap(second, "/m/new", 1, false)).unwrap();
    let (id, snaps) = db.get_latest_device_snapshots("S1");
    assert_eq!(id, second);
    assert_eq!(snaps.len(), 1);
    assert_eq!(snaps[0].file_path, "/m/new");
    let all = db.get_all_device_snapshots("S1");
    assert_eq!(all.len(), 2);
    assert_eq!((all[0].0, all[0].1), (second, 30));
    assert_eq!((all[1].0, all[1].1), (first, 10));
    assert_eq!(all[1].2[0].file_path, "/m/old");
}
