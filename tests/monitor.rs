use usb_manager::db::{Database, EventType};
use usb_manager::identity::{device_identity, serial_matches_name};
use usb_manager::usb_monitor::{DiskInfo, UsbDevice, UsbMonitor};

fn usb(serial: Option<&str>, vid: u16, pid: u16, mount: Option<&str>, space: Option<u64>) -> UsbDevice {
    UsbDevice {
        id: 3,
        vendor_id: vid,
        product_id: pid,
        product_name: Some("Stick".to_string()),
        manufacturer_name: Some("Acme".to_string()),
        serial_number: serial.map(|s| s.to_string()),
        mount_point: mount.map(|s| s.to_string()),
        total_space: space,
    }
}

fn disk(name: &str, mount: &str, space: u64, removable: bool) -> DiskInfo {
    DiskInfo { name: name.to_string(), mount_point: mount.to_string(), total_space: space, is_removable: removable }
}

fn kinds(db: &Database, dev: &str) -> Vec<EventType> {
    let mut h = db.get_activity_history(-1);
    h.reverse();
    h.into_iter().filter(|e| e.device_id == dev).map(|e| e.event_type).collect()
}

#[test]
fn plug_unplug_round_trip() {
    let mut db = Database::new(0);
    let mut m = UsbMonitor::new();
    let s1 = usb(Some("S1"), 0x1234, 0x5678, Some("/mnt/u"), Some(4096));
    let t = m.emit_events(&mut db, &vec![s1.clone()], 10);
    assert_eq!(t.len(), 1);
    assert_eq!(t[0].event_type, EventType::Connect);
    assert_eq!(t[0].device_id, "S1");
    assert_eq!(t[0].activity_id, 1);
    assert_eq!(t[0].scan_mount, Some("/mnt/u".to_string()));
    let rows = db.get_devices();
    assert_eq!(rows.len(), 1);
    assert_eq!(rows[0].serial_number, "S1");
    assert_eq!(rows[0].vendor_id, 0x1234);
    assert_eq!(rows[0].product_id, 0x5678);
    assert_eq!(rows[0].total_capacity, Some(4096));
    assert_eq!(m.watch_of("S1"), Some(("/mnt/u".to_string(), 1)));
    let t = m.emit_events(&mut db, &vec![], 12);
    assert_eq!(t.len(), 1);
    assert_eq!(t[0].event_type, EventType::Disconnect);
    assert_eq!(t[0].activity_id, 2);
    assert_eq!(t[0].scan_mount, None);
    assert_eq!(kinds(&db, "S1"), vec![EventType::Connect, EventType::Disconnect]);
    assert_eq!(m.watch_of("S1"), None);
    assert!(m.get_current_devices().is_empty());
}

#[test]
fn repeated_polls_connect_once() {
    let mut db = Database::new(0);
    let mut m = UsbMonitor::new();
    let s1 = usb(Some("S1"), 1, 2, Some("/mnt/u"), Some(10));
    for tick in 0..4 {
        let t = m.emit_events(&mut db, &vec![s1.clone()], tick * 2);
        assert_eq!(t.len(), if tick == 0 { 1 } else { 0 });
    }
    assert_eq!(db.get_devices().len(), 1);
    assert_eq!(kinds(&db, "S1"), vec![EventType::Connect]);
}

#[test]
fn duplicate_records_in_one_poll_connect_once() {
    let mut db = Database::new(0);
    let mut m = UsbMonitor::new();
    let a = usb(Some("S1"), 1, 2, Some("/mnt/a"), Some(10));
    let b = usb(Some("S1"), 1, 2, Some("/mnt/b"), Some(10));
    let t = m.emit_events(&mut db, &vec![a, b], 0);
    assert_eq!(t.len(), 1);
    assert_eq!(t[0].scan_mount, Some("/mnt/a".to_string()));
    assert_eq!(m.get_current_devices().len(), 1);
}

#[test]
fn transitions_follow_set_differences() {
    let mut db = Database::new(0);
    let mut m = UsbMonitor::new();
    let a = usb(Some("A"), 1, 1, Some("/a"), Some(1));
    let b = usb(Some("B"), 1, 1, Some("/b"), Some(1));
    let c = usb(Some("C"), 1, 1, None, Some(1));
    m.emit_events(&mut db, &vec![a.clone(), b.clone()], 0);
    let t = m.emit_events(&mut db, &vec![b.clone(), c.clone()], 2);
    assert_eq!(t.len(), 2);
    assert_eq!((t[0].event_type, t[0].device_id.as_str()), (EventType::Connect, "C"));
    assert_eq!((t[1].event_type, t[1].device_id.as_str()), (EventType::Disconnect, "A"));
    assert_eq!(t[0].scan_mount, None);
    assert_eq!(m.watch_of("C"), None);
    assert_eq!(m.watch_of("B"), Some(("/b".to_string(), 2)));
    assert_eq!(db.get_activity_history(-1).len(), 4);
}

#[test]
fn histories_alternate_over_plug_cycles() {
    let mut db = Database::new(0);
    let mut m = UsbMonitor::new();
    let a = usb(Some("A"), 1, 1, Some("/a"), Some(1));
    let b = usb(Some("B"), 1, 1, Some("/b"), Some(1));
    let polls = vec![vec![a.clone()], vec![a.clone(), b.clone()], vec![b.clone()], vec![], vec![a.clone()], vec![a.clone()]];
    for (i, p) in polls.iter().enumerate() {
        m.emit_events(&mut db, p, i as i64);
    }
    let (c, d) = (EventType::Connect, EventType::Disconnect);
    assert_eq!(kinds(&db, "A"), vec![c, d, c]);
    assert_eq!(kinds(&db, "B"), vec![c, d]);
    assert_eq!(m.watch_of("A"), Some(("/a".to_string(), 5)));
}

#[test]
fn identity_without_serial_is_synthesized() {
    let d = usb(None, 0, 0, Some("E:"), Some(32_000_000_000));
    assert_eq!(device_identity(&d), "DISK_E_32000000000");
    let empty = usb(Some(""), 0, 0, Some("E:"), Some(32_000_000_000));
    assert_eq!(device_identity(&empty), "DISK_E_32000000000");
    let again = usb(None, 9, 9, Some("E:"), Some(32_000_000_000));
    assert_eq!(device_identity(&again), device_identity(&d));
    let linux = usb(None, 0, 0, Some("/media/user/KEY-1"), Some(0));
    assert_eq!(device_identity(&linux), "DISK_mediauserKEY1_0");
    let bare = usb(None, 0, 0, None, None);
    assert_eq!(device_identity(&bare), "DISK__0");
}

#[test]
fn identity_with_serial_is_stable() {
    let first = usb(Some("AA11"), 1, 2, Some("/media/a"), Some(5));
    let later = usb(Some("AA11"), 1, 2, Some("/media/b"), Some(7));
    assert_eq!(device_identity(&first), "AA11");
    assert_eq!(device_identity(&first), device_identity(&later));
    let nodes = vec![usb(Some("AA11"), 1, 2, None, None)];
    let r1 = UsbMonitor::scan_devices(&nodes, &vec![disk("aa11", "/media/a", 5, true)]);
    let r2 = UsbMonitor::scan_devices(&nodes, &vec![disk("AA", "/media/b", 7, true)]);
    assert_eq!(device_identity(&r1[0]), "AA11");
    assert_eq!(device_identity(&r2[0]), "AA11");
}

#[test]
fn disks_join_usb_nodes_by_serial() {
    let nodes = vec![
        usb(None, 7, 7, None, None),
        usb(Some("XYZ-999"), 0x0781, 0x5581, None, None),
    ];
    let disks = vec![
        disk("xyz-999", "/media/k", 64, true),
        disk("System", "/", 500, false),
        disk("BACKUP", "/media/b", 32, true),
    ];
    let r = UsbMonitor::scan_devices(&nodes, &disks);
    assert_eq!(r.len(), 2);
    assert_eq!(r[0].vendor_id, 0x0781);
    assert_eq!(r[0].product_id, 0x5581);
    assert_eq!(r[0].serial_number, Some("XYZ-999".to_string()));
    assert_eq!(r[0].mount_point, Some("/media/k".to_string()));
    assert_eq!(r[0].total_space, Some(64));
    assert_eq!(r[1].vendor_id, 0);
    assert_eq!(r[1].serial_number, None);
    assert_eq!(r[1].manufacturer_name, Some("Generic".to_string()));
    assert_eq!(r[1].product_name, Some("BACKUP".to_string()));
    assert_eq!(device_identity(&r[1]), "DISK_mediab_32");
}

#[test]
fn names_match_either_way() {
    assert!(serial_matches_name("abc123", "abc"));
    assert!(serial_matches_name("abc", "xabcx"));
    assert!(serial_matches_name("abc", ""));
    assert!(!serial_matches_name("abc", "abd"));
}

#[test]
fn usb_devices_compare_by_descriptor() {
    let a = usb(Some("S"), 1, 2, Some("/a"), Some(1));
    let b = usb(Some("S"), 1, 2, Some("/b"), None);
    let c = usb(Some("T"), 1, 2, Some("/a"), Some(1));
    assert!(a == b);
    assert!(a != c);
}

#[test]
fn restore_closes_sessions_left_open() {
    let mut db = Database::new(0);
    db.create_activity_log("A", EventType::Connect, 1).unwrap();
    db.create_activity_log("B", EventType::Connect, 2).unwrap();
    db.create_activity_log("B", EventType::Disconnect, 3).unwrap();
    let mut m = UsbMonitor::restore(&mut db, 10).unwrap();
    assert_eq!(kinds(&db, "A"), vec![EventType::Connect, EventType::Disconnect]);
    assert_eq!(kinds(&db, "B"), vec![EventType::Connect, EventType::Disconnect]);
    assert_eq!(db.get_activity_history(1)[0].timestamp, 10);
    let a = usb(Some("A"), 1, 1, Some("/a"), Some(1));
    let t = m.emit_events(&mut db, &vec![a], 12);
    assert_eq!(t.len(), 1);
    assert_eq!(t[0].event_type, EventType::Connect);
    assert_eq!(kinds(&db, "A"), vec![EventType::Connect, EventType::Disconnect, EventType::Connect]);
}

#[test]
fn restore_refuses_a_broken_history() {
    let mut db = Database::new(0);
    db.create_activity_log("A", EventType::Disconnect, 1).unwrap();
    assert!(UsbMonitor::restore(&mut db, 10).is_none());
    assert_eq!(db.event_count(), 1);
    let mut twice = Database::new(0);
    twice.create_activity_log("A", EventType::Connect, 1).unwrap();
    twice.create_activity_log("A", EventType::Connect, 2).unwrap();
    assert!(UsbMonitor::restore(&mut twice, 10).is_none());
}

#[test]
fn restore_of_an_empty_store_changes_nothing() {
    let mut db = Database::new(0);
    let m = UsbMonitor::restore(&mut db, 5).unwrap();
    assert_eq!(db.event_count(), 0);
    assert!(m.get_current_devices().is_empty());
}
