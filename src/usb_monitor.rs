use vstd::prelude::*;
use crate::db::{
    clone_opt_string, connects_desc, count_kind, event_is, is_listing, latest_connect, max_int,
    recent_events, without_serial, ActivityLog, Database, Device, DeviceRecord, EventType,
    FileSnapshot, MAX_ROWS,
};
use crate::file_scanner::tally;
use crate::detector::{
    dedup, first_of_each, identities, ids_of, keep_absent, lemma_dedup, lemma_id_list_contains,
    lemma_ids_push, lemma_not_in, not_in, string_views, unique_ids,
};
use crate::identity::{describes_disk, device_for_disk, device_identity, identity_of, removable};

verus! {

/// One attached storage device as seen by an enumeration: what the USB bus
/// reports of it and where its volume is mounted.
#[derive(Debug)]
pub struct UsbDevice {
    pub id: u16,
    pub vendor_id: u16,
    pub product_id: u16,
    pub product_name: Option<String>,
    pub manufacturer_name: Option<String>,
    pub serial_number: Option<String>,
    pub mount_point: Option<String>,
    pub total_space: Option<u64>,
}

impl Clone for UsbDevice {
    fn clone(&self) -> (r: Self)
        ensures
            r == *self,
    {
        UsbDevice {
            id: self.id,
            vendor_id: self.vendor_id,
            product_id: self.product_id,
            product_name: clone_opt_string(&self.product_name),
            manufacturer_name: clone_opt_string(&self.manufacturer_name),
            serial_number: clone_opt_string(&self.serial_number),
            mount_point: clone_opt_string(&self.mount_point),
            total_space: self.total_space,
        }
    }
}

/// One mounted volume as the operating system lists it.
#[derive(Debug)]
pub struct DiskInfo {
    pub name: String,
    pub mount_point: String,
    pub total_space: u64,
    pub is_removable: bool,
}

/// The kinds of the events of `dev`, in order.
pub open spec fn kinds_of(events: Seq<ActivityLog>, dev: Seq<char>) -> Seq<EventType>
    decreases events.len(),
{
    if events.len() == 0 {
        Seq::empty()
    } else if events.last().device_id@ == dev {
        kinds_of(events.drop_last(), dev).push(events.last().event_type)
    } else {
        kinds_of(events.drop_last(), dev)
    }
}

/// `k` reads CONNECT, DISCONNECT, CONNECT, ...
pub open spec fn alternates(k: Seq<EventType>) -> bool {
    forall|i: int|
        0 <= i < k.len() ==> #[trigger] k[i] == if i % 2 == 0 {
            EventType::Connect
        } else {
            EventType::Disconnect
        }
}

/// Every device's events alternate, starting with a CONNECT, and end with a
/// CONNECT exactly when the device is in `live`.
pub open spec fn history_matches(events: Seq<ActivityLog>, live: Set<Seq<char>>) -> bool {
    forall|dev: Seq<char>|
        #![trigger kinds_of(events, dev)]
        alternates(kinds_of(events, dev)) && (kinds_of(events, dev).len() % 2 == 1 <==> live.contains(dev))
}

/// A live file watch: the device it belongs to, the mount point it
/// observes and the CONNECT event its snapshots are recorded against.
#[derive(Debug)]
pub struct Watch {
    pub device_id: String,
    pub mount_point: String,
    pub activity_id: i64,
}

/// Every watch belongs to a present device and records against that
/// device's newest CONNECT event.
pub open spec fn watches_match(w: Seq<Watch>, events: Seq<ActivityLog>, live: Set<Seq<char>>) -> bool {
    forall|k: int|
        0 <= k < w.len() ==> live.contains(#[trigger] w[k].device_id@) && w[k].activity_id
            == latest_connect(events, w[k].device_id@)
}

/// A capacity as stored: known only when it fits the store's integers.
pub open spec fn capacity_of(t: Option<u64>) -> Option<i64> {
    match t {
        Some(v) => if v <= 0x7fff_ffff_ffff_ffff {
            Some(v as i64)
        } else {
            None
        },
        None => None,
    }
}

/// `r` is the store row for the enumerated device `d`.
pub open spec fn row_describes(r: Device, d: UsbDevice) -> bool {
    &&& r.serial_number@ == identity_of(d)
    &&& r.vendor_id == d.vendor_id
    &&& r.product_id == d.product_id
    &&& r.name == d.product_name
    &&& r.manufacturer == d.manufacturer_name
    &&& r.total_capacity == capacity_of(d.total_space)
}

/// The store holds a row for `d`.
pub open spec fn has_row(rows: Seq<DeviceRecord>, d: UsbDevice) -> bool {
    exists|k: int| 0 <= k < rows.len() && row_describes(#[trigger] rows[k].device, d)
}

/// The records of the enumeration `cur` whose identity was not in the
/// previous enumeration `prev`, the first of each identity, in order.
pub open spec fn connected_of(prev: Seq<UsbDevice>, cur: Seq<UsbDevice>) -> Seq<UsbDevice> {
    not_in(dedup(cur), ids_of(prev))
}

/// The records of `prev` whose identity is no longer in `cur`, in order.
pub open spec fn disconnected_of(prev: Seq<UsbDevice>, cur: Seq<UsbDevice>) -> Seq<UsbDevice> {
    not_in(prev, ids_of(dedup(cur)))
}

/// `added` are the events one poll appends: a CONNECT for each new
/// identity, then a DISCONNECT for each gone one, numbered from `first`
/// and stamped `ts`.
pub open spec fn poll_events(added: Seq<ActivityLog>, prev: Seq<UsbDevice>, cur: Seq<UsbDevice>, first: int, ts: int) -> bool {
    let c = connected_of(prev, cur);
    let d = disconnected_of(prev, cur);
    &&& added.len() == c.len() + d.len()
    &&& forall|j: int|
        0 <= j < c.len() ==> event_is(#[trigger] added[j], first + j, identity_of(c[j]), EventType::Connect, ts)
    &&& forall|j: int|
        0 <= j < d.len() ==> event_is(
            #[trigger] added[c.len() + j],
            first + c.len() + j,
            identity_of(d[j]),
            EventType::Disconnect,
            ts,
        )
}

/// There is room in the store for the events of one poll.
pub open spec fn has_room(stored: int, current: int, previous: int) -> bool {
    stored + current + previous <= MAX_ROWS
}

/// What the caller is to do after one transition: tell the shell, and for a
/// connection with a mount point, start a scan and a watch of it.
#[derive(Debug)]
pub struct Transition {
    pub event_type: EventType,
    pub device_id: String,
    pub device: UsbDevice,
    pub activity_id: i64,
    pub timestamp: i64,
    pub scan_mount: Option<String>,
}

/// `t` tells of the event `e` of the device `dev`.
pub open spec fn transition_for(t: Transition, e: ActivityLog, dev: UsbDevice) -> bool {
    &&& t.event_type == e.event_type
    &&& t.activity_id == e.id
    &&& t.timestamp == e.timestamp
    &&& t.device_id@ == e.device_id@
    &&& t.device == dev
    &&& t.scan_mount == if e.event_type == EventType::Connect {
        dev.mount_point
    } else {
        None
    }
}

/// `w` holds a watch of `mount` for device `dev` recording against `act`.
pub open spec fn has_watch(w: Seq<Watch>, dev: Seq<char>, mount: String, act: int) -> bool {
    exists|k: int|
        0 <= k < w.len() && #[trigger] w[k].device_id@ == dev && w[k].mount_point == mount && w[k].activity_id == act
}

proof fn lemma_push_prefix(a: Seq<ActivityLog>, b: Seq<ActivityLog>, n: int)
    requires
        b.len() == a.len() + 1,
        b.drop_last() == a,
        0 <= n <= a.len(),
    ensures
        b.subrange(0, n) == a.subrange(0, n),
        forall|q: int| 0 <= q < a.len() ==> #[trigger] b[q] == a[q],
{
    assert forall|q: int| 0 <= q < a.len() implies #[trigger] b[q] == a[q] by {
        assert(b.drop_last()[q] == b[q]);
    }
    assert(b.subrange(0, n) =~= a.subrange(0, n));
}

proof fn lemma_without_keeps(s: Seq<DeviceRecord>, id: Seq<char>, k: int)
    requires
        0 <= k < s.len(),
        s[k].device.serial_number@ != id,
    ensures
        without_serial(s, id).contains(s[k]),
    decreases s.len(),
{
    if k == s.len() - 1 {
        assert(without_serial(s, id).last() == s[k]);
    } else {
        lemma_without_keeps(s.drop_last(), id, k);
        let r = without_serial(s.drop_last(), id);
        let m = choose|m: int| 0 <= m < r.len() && r[m] == s[k];
        if s.last().device.serial_number@ != id {
            assert(r.push(s.last())[m] == s[k]);
        }
    }
}

proof fn lemma_not_in_len(s: Seq<UsbDevice>, ids: Set<Seq<char>>)
    ensures
        not_in(s, ids).len() <= s.len(),
    decreases s.len(),
{
    if s.len() > 0 {
        lemma_not_in_len(s.drop_last(), ids);
    }
}

proof fn lemma_dedup_len(s: Seq<UsbDevice>)
    ensures
        dedup(s).len() <= s.len(),
    decreases s.len(),
{
    if s.len() > 0 {
        lemma_dedup_len(s.drop_last());
    }
}

/// The detector and coordinator state: the previous enumeration, keyed by
/// identity, and the registry of live watches, which is also the map from
/// device to mount point.
pub struct UsbMonitor {
    devices: Vec<UsbDevice>,
    watches: Vec<Watch>,
}

impl UsbMonitor {
    pub closed spec fn devices(self) -> Seq<UsbDevice> {
        self.devices@
    }

    pub closed spec fn watches(self) -> Seq<Watch> {
        self.watches@
    }

    /// The monitor agrees with the store: identities are unique, every
    /// device's history alternates and ends with a CONNECT exactly when it
    /// is present, and every watch records against its device's newest
    /// CONNECT.
    pub closed spec fn consistent(self, db: Database) -> bool {
        &&& unique_ids(self.devices@)
        &&& db.wf()
        &&& history_matches(db.events(), ids_of(self.devices@))
        &&& watches_match(self.watches@, db.events(), ids_of(self.devices@))
    }

    /// A monitor that has seen no device yet.
    pub fn new() -> (r: UsbMonitor)
        ensures
            r.devices().len() == 0,
            r.watches().len() == 0,
            forall|db: Database| db.wf() && db.events().len() == 0 ==> r.consistent(db),
    {
        let r = UsbMonitor { devices: Vec::new(), watches: Vec::new() };
        assert forall|db: Database| db.wf() && db.events().len() == 0 implies r.consistent(db) by {
            assert(ids_of(r.devices@) =~= Set::empty());
        }
        r
    }

    /// The previous enumeration.
    pub fn get_current_devices(&self) -> (r: Vec<UsbDevice>)
        ensures
            r@ == self.devices(),
    {
        let mut r: Vec<UsbDevice> = Vec::new();
        let mut i: usize = 0;
        while i < self.devices.len()
            invariant
                i <= self.devices@.len(),
                r@ == self.devices@.subrange(0, i as int),
            decreases self.devices@.len() - i,
        {
            r.push(self.devices[i].clone());
            i += 1;
            assert(r@ =~= self.devices@.subrange(0, i as int));
        }
        assert(r@ =~= self.devices@);
        r
    }

    /// Where the device `device_id` is mounted and which CONNECT event its
    /// watch records against, if it is watched.
    pub fn watch_of(&self, device_id: &str) -> (r: Option<(String, i64)>)
        ensures
            r.is_none() ==> forall|k: int| 0 <= k < self.watches().len() ==> #[trigger] self.watches()[k].device_id@ != device_id@,
            r.is_some() ==> exists|k: int|
                0 <= k < self.watches().len() && #[trigger] self.watches()[k].device_id@ == device_id@
                    && self.watches()[k].mount_point == r.unwrap().0 && self.watches()[k].activity_id == r.unwrap().1,
    {
        let dev = String::from_str(device_id);
        let mut i: usize = 0;
        while i < self.watches.len()
            invariant
                dev@ == device_id@,
                i <= self.watches@.len(),
                forall|k: int| 0 <= k < i ==> #[trigger] self.watches@[k].device_id@ != device_id@,
            decreases self.watches@.len() - i,
        {
            if self.watches[i].device_id == dev {
                let r = Some((self.watches[i].mount_point.clone(), self.watches[i].activity_id));
                assert(self.watches()[i as int].device_id@ == device_id@);
                return r;
            }
            i += 1;
        }
        None
    }

    /// Records the connection of `device`, whose identity is not in `live`:
    /// upserts its row, appends its CONNECT event and, when it is mounted,
    /// registers a watch of its mount point.
    fn handle_device_connected(&mut self, db: &mut Database, device: &UsbDevice, now: i64, live: Ghost<Set<Seq<char>>>) -> (t: Transition)
        requires
            old(db).wf(),
            old(db).events().len() < MAX_ROWS,
            history_matches(old(db).events(), live@),
            watches_match(old(self).watches@, old(db).events(), live@),
            !live@.contains(identity_of(*device)),
        ensures
            final(db).wf(),
            final(self).devices == old(self).devices,
            history_matches(final(db).events(), live@.insert(identity_of(*device))),
            watches_match(final(self).watches@, final(db).events(), live@.insert(identity_of(*device))),
            final(db).clock() == max_int(old(db).clock(), now as int),
            final(db).events().len() == old(db).events().len() + 1,
            final(db).events().drop_last() == old(db).events(),
            event_is(final(db).events().last(), old(db).events().len() + 1 as int, identity_of(*device), EventType::Connect, final(db).clock()),
            final(db).snapshots() == old(db).snapshots(),
            final(db).devices().last().device.serial_number@ == identity_of(*device),
            row_describes(final(db).devices().last().device, *device),
            final(db).devices().len() == without_serial(old(db).devices(), identity_of(*device)).len() + 1,
            final(db).devices().drop_last() == without_serial(old(db).devices(), identity_of(*device)),
            t.event_type == EventType::Connect,
            t.device == *device,
            t.device_id@ == identity_of(*device),
            t.activity_id == old(db).events().len() + 1,
            t.timestamp == final(db).clock(),
            t.scan_mount == device.mount_point,
            device.mount_point.is_some() ==> final(self).watches@ == old(self).watches@.push(
                Watch { device_id: t.device_id, mount_point: device.mount_point.unwrap(), activity_id: t.activity_id },
            ),
            device.mount_point.is_none() ==> final(self).watches@ == old(self).watches@,
    {
        let device_id = device_identity(device);
        let total_capacity: Option<i64> = match device.total_space {
            Some(v) => if v <= 0x7fff_ffff_ffff_ffff {
                Some(v as i64)
            } else {
                None
            },
            None => None,
        };
        let row = Device {
            serial_number: device_id.clone(),
            vendor_id: device.vendor_id,
            product_id: device.product_id,
            name: clone_opt_string(&device.product_name),
            manufacturer: clone_opt_string(&device.manufacturer_name),
            total_capacity,
        };
        let ghost e0 = db.events();
        db.upsert_device(&row, now);
        let res = db.create_activity_log(device_id.as_str(), EventType::Connect, now);
        let activity_id = match res {
            Ok(id) => id,
            Err(_) => 0,
        };
        let ghost id = identity_of(*device);
        assert(db.events().drop_last() == e0);
        assert forall|dev: Seq<char>| #![trigger kinds_of(db.events(), dev)]
            alternates(kinds_of(db.events(), dev)) && (kinds_of(db.events(), dev).len() % 2 == 1
                <==> live@.insert(id).contains(dev)) by {
            assert(kinds_of(db.events(), dev) == if dev == id {
                kinds_of(e0, dev).push(EventType::Connect)
            } else {
                kinds_of(e0, dev)
            });
            assert(alternates(kinds_of(e0, dev)));
        }
        assert forall|k: int| 0 <= k < self.watches@.len() implies live@.insert(id).contains(#[trigger] self.watches@[k].device_id@)
            && self.watches@[k].activity_id == latest_connect(db.events(), self.watches@[k].device_id@) by {
            assert(live@.contains(self.watches@[k].device_id@));
            assert(latest_connect(e0, self.watches@[k].device_id@) == latest_connect(db.events(), self.watches@[k].device_id@));
        }
        let scan_mount = clone_opt_string(&device.mount_point);
        if let Some(m) = &device.mount_point {
            self.watches.push(Watch { device_id: device_id.clone(), mount_point: m.clone(), activity_id });
            assert(latest_connect(db.events(), id) == activity_id);
        }
        Transition {
            event_type: EventType::Connect,
            device_id,
            device: device.clone(),
            activity_id,
            timestamp: db.last_event_timestamp(),
            scan_mount,
        }
    }

    /// Records the disconnection of `device`, whose identity is in `live`:
    /// appends its DISCONNECT event and drops its watch.
    fn handle_device_disconnected(&mut self, db: &mut Database, device: &UsbDevice, now: i64, live: Ghost<Set<Seq<char>>>) -> (t: Transition)
        requires
            old(db).wf(),
            old(db).events().len() < MAX_ROWS,
            history_matches(old(db).events(), live@),
            watches_match(old(self).watches@, old(db).events(), live@),
            live@.contains(identity_of(*device)),
        ensures
            final(db).wf(),
            final(self).devices == old(self).devices,
            history_matches(final(db).events(), live@.remove(identity_of(*device))),
            watches_match(final(self).watches@, final(db).events(), live@.remove(identity_of(*device))),
            final(db).clock() == max_int(old(db).clock(), now as int),
            final(db).events().len() == old(db).events().len() + 1,
            final(db).events().drop_last() == old(db).events(),
            event_is(final(db).events().last(), old(db).events().len() + 1 as int, identity_of(*device), EventType::Disconnect, final(db).clock()),
            final(db).snapshots() == old(db).snapshots(),
            final(db).devices() == old(db).devices(),
            forall|k: int| 0 <= k < final(self).watches@.len() ==> #[trigger] final(self).watches@[k].device_id@ != identity_of(*device),
            forall|k: int| 0 <= k < final(self).watches@.len() ==> old(self).watches@.contains(#[trigger] final(self).watches@[k]),
            forall|k: int| 0 <= k < old(self).watches@.len() && #[trigger] old(self).watches@[k].device_id@ != identity_of(*device)
                ==> final(self).watches@.contains(old(self).watches@[k]),
            t.event_type == EventType::Disconnect,
            t.device == *device,
            t.device_id@ == identity_of(*device),
            t.activity_id == old(db).events().len() + 1,
            t.timestamp == final(db).clock(),
            t.scan_mount.is_none(),
    {
        let device_id = device_identity(device);
        let ghost e0 = db.events();
        let res = db.create_activity_log(device_id.as_str(), EventType::Disconnect, now);
        let activity_id = match res {
            Ok(id) => id,
            Err(_) => 0,
        };
        let ghost id = identity_of(*device);
        assert forall|dev: Seq<char>| #![trigger kinds_of(db.events(), dev)]
            alternates(kinds_of(db.events(), dev)) && (kinds_of(db.events(), dev).len() % 2 == 1
                <==> live@.remove(id).contains(dev)) by {
            assert(kinds_of(db.events(), dev) == if dev == id {
                kinds_of(e0, dev).push(EventType::Disconnect)
            } else {
                kinds_of(e0, dev)
            });
            assert(alternates(kinds_of(e0, dev)));
        }
        let ghost w0 = self.watches@;
        let mut kept: Vec<Watch> = Vec::new();
        let mut i: usize = 0;
        while i < self.watches.len()
            invariant
                self.watches@ == w0,
                i <= w0.len(),
                device_id@ == id,
                forall|k: int| 0 <= k < kept@.len() ==> #[trigger] kept@[k].device_id@ != id,
                forall|k: int| 0 <= k < kept@.len() ==> w0.subrange(0, i as int).contains(#[trigger] kept@[k]),
                forall|k: int| 0 <= k < i && #[trigger] w0[k].device_id@ != id ==> kept@.contains(w0[k]),
            decreases w0.len() - i,
        {
            let ghost before = kept@;
            if self.watches[i].device_id != device_id {
                let w = &self.watches[i];
                kept.push(Watch { device_id: w.device_id.clone(), mount_point: w.mount_point.clone(), activity_id: w.activity_id });
                assert(kept@.last() == w0[i as int]);
            }
            proof {
                assert forall|k: int| 0 <= k < kept@.len() implies w0.subrange(0, i + 1).contains(#[trigger] kept@[k]) by {
                    if k < before.len() {
                        assert(kept@[k] == before[k]);
                        let m = choose|m: int| 0 <= m < i && w0.subrange(0, i as int)[m] == before[k];
                        assert(w0.subrange(0, i + 1)[m] == before[k]);
                    } else {
                        assert(w0.subrange(0, i + 1)[i as int] == kept@[k]);
                    }
                }
                assert forall|k: int| 0 <= k < i + 1 && #[trigger] w0[k].device_id@ != id implies kept@.contains(w0[k]) by {
                    if k < i {
                        let m = choose|m: int| 0 <= m < before.len() && before[m] == w0[k];
                        assert(kept@[m] == w0[k]);
                    } else {
                        assert(kept@[kept@.len() - 1] == w0[k]);
                    }
                }
            }
            i += 1;
        }
        assert(w0.subrange(0, w0.len() as int) =~= w0);
        self.watches = kept;
        assert forall|k: int| 0 <= k < self.watches@.len() implies live@.remove(id).contains(#[trigger] self.watches@[k].device_id@)
            && self.watches@[k].activity_id == latest_connect(db.events(), self.watches@[k].device_id@) by {
            let m = choose|m: int| 0 <= m < w0.len() && w0[m] == self.watches@[k];
            assert(live@.contains(w0[m].device_id@));
            assert(latest_connect(e0, w0[m].device_id@) == latest_connect(db.events(), w0[m].device_id@));
        }
        Transition {
            event_type: EventType::Disconnect,
            device_id,
            device: device.clone(),
            activity_id,
            timestamp: db.last_event_timestamp(),
            scan_mount: None,
        }
    }

    /// One poll: compares `current` with the previous enumeration, records
    /// a CONNECT for each new identity and then a DISCONNECT for each gone
    /// one, and returns one transition per event, in the same order. When
    /// the store has no room for the poll's events nothing changes and
    /// nothing is returned.
    #[verifier::rlimit(60)]
    pub fn emit_events(&mut self, db: &mut Database, current: &Vec<UsbDevice>, now: i64) -> (r: Vec<Transition>)
        requires
            old(self).consistent(*old(db)),
        ensures
            final(self).consistent(*final(db)),
            !has_room(old(db).events().len() as int, current@.len() as int, old(self).devices().len() as int)
                ==> r@.len() == 0 && *final(self) == *old(self) && *final(db) == *old(db),
            has_room(old(db).events().len() as int, current@.len() as int, old(self).devices().len() as int) ==> {
                let n0 = old(db).events().len() as int;
                let c = connected_of(old(self).devices(), current@);
                let d = disconnected_of(old(self).devices(), current@);
                &&& final(self).devices() == dedup(current@)
                &&& final(db).events().subrange(0, n0) == old(db).events()
                &&& poll_events(
                    final(db).events().subrange(n0, final(db).events().len() as int),
                    old(self).devices(),
                    current@,
                    n0 + 1,
                    max_int(old(db).clock(), now as int),
                )
                &&& final(db).snapshots() == old(db).snapshots()
                &&& r@.len() == c.len() + d.len()
                &&& forall|j: int| 0 <= j < r@.len() ==> transition_for(
                    #[trigger] r@[j],
                    final(db).events()[n0 + j],
                    if j < c.len() { c[j] } else { d[j - c.len()] },
                )
                &&& forall|j: int| 0 <= j < c.len() ==> has_row(final(db).devices(), #[trigger] c[j])
                &&& forall|j: int| 0 <= j < c.len() && (#[trigger] c[j]).mount_point.is_some() ==> has_watch(
                    final(self).watches(),
                    identity_of(c[j]),
                    c[j].mount_point.unwrap(),
                    n0 + 1 + j,
                )
                &&& forall|k: int| 0 <= k < final(self).watches().len() ==> ids_of(final(self).devices()).contains(
                    #[trigger] final(self).watches()[k].device_id@,
                )
            },
    {
        let stored = db.event_count() as u64;
        let room = MAX_ROWS - stored;
        if current.len() as u64 > room || self.devices.len() as u64 > room - current.len() as u64 {
            return Vec::new();
        }
        let ghost old_db = *db;
        let ghost prev = self.devices@;
        let ghost live0 = ids_of(prev);
        let ghost n0 = db.events().len() as int;
        let ghost ts = max_int(db.clock(), now as int);
        let (connected, disconnected) = self.check_changes(current);
        let ghost c = connected@;
        let ghost d = disconnected@;
        let ghost cur = dedup(current@);
        proof {
            lemma_dedup(current@);
            lemma_dedup_len(current@);
            lemma_not_in(cur, live0);
            lemma_not_in(prev, ids_of(cur));
            lemma_not_in_len(cur, live0);
            lemma_not_in_len(prev, ids_of(cur));
            assert(c.subrange(0, 0) =~= Seq::<UsbDevice>::empty());
            assert(ids_of(c.subrange(0, 0)) =~= Set::empty());
            assert(live0.union(ids_of(c.subrange(0, 0))) =~= live0);
            assert(db.events().subrange(0, n0) =~= old_db.events());
            assert forall|j: int| 0 <= j < c.len() implies !live0.contains(identity_of(#[trigger] c[j])) by {
                assert(ids_of(c).contains(identity_of(c[j])));
            }
            assert forall|j: int| 0 <= j < d.len() implies live0.contains(identity_of(#[trigger] d[j])) by {
                assert(ids_of(d).contains(identity_of(d[j])));
            }
        }
        let mut r: Vec<Transition> = Vec::new();
        let mut j: usize = 0;
        while j < connected.len()
            invariant
                n0 == old_db.events().len(),
                ts == max_int(old_db.clock(), now as int),
                connected@ == c,
                self.devices@ == cur,
                unique_ids(c),
                forall|q: int| 0 <= q < c.len() ==> !live0.contains(identity_of(#[trigger] c[q])),
                n0 + c.len() + d.len() <= MAX_ROWS,
                j <= c.len(),
                db.wf(),
                ts >= now,
                ts >= old_db.clock(),
                db.clock() <= ts,
                max_int(db.clock(), now as int) == ts,
                db.events().len() == n0 + j,
                db.events().subrange(0, n0) == old_db.events(),
                db.snapshots() == old_db.snapshots(),
                r@.len() == j,
                forall|q: int| 0 <= q < j ==> event_is(#[trigger] db.events()[n0 + q], n0 + 1 + q, identity_of(c[q]), EventType::Connect, ts),
                forall|q: int| 0 <= q < j ==> transition_for(#[trigger] r@[q], db.events()[n0 + q], c[q]),
                history_matches(db.events(), live0.union(ids_of(c.subrange(0, j as int)))),
                watches_match(self.watches@, db.events(), live0.union(ids_of(c.subrange(0, j as int)))),
                forall|q: int| 0 <= q < j ==> has_row(db.devices(), #[trigger] c[q]),
                forall|q: int| 0 <= q < j && (#[trigger] c[q]).mount_point.is_some() ==> has_watch(
                    self.watches@, identity_of(c[q]), c[q].mount_point.unwrap(), n0 + 1 + q),
            decreases c.len() - j,
        {
            let ghost live = live0.union(ids_of(c.subrange(0, j as int)));
            let ghost e_before = db.events();
            let ghost d_before = db.devices();
            let ghost w_before = self.watches@;
            proof {
                if ids_of(c.subrange(0, j as int)).contains(identity_of(c[j as int])) {
                    let q = choose|q: int| 0 <= q < j && identity_of(#[trigger] c.subrange(0, j as int)[q]) == identity_of(c[j as int]);
                    assert(c.subrange(0, j as int)[q] == c[q]);
                }
            }
            let t = self.handle_device_connected(db, &connected[j], now, Ghost(live));
            r.push(t);
            proof {
                let x = c[j as int];
                assert(c.subrange(0, j + 1) =~= c.subrange(0, j as int).push(x));
                lemma_ids_push(c.subrange(0, j as int), x);
                assert(live.insert(identity_of(x)) =~= live0.union(ids_of(c.subrange(0, j + 1))));
                lemma_push_prefix(e_before, db.events(), n0);
                assert forall|q: int| 0 <= q < j + 1 implies event_is(#[trigger] db.events()[n0 + q], n0 + 1 + q, identity_of(c[q]), EventType::Connect, ts) by {
                    if q < j {
                        assert(db.events()[n0 + q] == e_before[n0 + q]);
                    }
                }
                assert forall|q: int| 0 <= q < j + 1 implies transition_for(#[trigger] r@[q], db.events()[n0 + q], c[q]) by {
                    if q < j {
                        assert(db.events()[n0 + q] == e_before[n0 + q]);
                    }
                }
                assert forall|q: int| 0 <= q < j + 1 implies has_row(db.devices(), #[trigger] c[q]) by {
                    if q < j {
                        let k = choose|k: int| 0 <= k < d_before.len() && row_describes(#[trigger] d_before[k].device, c[q]);
                        assert(identity_of(c[q]) != identity_of(x));
                        lemma_without_keeps(d_before, identity_of(x), k);
                        let m = choose|m: int| 0 <= m < db.devices().drop_last().len() && db.devices().drop_last()[m] == d_before[k];
                        assert(db.devices().drop_last()[m] == db.devices()[m]);
                        assert(row_describes(db.devices()[m].device, c[q]));
                    } else {
                        assert(row_describes(db.devices()[db.devices().len() - 1].device, c[q]));
                    }
                }
                assert forall|q: int| 0 <= q < j + 1 && (#[trigger] c[q]).mount_point.is_some() implies has_watch(
                    self.watches@, identity_of(c[q]), c[q].mount_point.unwrap(), n0 + 1 + q) by {
                    if q < j {
                        let k = choose|k: int| 0 <= k < w_before.len() && #[trigger] w_before[k].device_id@ == identity_of(c[q])
                            && w_before[k].mount_point == c[q].mount_point.unwrap() && w_before[k].activity_id == n0 + 1 + q;
                        assert(self.watches@[k] == w_before[k]);
                    } else {
                        assert(self.watches@[w_before.len() as int].device_id@ == identity_of(c[q]));
                    }
                }
            }
            j += 1;
        }
        let ghost live1 = live0.union(ids_of(c));
        proof {
            assert(c.subrange(0, c.len() as int) =~= c);
            assert(d.subrange(0, 0) =~= Seq::<UsbDevice>::empty());
            assert(ids_of(d.subrange(0, 0)) =~= Set::empty());
            assert(live1.difference(ids_of(d.subrange(0, 0))) =~= live1);
        }
        let mut j: usize = 0;
        while j < disconnected.len()
            invariant
                n0 == old_db.events().len(),
                ts == max_int(old_db.clock(), now as int),
                live1 == live0.union(ids_of(c)),
                connected@ == c,
                disconnected@ == d,
                self.devices@ == cur,
                unique_ids(d),
                forall|q: int| 0 <= q < c.len() ==> !live0.contains(identity_of(#[trigger] c[q])),
                forall|q: int| 0 <= q < d.len() ==> live0.contains(identity_of(#[trigger] d[q])),
                n0 + c.len() + d.len() <= MAX_ROWS,
                j <= d.len(),
                db.wf(),
                ts >= now,
                db.clock() <= ts,
                max_int(db.clock(), now as int) == ts,
                c.len() == 0 ==> ts >= old_db.clock(),
                db.events().len() == n0 + c.len() + j,
                db.events().subrange(0, n0) == old_db.events(),
                db.snapshots() == old_db.snapshots(),
                r@.len() == c.len() + j,
                forall|q: int| 0 <= q < c.len() ==> event_is(#[trigger] db.events()[n0 + q], n0 + 1 + q, identity_of(c[q]), EventType::Connect, ts),
                forall|q: int| 0 <= q < j ==> event_is(#[trigger] db.events()[n0 + c.len() + q], n0 + c.len() + 1 + q, identity_of(d[q]), EventType::Disconnect, ts),
                forall|q: int| 0 <= q < c.len() ==> transition_for(#[trigger] r@[q], db.events()[n0 + q], c[q]),
                forall|q: int| c.len() <= q < c.len() + j ==> transition_for(#[trigger] r@[q], db.events()[n0 + q], d[q - c.len()]),
                history_matches(db.events(), live1.difference(ids_of(d.subrange(0, j as int)))),
                watches_match(self.watches@, db.events(), live1.difference(ids_of(d.subrange(0, j as int)))),
                forall|q: int| 0 <= q < c.len() ==> has_row(db.devices(), #[trigger] c[q]),
                forall|q: int| 0 <= q < c.len() && (#[trigger] c[q]).mount_point.is_some() ==> has_watch(
                    self.watches@, identity_of(c[q]), c[q].mount_point.unwrap(), n0 + 1 + q),
            decreases d.len() - j,
        {
            let ghost live = live1.difference(ids_of(d.subrange(0, j as int)));
            let ghost e_before = db.events();
            let ghost w_before = self.watches@;
            proof {
                let x = d[j as int];
                if ids_of(d.subrange(0, j as int)).contains(identity_of(x)) {
                    let q = choose|q: int| 0 <= q < j && identity_of(#[trigger] d.subrange(0, j as int)[q]) == identity_of(x);
                    assert(d.subrange(0, j as int)[q] == d[q]);
                }
            }
            let t = self.handle_device_disconnected(db, &disconnected[j], now, Ghost(live));
            r.push(t);
            proof {
                let x = d[j as int];
                assert(d.subrange(0, j + 1) =~= d.subrange(0, j as int).push(x));
                lemma_ids_push(d.subrange(0, j as int), x);
                assert(live.remove(identity_of(x)) =~= live1.difference(ids_of(d.subrange(0, j + 1))));
                lemma_push_prefix(e_before, db.events(), n0);
                assert forall|q: int| 0 <= q < c.len() implies event_is(#[trigger] db.events()[n0 + q], n0 + 1 + q, identity_of(c[q]), EventType::Connect, ts) by {
                    assert(db.events()[n0 + q] == e_before[n0 + q]);
                }
                assert forall|q: int| 0 <= q < j + 1 implies event_is(#[trigger] db.events()[n0 + c.len() + q], n0 + c.len() + 1 + q, identity_of(d[q]), EventType::Disconnect, ts) by {
                    if q < j {
                        assert(db.events()[n0 + c.len() + q] == e_before[n0 + c.len() + q]);
                    }
                }
                assert forall|q: int| 0 <= q < c.len() implies transition_for(#[trigger] r@[q], db.events()[n0 + q], c[q]) by {
                    assert(db.events()[n0 + q] == e_before[n0 + q]);
                }
                assert forall|q: int| c.len() <= q < c.len() + j + 1 implies transition_for(#[trigger] r@[q], db.events()[n0 + q], d[q - c.len()]) by {
                    if q < c.len() + j {
                        assert(db.events()[n0 + q] == e_before[n0 + q]);
                    }
                }
                assert forall|q: int| 0 <= q < c.len() && (#[trigger] c[q]).mount_point.is_some() implies has_watch(
                    self.watches@, identity_of(c[q]), c[q].mount_point.unwrap(), n0 + 1 + q) by {
                    let k = choose|k: int| 0 <= k < w_before.len() && #[trigger] w_before[k].device_id@ == identity_of(c[q])
                        && w_before[k].mount_point == c[q].mount_point.unwrap() && w_before[k].activity_id == n0 + 1 + q;
                    assert(identity_of(c[q]) != identity_of(x));
                    assert(self.watches@.contains(w_before[k]));
                    let m = choose|m: int| 0 <= m < self.watches@.len() && self.watches@[m] == w_before[k];
                    assert(self.watches@[m].device_id@ == identity_of(c[q]));
                }
            }
            j += 1;
        }
        proof {
            assert(d.subrange(0, d.len() as int) =~= d);
            assert(live1.difference(ids_of(d)) =~= ids_of(cur));
            let fin = db.events();
            let added = fin.subrange(n0, fin.len() as int);
            assert forall|q: int| 0 <= q < c.len() implies event_is(#[trigger] added[q], n0 + 1 + q, identity_of(c[q]), EventType::Connect, ts) by {
                assert(added[q] == fin[n0 + q]);
            }
            assert forall|q: int| 0 <= q < d.len() implies event_is(#[trigger] added[c.len() + q], n0 + 1 + c.len() + q, identity_of(d[q]), EventType::Disconnect, ts) by {
                assert(added[c.len() + q] == fin[n0 + c.len() + q]);
            }
            assert forall|k: int| 0 <= k < self.watches@.len() implies ids_of(cur).contains(#[trigger] self.watches@[k].device_id@) by {
            }
        }
        r
    }

    /// Takes over a store reloaded from disk. When every device's history
    /// alternates, a DISCONNECT stamped `now` is appended for each device
    /// whose history ends with a CONNECT, as nothing is known to be attached
    /// yet, and an empty monitor agreeing with the store is returned. When
    /// some history does not alternate, or the store has no room, the store
    /// is left as it is and `None` is returned.
    #[verifier::rlimit(60)]
    pub fn restore(db: &mut Database, now: i64) -> (r: Option<UsbMonitor>)
        requires
            old(db).wf(),
        ensures
            final(db).wf(),
            r.is_none() ==> *final(db) == *old(db) && (!history_alternates(old(db).events())
                || 2 * old(db).events().len() > MAX_ROWS),
            history_alternates(old(db).events()) && 2 * old(db).events().len() <= MAX_ROWS ==> r.is_some(),
            r.is_some() ==> {
                &&& r.unwrap().consistent(*final(db))
                &&& r.unwrap().devices().len() == 0
                &&& r.unwrap().watches().len() == 0
                &&& final(db).events().subrange(0, old(db).events().len() as int) == old(db).events()
                &&& final(db).snapshots() == old(db).snapshots()
                &&& forall|dev: Seq<char>| #[trigger] kinds_of(final(db).events(), dev).len() ==
                    kinds_of(old(db).events(), dev).len() + if kinds_of(old(db).events(), dev).len() % 2 == 1 { 1int } else { 0int }
            },
    {
        let ghost e0 = db.events();
        let n = db.event_count();
        let mut state: Vec<(String, EventType)> = Vec::new();
        let mut k: usize = 0;
        proof {
            assert(e0.subrange(0, 0) =~= Seq::<ActivityLog>::empty());
            assert forall|dev: Seq<char>| #[trigger] kinds_of(e0.subrange(0, 0), dev).len() == 0 by {}
        }
        while k < n
            invariant
                n == e0.len(),
                db.events() == e0,
                *db == *old(db),
                db.wf(),
                k <= n,
                state@.len() <= k,
                last_kinds(state@, e0.subrange(0, k as int)),
                history_alternates(e0.subrange(0, k as int)),
            decreases n - k,
        {
            let e = db.get_event(k);
            let ghost pre = e0.subrange(0, k as int);
            let ghost post = e0.subrange(0, k + 1);
            let ghost dev0 = e.device_id@;
            let ghost t = e.event_type;
            assert(post.drop_last() =~= pre);
            assert(post.last() == *e);
            let ghost kp = kinds_of(pre, dev0);
            proof {
                assert forall|dev: Seq<char>| #[trigger] kinds_of(post, dev) == if dev == dev0 {
                    kinds_of(pre, dev).push(t)
                } else {
                    kinds_of(pre, dev)
                } by {}
                assert(alternates(kp));
            }
            let mut j: usize = 0;
            let mut found = false;
            while j < state.len() && !found
                invariant
                    j <= state@.len(),
                    found ==> j < state@.len() && state@[j as int].0@ == dev0,
                    !found ==> forall|q: int| 0 <= q < j ==> state@[q].0@ != dev0,
                    e.device_id@ == dev0,
                decreases state@.len() - j + (if found { 0int } else { 1int }),
            {
                if state[j].0 == e.device_id {
                    found = true;
                } else {
                    j += 1;
                }
            }
            proof {
                if !found && kp.len() > 0 {
                    let q = choose|q: int| 0 <= q < state@.len() && #[trigger] state@[q].0@ == dev0;
                    assert(state@[q].0@ != dev0);
                }
                if found {
                    assert(kp.len() > 0 && kp.last() == state@[j as int].1);
                }
            }
            let expected = if found {
                match state[j].1 {
                    EventType::Connect => EventType::Disconnect,
                    EventType::Disconnect => EventType::Connect,
                }
            } else {
                EventType::Connect
            };
            proof {
                assert(expected == if kp.len() % 2 == 0 { EventType::Connect } else { EventType::Disconnect }) by {
                    if found {
                        assert(kp[kp.len() - 1] == if (kp.len() - 1) % 2 == 0 { EventType::Connect } else { EventType::Disconnect });
                    }
                }
            }
            if e.event_type != expected {
                proof {
                    assert(kinds_of(post, dev0)[kp.len() as int] == t);
                    assert(!alternates(kinds_of(post, dev0)));
                    if history_alternates(e0) {
                        lemma_alternation_prefix(e0, dev0, k + 1);
                    }
                }
                return None;
            }
            let ghost s0 = state@;
            if found {
                state.set(j, (e.device_id.clone(), e.event_type));
            } else {
                state.push((e.device_id.clone(), e.event_type));
            }
            proof {
                assert forall|dev: Seq<char>| #![trigger kinds_of(post, dev)] alternates(kinds_of(post, dev)) by {
                    if dev == dev0 {
                        let kq = kinds_of(post, dev);
                        assert forall|i: int| 0 <= i < kq.len() implies #[trigger] kq[i] == if i % 2 == 0 {
                            EventType::Connect
                        } else {
                            EventType::Disconnect
                        } by {
                            if i < kp.len() {
                                assert(kq[i] == kp[i]);
                            }
                        }
                    } else {
                        assert(alternates(kinds_of(pre, dev)));
                    }
                }
                assert forall|x: int, y: int| 0 <= x < y < state@.len() implies state@[x].0@ != state@[y].0@ by {
                    if found {
                        assert(s0[x].0@ != s0[y].0@);
                    } else if y < s0.len() {
                        assert(s0[x].0@ != s0[y].0@);
                    }
                }
                assert forall|p: int| 0 <= p < state@.len() implies kinds_of(post, #[trigger] state@[p].0@).len() > 0
                    && kinds_of(post, state@[p].0@).last() == state@[p].1 by {
                    if p < s0.len() && !(found && p == j) {
                        assert(state@[p] == s0[p]);
                        if s0[p].0@ == dev0 {
                            assert(found);
                            assert(s0[j as int].0@ == dev0);
                        }
                    }
                }
                assert forall|dev: Seq<char>| #![trigger kinds_of(post, dev)] kinds_of(post, dev).len() > 0
                    implies exists|q: int| 0 <= q < state@.len() && #[trigger] state@[q].0@ == dev by {
                    if dev == dev0 {
                        if found {
                            assert(state@[j as int].0@ == dev);
                        } else {
                            assert(state@[state@.len() - 1].0@ == dev);
                        }
                    } else {
                        assert(kinds_of(pre, dev).len() > 0);
                        let q = choose|q: int| 0 <= q < s0.len() && #[trigger] s0[q].0@ == dev;
                        assert(state@[q].0@ == dev);
                    }
                }
            }
            k += 1;
        }
        assert(e0.subrange(0, n as int) =~= e0);
        if n as u64 > MAX_ROWS - n as u64 {
            return None;
        }
        let ghost open = Set::new(|dev: Seq<char>| kinds_of(e0, dev).len() % 2 == 1);
        proof {
            assert(history_matches(e0, open)) by {
                assert forall|dev: Seq<char>| #![trigger kinds_of(e0, dev)]
                    alternates(kinds_of(e0, dev)) && (kinds_of(e0, dev).len() % 2 == 1 <==> open.contains(dev)) by {}
            }
        }
        let mut q: usize = 0;
        let ghost mut done: Set<Seq<char>> = Set::empty();
        proof {
            assert(open.difference(done) =~= open);
            assert(db.events().subrange(0, n as int) =~= e0);
        }
        while q < state.len()
            invariant
                db.wf(),
                last_kinds(state@, e0),
                history_alternates(e0),
                n == e0.len(),
                state@.len() <= n,
                2 * n <= MAX_ROWS,
                q <= state@.len(),
                n <= db.events().len() <= n + q,
                db.events().subrange(0, n as int) == e0,
                db.snapshots() == old(db).snapshots(),
                open == Set::new(|dev: Seq<char>| kinds_of(e0, dev).len() % 2 == 1),
                forall|dev: Seq<char>| done.contains(dev) <==> exists|p: int| 0 <= p < q && #[trigger] state@[p].0@ == dev,
                history_matches(db.events(), open.difference(done)),
                forall|dev: Seq<char>| #[trigger] kinds_of(db.events(), dev).len() == kinds_of(e0, dev).len() + if
                    open.contains(dev) && done.contains(dev) { 1int } else { 0int },
            decreases state@.len() - q,
        {
            let ghost dev0 = state@[q as int].0@;
            let ghost ev = db.events();
            let ghost live = open.difference(done);
            proof {
                assert(!done.contains(dev0)) by {
                    if done.contains(dev0) {
                        let p = choose|p: int| 0 <= p < q && #[trigger] state@[p].0@ == dev0;
                    }
                }
                assert(alternates(kinds_of(e0, dev0)));
                assert(kinds_of(e0, dev0).len() > 0);
                assert((state@[q as int].1 == EventType::Connect) <==> open.contains(dev0));
            }
            if state[q].1 == EventType::Connect {
                let res = db.create_activity_log(state[q].0.as_str(), EventType::Disconnect, now);
                proof {
                    lemma_push_prefix(ev, db.events(), n as int);
                    assert forall|dev: Seq<char>| #![trigger kinds_of(db.events(), dev)]
                        alternates(kinds_of(db.events(), dev)) && (kinds_of(db.events(), dev).len() % 2 == 1
                            <==> live.remove(dev0).contains(dev)) by {
                        assert(kinds_of(db.events(), dev) == if dev == dev0 {
                            kinds_of(ev, dev).push(EventType::Disconnect)
                        } else {
                            kinds_of(ev, dev)
                        });
                        assert(alternates(kinds_of(ev, dev)));
                    }
                    assert forall|dev: Seq<char>| #[trigger] kinds_of(db.events(), dev).len() == kinds_of(e0, dev).len() + if
                        open.contains(dev) && done.insert(dev0).contains(dev) { 1int } else { 0int } by {
                        assert(kinds_of(db.events(), dev).len() == kinds_of(ev, dev).len() + if dev == dev0 { 1int } else { 0int });
                    }
                    assert(live.remove(dev0) =~= open.difference(done.insert(dev0)));
                }
            } else {
                proof {
                    assert(live =~= open.difference(done.insert(dev0)));
                }
            }
            proof {
                done = done.insert(dev0);
                assert forall|dev: Seq<char>| done.contains(dev) <==> exists|p: int| 0 <= p < q + 1 && #[trigger] state@[p].0@ == dev by {
                    if dev == dev0 {
                        assert(state@[q as int].0@ == dev);
                    }
                }
            }
            q += 1;
        }
        proof {
            assert(open.difference(done) =~= Set::<Seq<char>>::empty()) by {
                assert forall|dev: Seq<char>| open.contains(dev) implies done.contains(dev) by {
                    assert(kinds_of(e0, dev).len() > 0);
                    let p = choose|p: int| 0 <= p < state@.len() && #[trigger] state@[p].0@ == dev;
                }
            }
            assert(db.events().subrange(0, e0.len() as int) == e0);
        }
        let m = UsbMonitor { devices: Vec::new(), watches: Vec::new() };
        proof {
            assert(ids_of(m.devices@) =~= Set::<Seq<char>>::empty());
            assert forall|dev: Seq<char>| #[trigger] kinds_of(db.events(), dev).len() ==
                kinds_of(e0, dev).len() + if kinds_of(e0, dev).len() % 2 == 1 { 1int } else { 0int } by {
                if open.contains(dev) {
                    assert(done.contains(dev)) by {
                        assert(kinds_of(e0, dev).len() > 0);
                        let p = choose|p: int| 0 <= p < state@.len() && #[trigger] state@[p].0@ == dev;
                    }
                }
            }
        }
        Some(m)
    }

    /// Compares the enumeration `current` with the previous one: returns the
    /// records whose identity is new, then those whose identity is gone, and
    /// keeps the first record of each identity of `current` as the new
    /// previous enumeration.
    pub fn check_changes(&mut self, current: &Vec<UsbDevice>) -> (r: (Vec<UsbDevice>, Vec<UsbDevice>))
        ensures
            final(self).devices() == dedup(current@),
            final(self).watches() == old(self).watches(),
            r.0@ == not_in(dedup(current@), ids_of(old(self).devices())),
            r.1@ == not_in(old(self).devices(), ids_of(dedup(current@))),
    {
        let (now_devices, now_ids) = first_of_each(current);
        let prev_ids = identities(&self.devices);
        proof {
            assert forall|x: Seq<char>| string_views(prev_ids@).contains(x) <==> ids_of(self.devices@).contains(x) by {
                lemma_id_list_contains(self.devices@, x);
            }
            assert forall|x: Seq<char>| string_views(now_ids@).contains(x) <==> ids_of(now_devices@).contains(x) by {
                lemma_id_list_contains(now_devices@, x);
            }
        }
        let connected = keep_absent(&now_devices, &prev_ids, Ghost(ids_of(self.devices@)));
        let disconnected = keep_absent(&self.devices, &now_ids, Ghost(ids_of(now_devices@)));
        self.devices = now_devices;
        (connected, disconnected)
    }

    /// One device record per removable volume of `disks`, in order, joined
    /// with the USB nodes `usb_nodes` (see `describes_disk`).
    pub fn scan_devices(usb_nodes: &Vec<UsbDevice>, disks: &Vec<DiskInfo>) -> (r: Vec<UsbDevice>)
        ensures
            r@.len() == removable(disks@).len(),
            forall|i: int| 0 <= i < r@.len() ==> describes_disk(#[trigger] r@[i], usb_nodes@, removable(disks@)[i]),
    {
        let mut r: Vec<UsbDevice> = Vec::new();
        let mut i: usize = 0;
        assert(disks@.subrange(0, 0) =~= Seq::<DiskInfo>::empty());
        while i < disks.len()
            invariant
                i <= disks@.len(),
                r@.len() == removable(disks@.subrange(0, i as int)).len(),
                forall|j: int| 0 <= j < r@.len() ==> describes_disk(#[trigger] r@[j], usb_nodes@, removable(disks@.subrange(0, i as int))[j]),
            decreases disks@.len() - i,
        {
            assert(disks@.subrange(0, i + 1).drop_last() =~= disks@.subrange(0, i as int));
            if disks[i].is_removable {
                let d = device_for_disk(usb_nodes, &disks[i]);
                r.push(d);
            }
            i += 1;
        }
        assert(disks@.subrange(0, disks@.len() as int) =~= disks@);
        r
    }
}

impl PartialEq for UsbDevice {
    fn eq(&self, other: &Self) -> (r: bool) {
        let same_serial = match (&self.serial_number, &other.serial_number) {
            (Some(a), Some(b)) => *a == *b,
            (None, None) => true,
            _ => false,
        };
        self.vendor_id == other.vendor_id && self.product_id == other.product_id && same_serial
    }
}

impl vstd::std_specs::cmp::PartialEqSpecImpl for UsbDevice {
    open spec fn obeys_eq_spec() -> bool {
        true
    }

    open spec fn eq_spec(&self, other: &UsbDevice) -> bool {
        &&& self.vendor_id == other.vendor_id
        &&& self.product_id == other.product_id
        &&& match (self.serial_number, other.serial_number) {
            (Some(a), Some(b)) => a@ == b@,
            (None, None) => true,
            _ => false,
        }
    }
}

/// One connection of a device and what its snapshots hold.
#[derive(Debug, Clone, Copy, PartialEq, Eq, Structural)]
pub struct ScanSummary {
    pub activity_id: i64,
    pub timestamp: i64,
    pub snapshot_count: usize,
    pub file_count: usize,
    pub folder_count: usize,
}

/// The snapshots of a device's newest connection and their counts.
#[derive(Debug)]
pub struct DeviceFiles {
    pub device_id: String,
    pub activity_id: i64,
    pub snapshots: Vec<FileSnapshot>,
    pub total_files: i64,
    pub total_folders: i64,
}

/// The newest `limit` activity events, newest first; all when `limit` is
/// negative.
pub fn get_device_history(db: &Database, limit: i64) -> (r: Vec<ActivityLog>)
    requires
        db.wf(),
    ensures
        r@ == recent_events(db.events(), limit as int),
{
    db.get_activity_history(limit)
}

/// Every registered device, most recently updated first.
pub fn get_registered_devices(db: &Database) -> (r: Vec<Device>)
    requires
        db.wf(),
    ensures
        r@.len() == db.devices().len(),
        forall|i: int| 0 <= i < r@.len() ==> #[trigger] r@[i] == db.devices()[db.devices().len() - 1 - i].device,
{
    db.get_devices()
}

/// The snapshots of one activity event, ordered by path, with how many are
/// files and how many folders.
pub fn get_file_snapshots(db: &Database, activity_log_id: i64) -> (r: (Vec<FileSnapshot>, (i64, i64)))
    requires
        db.wf(),
    ensures
        is_listing(db.snapshots(), activity_log_id as int, r.0@),
        r.1.0 == count_kind(db.snapshots(), activity_log_id as int, false),
        r.1.1 == count_kind(db.snapshots(), activity_log_id as int, true),
{
    let snapshots = db.get_file_snapshots(activity_log_id);
    let stats = db.get_scan_stats(activity_log_id);
    (snapshots, stats)
}

/// The snapshots of the newest connection of `device_id`, with its counts;
/// activity id 0 and nothing else when it never connected.
pub fn get_device_files(db: &Database, device_id: &str) -> (r: DeviceFiles)
    requires
        db.wf(),
    ensures
        r.device_id@ == device_id@,
        r.activity_id == latest_connect(db.events(), device_id@),
        r.activity_id == 0 ==> r.snapshots@.len() == 0 && r.total_files == 0 && r.total_folders == 0,
        r.activity_id != 0 ==> {
            &&& is_listing(db.snapshots(), r.activity_id as int, r.snapshots@)
            &&& r.total_files == count_kind(db.snapshots(), r.activity_id as int, false)
            &&& r.total_folders == count_kind(db.snapshots(), r.activity_id as int, true)
        },
{
    let (activity_id, snapshots) = db.get_latest_device_snapshots(device_id);
    let (total_files, total_folders) = if activity_id != 0 {
        db.get_scan_stats(activity_id)
    } else {
        (0, 0)
    };
    DeviceFiles { device_id: String::from_str(device_id), activity_id, snapshots, total_files, total_folders }
}

/// Counts the files and folders of one snapshot listing.
fn count_listing(s: &Vec<FileSnapshot>) -> (r: (usize, usize))
    ensures
        r.0 == tally(s@).0,
        r.1 == tally(s@).1,
{
    let mut files: usize = 0;
    let mut folders: usize = 0;
    let mut i: usize = 0;
    while i < s.len()
        invariant
            i <= s@.len(),
            files == tally(s@.subrange(0, i as int)).0,
            folders == tally(s@.subrange(0, i as int)).1,
            files + folders == i,
        decreases s@.len() - i,
    {
        assert(s@.subrange(0, i + 1).drop_last() =~= s@.subrange(0, i as int));
        if s[i].is_folder {
            folders += 1;
        } else {
            files += 1;
        }
        i += 1;
    }
    assert(s@.subrange(0, s@.len() as int) =~= s@);
    (files, folders)
}

/// One summary per connection of `device_id`, newest first: when it
/// connected, and how many snapshots, files and folders it recorded.
pub fn get_device_all_scans(db: &Database, device_id: &str) -> (r: Vec<ScanSummary>)
    requires
        db.wf(),
    ensures
        r@.len() == connects_desc(db.events(), device_id@).len(),
        forall|j: int| 0 <= j < r@.len() ==> {
            let e = #[trigger] connects_desc(db.events(), device_id@)[j];
            exists|listing: Seq<FileSnapshot>|
                #![trigger is_listing(db.snapshots(), e.id as int, listing)]
                {
                &&& is_listing(db.snapshots(), e.id as int, listing)
                &&& r@[j].activity_id == e.id
                &&& r@[j].timestamp == e.timestamp
                &&& r@[j].snapshot_count == listing.len()
                &&& r@[j].file_count == tally(listing).0
                &&& r@[j].folder_count == tally(listing).1
            }
        },
{
    let all = db.get_all_device_snapshots(device_id);
    let mut r: Vec<ScanSummary> = Vec::new();
    let mut i: usize = 0;
    while i < all.len()
        invariant
            i <= all@.len(),
            r@.len() == i,
            all@.len() == connects_desc(db.events(), device_id@).len(),
            forall|j: int| 0 <= j < all@.len() ==> {
                let e = #[trigger] connects_desc(db.events(), device_id@)[j];
                &&& all@[j].0 == e.id
                &&& all@[j].1 == e.timestamp
                &&& is_listing(db.snapshots(), e.id as int, all@[j].2@)
            },
            forall|j: int| 0 <= j < i ==> {
                &&& #[trigger] r@[j].activity_id == all@[j].0
                &&& r@[j].timestamp == all@[j].1
                &&& r@[j].snapshot_count == all@[j].2@.len()
                &&& r@[j].file_count == tally(all@[j].2@).0
                &&& r@[j].folder_count == tally(all@[j].2@).1
            },
        decreases all@.len() - i,
    {
        let (activity_id, timestamp, snaps) = (all[i].0, all[i].1, &all[i].2);
        let (file_count, folder_count) = count_listing(snaps);
        r.push(ScanSummary { activity_id, timestamp, snapshot_count: snaps.len(), file_count, folder_count });
        i += 1;
    }
    assert forall|j: int| 0 <= j < r@.len() implies {
        let e = #[trigger] connects_desc(db.events(), device_id@)[j];
        exists|listing: Seq<FileSnapshot>|
            #![trigger is_listing(db.snapshots(), e.id as int, listing)]
            {
            &&& is_listing(db.snapshots(), e.id as int, listing)
            &&& r@[j].activity_id == e.id
            &&& r@[j].timestamp == e.timestamp
            &&& r@[j].snapshot_count == listing.len()
            &&& r@[j].file_count == tally(listing).0
            &&& r@[j].folder_count == tally(listing).1
        }
    } by {
        let e = connects_desc(db.events(), device_id@)[j];
        assert(is_listing(db.snapshots(), e.id as int, all@[j].2@));
        assert(r@[j].activity_id == all@[j].0);
    }
    r
}

/// Every device's events alternate, starting with a CONNECT.
pub open spec fn history_alternates(events: Seq<ActivityLog>) -> bool {
    forall|dev: Seq<char>| #![trigger kinds_of(events, dev)] alternates(kinds_of(events, dev))
}

/// `state` holds, once per device that has events in `events`, the kind of
/// its newest event.
pub open spec fn last_kinds(state: Seq<(String, EventType)>, events: Seq<ActivityLog>) -> bool {
    &&& forall|i: int, j: int| 0 <= i < j < state.len() ==> state[i].0@ != state[j].0@
    &&& forall|j: int|
        0 <= j < state.len() ==> kinds_of(events, #[trigger] state[j].0@).len() > 0 && kinds_of(
            events,
            state[j].0@,
        ).last() == state[j].1
    &&& forall|dev: Seq<char>|
        #![trigger kinds_of(events, dev)]
        kinds_of(events, dev).len() > 0 ==> exists|j: int| 0 <= j < state.len() && #[trigger] state[j].0@ == dev
}

proof fn lemma_alternation_prefix(events: Seq<ActivityLog>, dev: Seq<char>, p: int)
    requires
        0 <= p <= events.len(),
        alternates(kinds_of(events, dev)),
    ensures
        alternates(kinds_of(events.subrange(0, p), dev)),
{
    lemma_kinds_prefix(events, dev, p);
}


/// The identities of the events of kind `kind` among `added`.
pub open spec fn ids_with_kind(added: Seq<ActivityLog>, kind: EventType) -> Set<Seq<char>> {
    Set::new(
        |x: Seq<char>|
            exists|j: int| 0 <= j < added.len() && #[trigger] added[j].event_type == kind && added[j].device_id@ == x,
    )
}

proof fn lemma_kinds_prefix(events: Seq<ActivityLog>, dev: Seq<char>, p: int)
    requires
        0 <= p <= events.len(),
    ensures
        exists|n: int|
            0 <= n <= kinds_of(events, dev).len() && kinds_of(events.subrange(0, p), dev) == kinds_of(events, dev).subrange(0, n),
    decreases events.len(),
{
    let k = kinds_of(events, dev);
    if p == events.len() {
        assert(events.subrange(0, p) =~= events);
        assert(k.subrange(0, k.len() as int) =~= k);
    } else {
        let t = events.drop_last();
        lemma_kinds_prefix(t, dev, p);
        assert(t.subrange(0, p) =~= events.subrange(0, p));
        let n = choose|n: int|
            0 <= n <= kinds_of(t, dev).len() && kinds_of(t.subrange(0, p), dev) == kinds_of(t, dev).subrange(0, n);
        assert(kinds_of(t, dev).subrange(0, n) =~= k.subrange(0, n));
    }
}

/// Every device's events in a store kept by the monitor read CONNECT,
/// DISCONNECT, CONNECT, ...: any prefix of the history has the form
/// (CONNECT DISCONNECT)* (CONNECT)?, and the history ends with a CONNECT
/// exactly when the device is present.
pub proof fn lemma_history_alternates(m: UsbMonitor, db: Database, dev: Seq<char>, p: int)
    requires
        m.consistent(db),
        0 <= p <= db.events().len(),
    ensures
        alternates(kinds_of(db.events().subrange(0, p), dev)),
        kinds_of(db.events(), dev).len() % 2 == 1 <==> ids_of(m.devices()).contains(dev),
{
    lemma_kinds_prefix(db.events(), dev, p);
    assert(alternates(kinds_of(db.events(), dev)));
}

/// The monitor's agreement with the store depends on the store's events
/// only: writing devices or snapshots keeps it.
pub proof fn lemma_consistent_frame(m: UsbMonitor, before: Database, after: Database)
    requires
        m.consistent(before),
        after.wf(),
        after.events() == before.events(),
    ensures
        m.consistent(after),
{
}

/// One poll appends a CONNECT for exactly the identities that are new and
/// a DISCONNECT for exactly those that are gone, each at most once.
pub proof fn lemma_poll_transitions(prev: Seq<UsbDevice>, cur: Seq<UsbDevice>, added: Seq<ActivityLog>, first: int, ts: int)
    requires
        unique_ids(prev),
        poll_events(added, prev, cur, first, ts),
    ensures
        ids_with_kind(added, EventType::Connect) == ids_of(cur).difference(ids_of(prev)),
        ids_with_kind(added, EventType::Disconnect) == ids_of(prev).difference(ids_of(cur)),
        forall|i: int, j: int|
            0 <= i < j < added.len() && added[i].event_type == added[j].event_type ==> #[trigger] added[i].device_id@
                != #[trigger] added[j].device_id@,
{
    let dc = dedup(cur);
    let c = connected_of(prev, cur);
    let d = disconnected_of(prev, cur);
    lemma_dedup(cur);
    lemma_not_in(dc, ids_of(prev));
    lemma_not_in(prev, ids_of(dc));
    assert(ids_of(dc).difference(ids_of(prev)) == ids_of(cur).difference(ids_of(prev)));
    assert forall|x: Seq<char>| ids_with_kind(added, EventType::Connect).contains(x) <==> ids_of(c).contains(x) by {
        if ids_with_kind(added, EventType::Connect).contains(x) {
            let j = choose|j: int| 0 <= j < added.len() && #[trigger] added[j].event_type == EventType::Connect && added[j].device_id@ == x;
            if j >= c.len() {
                assert(added[c.len() + (j - c.len())].event_type == EventType::Disconnect);
            } else {
                assert(identity_of(c[j]) == x);
            }
        }
        if ids_of(c).contains(x) {
            let j = choose|j: int| 0 <= j < c.len() && identity_of(#[trigger] c[j]) == x;
            assert(event_is(added[j], first + j, identity_of(c[j]), EventType::Connect, ts));
        }
    }
    assert(ids_with_kind(added, EventType::Connect) =~= ids_of(cur).difference(ids_of(prev)));
    assert forall|x: Seq<char>| ids_with_kind(added, EventType::Disconnect).contains(x) <==> ids_of(d).contains(x) by {
        if ids_with_kind(added, EventType::Disconnect).contains(x) {
            let j = choose|j: int| 0 <= j < added.len() && #[trigger] added[j].event_type == EventType::Disconnect && added[j].device_id@ == x;
            if j < c.len() {
                assert(event_is(added[j], first + j, identity_of(c[j]), EventType::Connect, ts));
            } else {
                assert(event_is(added[c.len() + (j - c.len())], first + c.len() + (j - c.len()), identity_of(d[j - c.len()]), EventType::Disconnect, ts));
                assert(identity_of(d[j - c.len()]) == x);
            }
        }
        if ids_of(d).contains(x) {
            let j = choose|j: int| 0 <= j < d.len() && identity_of(#[trigger] d[j]) == x;
            assert(event_is(added[c.len() + j], first + c.len() + j, identity_of(d[j]), EventType::Disconnect, ts));
        }
    }
    assert(ids_with_kind(added, EventType::Disconnect) =~= ids_of(prev).difference(ids_of(cur)));
    assert forall|i: int, j: int|
        0 <= i < j < added.len() && added[i].event_type == added[j].event_type implies #[trigger] added[i].device_id@
            != #[trigger] added[j].device_id@ by {
        if j < c.len() {
            assert(event_is(added[i], first + i, identity_of(c[i]), EventType::Connect, ts));
            assert(event_is(added[j], first + j, identity_of(c[j]), EventType::Connect, ts));
        } else if i >= c.len() {
            assert(event_is(added[c.len() + (i - c.len())], first + c.len() + (i - c.len()), identity_of(d[i - c.len()]), EventType::Disconnect, ts));
            assert(event_is(added[c.len() + (j - c.len())], first + c.len() + (j - c.len()), identity_of(d[j - c.len()]), EventType::Disconnect, ts));
        } else {
            assert(event_is(added[i], first + i, identity_of(c[i]), EventType::Connect, ts));
            assert(event_is(added[c.len() + (j - c.len())], first + c.len() + (j - c.len()), identity_of(d[j - c.len()]), EventType::Disconnect, ts));
        }
    }
}

} // verus!
