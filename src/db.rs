use vstd::prelude::*;
use vstd::utf8::encode_utf8;

verus! {

/// Largest number of rows a table may hold, so that every row id fits in `i64`.
pub const MAX_ROWS: u64 = 9223372036854775806;

/// Kind of an activity event.
#[derive(Debug, Clone, Copy, PartialEq, Eq, Structural)]
pub enum EventType {
    Connect,
    Disconnect,
}

/// The text stored for each kind of event.
pub open spec fn event_type_text(e: EventType) -> Seq<char> {
    match e {
        EventType::Connect => "CONNECT"@,
        EventType::Disconnect => "DISCONNECT"@,
    }
}

impl EventType {
    pub fn as_str(&self) -> (r: &'static str)
        ensures
            r@ == event_type_text(*self),
    {
        match self {
            EventType::Connect => "CONNECT",
            EventType::Disconnect => "DISCONNECT",
        }
    }
}

/// Why the store refused a write.
#[derive(Debug, Clone, Copy, PartialEq, Eq, Structural)]
pub enum StoreError {
    /// A table already holds `MAX_ROWS` rows.
    Full,
    /// A snapshot names an activity id that is not a CONNECT event of the store.
    UnknownActivity,
    /// A snapshot has a negative size, or a folder has a non-zero size.
    InvalidSize,
}

pub(crate) fn clone_opt_string(s: &Option<String>) -> (r: Option<String>)
    ensures
        r == *s,
{
    match s {
        Some(v) => Some(v.clone()),
        None => None,
    }
}

/// A registered storage device, keyed by its stable identity `serial_number`.
#[derive(Debug)]
pub struct Device {
    pub serial_number: String,
    pub vendor_id: u16,
    pub product_id: u16,
    pub name: Option<String>,
    pub manufacturer: Option<String>,
    pub total_capacity: Option<i64>,
}

impl Clone for Device {
    fn clone(&self) -> (r: Self)
        ensures
            r == *self,
    {
        Device {
            serial_number: self.serial_number.clone(),
            vendor_id: self.vendor_id,
            product_id: self.product_id,
            name: clone_opt_string(&self.name),
            manufacturer: clone_opt_string(&self.manufacturer),
            total_capacity: self.total_capacity,
        }
    }
}

/// One connect or disconnect of a device; `timestamp` is in seconds.
#[derive(Debug)]
pub struct ActivityLog {
    pub id: i64,
    pub device_id: String,
    pub event_type: EventType,
    pub timestamp: i64,
}

impl Clone for ActivityLog {
    fn clone(&self) -> (r: Self)
        ensures
            r == *self,
    {
        ActivityLog {
            id: self.id,
            device_id: self.device_id.clone(),
            event_type: self.event_type,
            timestamp: self.timestamp,
        }
    }
}

/// Metadata of one file-system entry, recorded against an activity event.
#[derive(Debug)]
pub struct FileSnapshot {
    pub id: Option<i64>,
    pub activity_log_id: i64,
    pub file_path: String,
    pub file_name: String,
    pub file_extension: Option<String>,
    pub file_size: i64,
    pub is_folder: bool,
}

impl Clone for FileSnapshot {
    fn clone(&self) -> (r: Self)
        ensures
            r == *self,
    {
        FileSnapshot {
            id: self.id,
            activity_log_id: self.activity_log_id,
            file_path: self.file_path.clone(),
            file_name: self.file_name.clone(),
            file_extension: clone_opt_string(&self.file_extension),
            file_size: self.file_size,
            is_folder: self.is_folder,
        }
    }
}

/// A device row together with the times it was first and last written.
#[derive(Debug)]
pub struct DeviceRecord {
    pub device: Device,
    pub created_at: i64,
    pub updated_at: i64,
}

/// The append-only store of devices, activity events and file snapshots.
///
/// Event ids and snapshot ids are assigned by the store: the row at position
/// `i` has id `i + 1`. Every write is stamped with the store's clock, which
/// never runs backwards, so id order is also timestamp order.
pub struct Database {
    devices: Vec<DeviceRecord>,
    events: Vec<ActivityLog>,
    snapshots: Vec<FileSnapshot>,
    clock: i64,
}

/// `id` is the id of a CONNECT event of `events`.
pub open spec fn is_connect_id(events: Seq<ActivityLog>, id: int) -> bool {
    1 <= id <= events.len() && events[id - 1].event_type == EventType::Connect
}

/// Why a single snapshot could not be stored next to `events`, if at all.
pub open spec fn snapshot_error(events: Seq<ActivityLog>, s: FileSnapshot) -> Option<StoreError> {
    if !is_connect_id(events, s.activity_log_id as int) {
        Some(StoreError::UnknownActivity)
    } else if s.file_size < 0 || (s.is_folder && s.file_size != 0) {
        Some(StoreError::InvalidSize)
    } else {
        None
    }
}

/// The error of the first of the first `n` snapshots of `b` that cannot be stored.
pub open spec fn batch_error_upto(events: Seq<ActivityLog>, b: Seq<FileSnapshot>, n: int) -> Option<StoreError>
    decreases n,
{
    if n <= 0 {
        None
    } else {
        match batch_error_upto(events, b, n - 1) {
            Some(e) => Some(e),
            None => snapshot_error(events, b[n - 1]),
        }
    }
}

/// The error of the first snapshot of `b` that cannot be stored.
pub open spec fn batch_error(events: Seq<ActivityLog>, b: Seq<FileSnapshot>) -> Option<StoreError> {
    batch_error_upto(events, b, b.len() as int)
}

/// `s` with the id that the store gives it.
pub open spec fn with_id(s: FileSnapshot, id: int) -> FileSnapshot {
    FileSnapshot { id: Some(id as i64), ..s }
}

/// The snapshots of `b` numbered on from `start`.
pub open spec fn numbered(b: Seq<FileSnapshot>, start: int) -> Seq<FileSnapshot> {
    Seq::new(b.len(), |j: int| with_id(b[j], start + j + 1))
}

/// The device records of `s` whose identity is not `id`, in order.
pub open spec fn without_serial(s: Seq<DeviceRecord>, id: Seq<char>) -> Seq<DeviceRecord>
    decreases s.len(),
{
    if s.len() == 0 {
        s
    } else {
        let r = without_serial(s.drop_last(), id);
        if s.last().device.serial_number@ == id {
            r
        } else {
            r.push(s.last())
        }
    }
}

/// When the device `id` was first recorded in `s`, or `dflt` if it is not there.
pub open spec fn created_at_of(s: Seq<DeviceRecord>, id: Seq<char>, dflt: int) -> int
    decreases s.len(),
{
    if s.len() == 0 {
        dflt
    } else if s.last().device.serial_number@ == id {
        s.last().created_at as int
    } else {
        created_at_of(s.drop_last(), id, dflt)
    }
}

/// `e` is the event `id` of kind `kind` for device `dev`, stamped `ts`.
pub open spec fn event_is(e: ActivityLog, id: int, dev: Seq<char>, kind: EventType, ts: int) -> bool {
    &&& e.id == id
    &&& e.device_id@ == dev
    &&& e.event_type == kind
    &&& e.timestamp == ts
}

pub open spec fn max_int(a: int, b: int) -> int {
    if a >= b { a } else { b }
}

pub open spec fn serials_unique(s: Seq<DeviceRecord>) -> bool {
    forall|i: int, j: int|
        0 <= i < j < s.len() ==> s[i].device.serial_number@ != s[j].device.serial_number@
}

proof fn lemma_without_absent(s: Seq<DeviceRecord>, id: Seq<char>, dflt: int)
    requires
        forall|i: int| 0 <= i < s.len() ==> s[i].device.serial_number@ != id,
    ensures
        without_serial(s, id) == s,
        created_at_of(s, id, dflt) == dflt,
    decreases s.len(),
{
    if s.len() > 0 {
        lemma_without_absent(s.drop_last(), id, dflt);
        assert(s.drop_last().push(s.last()) =~= s);
    }
}

proof fn lemma_without_present(s: Seq<DeviceRecord>, id: Seq<char>, k: int, dflt: int)
    requires
        serials_unique(s),
        0 <= k < s.len(),
        s[k].device.serial_number@ == id,
    ensures
        without_serial(s, id) == s.remove(k),
        created_at_of(s, id, dflt) == s[k].created_at,
    decreases s.len(),
{
    if k == s.len() - 1 {
        lemma_without_absent(s.drop_last(), id, dflt);
        assert(s.remove(k) =~= s.drop_last());
    } else {
        lemma_without_present(s.drop_last(), id, k, dflt);
        assert(s.remove(k) =~= s.drop_last().remove(k).push(s.last()));
    }
}

/// What a bulk insert of `b` into a store with `events` and `stored`
/// snapshots answers.
pub open spec fn batch_outcome(events: Seq<ActivityLog>, stored: int, b: Seq<FileSnapshot>) -> Result<(), StoreError> {
    if stored + b.len() > MAX_ROWS {
        Err(StoreError::Full)
    } else {
        match batch_error(events, b) {
            Some(e) => Err(e),
            None => Ok(()),
        }
    }
}

proof fn lemma_batch_error_stays(events: Seq<ActivityLog>, b: Seq<FileSnapshot>, i: int, n: int)
    requires
        0 <= i <= n,
        batch_error_upto(events, b, i).is_some(),
    ensures
        batch_error_upto(events, b, n) == batch_error_upto(events, b, i),
    decreases n - i,
{
    if n > i {
        lemma_batch_error_stays(events, b, i, n - 1);
    }
}

/// Byte-wise lexicographic order: `a` sorts strictly before `b`.
pub open spec fn bytes_lt(a: Seq<u8>, b: Seq<u8>) -> bool
    decreases a.len(),
{
    if a.len() == 0 {
        b.len() > 0
    } else if b.len() == 0 {
        false
    } else if a[0] != b[0] {
        a[0] < b[0]
    } else {
        bytes_lt(a.drop_first(), b.drop_first())
    }
}

/// The UTF-8 bytes of a snapshot's path.
pub open spec fn path_bytes(s: FileSnapshot) -> Seq<u8> {
    encode_utf8(s.file_path@)
}

/// A snapshot's id, with 0 for one not stored yet.
pub open spec fn snapshot_id(s: FileSnapshot) -> int {
    match s.id {
        Some(n) => n as int,
        None => 0,
    }
}

/// Listing order of snapshots: by path bytes, then by id.
pub open spec fn snapshot_before(a: FileSnapshot, b: FileSnapshot) -> bool {
    bytes_lt(path_bytes(a), path_bytes(b)) || (path_bytes(a) == path_bytes(b) && snapshot_id(a)
        < snapshot_id(b))
}

pub open spec fn sorted_by_path(s: Seq<FileSnapshot>) -> bool {
    forall|i: int| 0 <= i < s.len() - 1 ==> snapshot_before(#[trigger] s[i], s[i + 1])
}

/// `v` lists, in listing order, exactly the snapshots of `stored` that
/// belong to the activity `id`.
pub open spec fn is_listing(stored: Seq<FileSnapshot>, id: int, v: Seq<FileSnapshot>) -> bool {
    &&& sorted_by_path(v)
    &&& forall|y: FileSnapshot| v.contains(y) <==> (stored.contains(y) && y.activity_log_id == id)
}

/// The CONNECT events of `dev`, newest first.
pub open spec fn connects_desc(events: Seq<ActivityLog>, dev: Seq<char>) -> Seq<ActivityLog>
    decreases events.len(),
{
    if events.len() == 0 {
        Seq::empty()
    } else if events.last().device_id@ == dev && events.last().event_type == EventType::Connect {
        seq![events.last()] + connects_desc(events.drop_last(), dev)
    } else {
        connects_desc(events.drop_last(), dev)
    }
}

/// Id of the newest CONNECT event of `dev`, or 0 when it has none.
pub open spec fn latest_connect(events: Seq<ActivityLog>, dev: Seq<char>) -> int {
    let c = connects_desc(events, dev);
    if c.len() > 0 {
        c[0].id as int
    } else {
        0
    }
}

/// How many snapshots of `s` belong to activity `id` and are folders
/// (`folder`) or files (`!folder`).
pub open spec fn count_kind(s: Seq<FileSnapshot>, id: int, folder: bool) -> nat
    decreases s.len(),
{
    if s.len() == 0 {
        0
    } else {
        count_kind(s.drop_last(), id, folder) + if s.last().activity_log_id == id
            && s.last().is_folder == folder {
            1nat
        } else {
            0nat
        }
    }
}

/// The newest `limit` events, newest first; all of them when `limit` is
/// negative.
pub open spec fn recent_events(events: Seq<ActivityLog>, limit: int) -> Seq<ActivityLog> {
    let n = if limit < 0 || limit > events.len() {
        events.len() as int
    } else {
        limit
    };
    Seq::new(n as nat, |i: int| events[events.len() - 1 - i])
}

proof fn lemma_bytes_total(a: Seq<u8>, b: Seq<u8>)
    requires
        a != b,
    ensures
        bytes_lt(a, b) != bytes_lt(b, a),
    decreases a.len(),
{
    if a.len() > 0 && b.len() > 0 && a[0] == b[0] {
        if a.drop_first() == b.drop_first() {
            assert(a =~= seq![a[0]] + a.drop_first());
            assert(b =~= seq![b[0]] + b.drop_first());
        }
        lemma_bytes_total(a.drop_first(), b.drop_first());
    } else if a.len() == 0 && b.len() == 0 {
        assert(a =~= b);
    }
}

proof fn lemma_bytes_irreflexive(a: Seq<u8>)
    ensures
        !bytes_lt(a, a),
    decreases a.len(),
{
    if a.len() > 0 {
        lemma_bytes_irreflexive(a.drop_first());
    }
}

proof fn lemma_before_total(a: FileSnapshot, b: FileSnapshot)
    requires
        snapshot_id(a) != snapshot_id(b),
    ensures
        snapshot_before(a, b) != snapshot_before(b, a),
{
    if path_bytes(a) != path_bytes(b) {
        lemma_bytes_total(path_bytes(a), path_bytes(b));
    } else {
        lemma_bytes_irreflexive(path_bytes(a));
    }
}

fn bytes_less(a: &[u8], b: &[u8]) -> (r: bool)
    ensures
        r == bytes_lt(a@, b@),
{
    let mut i: usize = 0;
    assert(a@.subrange(0, a@.len() as int) =~= a@);
    assert(b@.subrange(0, b@.len() as int) =~= b@);
    while i < a.len() && i < b.len() && a[i] == b[i]
        invariant
            i <= a@.len(),
            i <= b@.len(),
            bytes_lt(a@, b@) == bytes_lt(a@.subrange(i as int, a@.len() as int), b@.subrange(i as int, b@.len() as int)),
        decreases a@.len() - i,
    {
        let ghost sa = a@.subrange(i as int, a@.len() as int);
        let ghost sb = b@.subrange(i as int, b@.len() as int);
        assert(sa.drop_first() =~= a@.subrange(i + 1, a@.len() as int));
        assert(sb.drop_first() =~= b@.subrange(i + 1, b@.len() as int));
        i += 1;
    }
    if i == a.len() {
        i < b.len()
    } else if i == b.len() {
        false
    } else {
        a[i] < b[i]
    }
}

fn snapshot_less(x: &FileSnapshot, y: &FileSnapshot) -> (r: bool)
    ensures
        r == snapshot_before(*x, *y),
{
    let a = x.file_path.as_str().as_bytes();
    let b = y.file_path.as_str().as_bytes();
    if bytes_less(a, b) {
        true
    } else if bytes_less(b, a) {
        false
    } else {
        proof {
            if a@ != b@ {
                lemma_bytes_total(a@, b@);
            }
        }
        let ix: i64 = match x.id {
            Some(n) => n,
            None => 0,
        };
        let iy: i64 = match y.id {
            Some(n) => n,
            None => 0,
        };
        ix < iy
    }
}

/// Puts `x` into the sorted `v` at its place in listing order.
fn insert_sorted(v: &mut Vec<FileSnapshot>, x: FileSnapshot)
    requires
        sorted_by_path(old(v)@),
        forall|i: int| 0 <= i < old(v)@.len() ==> snapshot_id(#[trigger] old(v)@[i]) != snapshot_id(x),
    ensures
        sorted_by_path(final(v)@),
        forall|y: FileSnapshot| final(v)@.contains(y) <==> (old(v)@.contains(y) || y == x),
{
    let ghost s = v@;
    let mut j: usize = 0;
    while j < v.len() && snapshot_less(&v[j], &x)
        invariant
            v@ == s,
            j <= s.len(),
            j > 0 ==> snapshot_before(s[j - 1], x),
        decreases s.len() - j,
    {
        j += 1;
    }
    if j < v.len() {
        proof {
            lemma_before_total(s[j as int], x);
        }
    }
    v.insert(j, x);
    proof {
        let t = v@;
        assert(t =~= s.insert(j as int, x));
        s.insert_ensures(j as int, x);
        assert forall|i: int| 0 <= i < t.len() - 1 implies snapshot_before(#[trigger] t[i], t[i + 1]) by {
            if i + 1 < j {
                assert(t[i] == s[i] && t[i + 1] == s[i + 1]);
            } else if i + 1 == j {
            } else if i == j {
            } else {
                assert(t[i] == s[i - 1] && t[i + 1] == s[i]);
            }
        }
        assert forall|y: FileSnapshot| t.contains(y) <==> (s.contains(y) || y == x) by {
            if t.contains(y) {
                let k = choose|k: int| 0 <= k < t.len() && t[k] == y;
                if k < j {
                    assert(s[k] == y);
                } else if k > j {
                    assert(s[k - 1] == y);
                }
            }
            if s.contains(y) {
                let k = choose|k: int| 0 <= k < s.len() && s[k] == y;
                if k < j {
                    assert(t[k] == y);
                } else {
                    assert(t[k + 1] == y);
                }
            }
            if y == x {
                assert(t[j as int] == y);
            }
        }
    }
}

impl Database {
    pub closed spec fn devices(self) -> Seq<DeviceRecord> {
        self.devices@
    }

    pub closed spec fn events(self) -> Seq<ActivityLog> {
        self.events@
    }

    pub closed spec fn snapshots(self) -> Seq<FileSnapshot> {
        self.snapshots@
    }

    /// The store's clock: the latest time stamped on any row.
    pub closed spec fn clock(self) -> int {
        self.clock as int
    }

    pub closed spec fn wf(self) -> bool {
        &&& self.events@.len() <= MAX_ROWS
        &&& self.snapshots@.len() <= MAX_ROWS
        &&& forall|i: int| 0 <= i < self.events@.len() ==> #[trigger] self.events@[i].id == i + 1
        &&& forall|i: int| 0 <= i < self.events@.len() ==> #[trigger] self.events@[i].timestamp <= self.clock
        &&& forall|i: int, j: int| 0 <= i < j < self.events@.len()
            ==> self.events@[i].timestamp <= self.events@[j].timestamp
        &&& forall|k: int| 0 <= k < self.snapshots@.len() ==> #[trigger] self.snapshots@[k].id == Some((k + 1) as i64)
        &&& forall|k: int| 0 <= k < self.snapshots@.len()
            ==> snapshot_error(self.events@, #[trigger] self.snapshots@[k]).is_none()
        &&& serials_unique(self.devices@)
        &&& forall|i: int| 0 <= i < self.devices@.len() ==> #[trigger] self.devices@[i].updated_at <= self.clock
        &&& forall|i: int, j: int| 0 <= i < j < self.devices@.len()
            ==> self.devices@[i].updated_at <= self.devices@[j].updated_at
    }

    /// An empty store whose clock starts at `start`.
    pub fn new(start: i64) -> (r: Database)
        ensures
            r.wf(),
            r.devices().len() == 0,
            r.events().len() == 0,
            r.snapshots().len() == 0,
            r.clock() == start,
    {
        Database { devices: Vec::new(), events: Vec::new(), snapshots: Vec::new(), clock: start }
    }

    /// Moves the clock to `now` unless it is already later; returns the stamp.
    fn tick(&mut self, now: i64) -> (t: i64)
        ensures
            t == max_int(old(self).clock as int, now as int),
            final(self).clock == t,
            final(self).devices == old(self).devices,
            final(self).events == old(self).events,
            final(self).snapshots == old(self).snapshots,
    {
        if now > self.clock {
            self.clock = now;
        }
        self.clock
    }

    /// Inserts the device, or replaces the record with the same identity.
    /// The record keeps its creation time and is stamped as updated now; it
    /// moves to the end, so records stay in order of their update time.
    pub fn upsert_device(&mut self, device: &Device, now: i64)
        requires
            old(self).wf(),
        ensures
            final(self).wf(),
            final(self).clock() == max_int(old(self).clock(), now as int),
            final(self).devices() == without_serial(old(self).devices(), device.serial_number@).push(
                DeviceRecord {
                    device: *device,
                    created_at: created_at_of(
                        old(self).devices(),
                        device.serial_number@,
                        final(self).clock(),
                    ) as i64,
                    updated_at: final(self).clock() as i64,
                },
            ),
            final(self).events() == old(self).events(),
            final(self).snapshots() == old(self).snapshots(),
    {
        let ghost old_devices = self.devices@;
        let stamp = self.tick(now);
        let mut created = stamp;
        let mut i: usize = 0;
        let mut found = false;
        while i < self.devices.len() && !found
            invariant
                i <= self.devices@.len(),
                self.devices@ == old_devices,
                serials_unique(old_devices),
                found ==> i < old_devices.len() && old_devices[i as int].device.serial_number@
                    == device.serial_number@,
                !found ==> forall|j: int|
                    0 <= j < i ==> old_devices[j].device.serial_number@ != device.serial_number@,
            decreases self.devices@.len() - i + (if found { 0int } else { 1int }),
        {
            if self.devices[i].device.serial_number == device.serial_number {
                found = true;
            } else {
                i += 1;
            }
        }
        if found {
            proof {
                lemma_without_present(old_devices, device.serial_number@, i as int, stamp as int);
            }
            let rec = self.devices.remove(i);
            created = rec.created_at;
        } else {
            proof {
                lemma_without_absent(old_devices, device.serial_number@, stamp as int);
            }
        }
        self.devices.push(DeviceRecord { device: device.clone(), created_at: created, updated_at: stamp });
        assert forall|a: int, b: int| 0 <= a < b < self.devices@.len() implies
            self.devices@[a].device.serial_number@ != self.devices@[b].device.serial_number@ by {
            if b == self.devices@.len() - 1 {
                if found {
                    assert(self.devices@[a] == old_devices.remove(i as int)[a]);
                } else {
                    assert(self.devices@[a] == old_devices[a]);
                }
            } else if found {
                assert(self.devices@[a] == old_devices.remove(i as int)[a]);
            }
        }
    }

    /// Why `s` could not be stored now, if at all.
    fn check_snapshot(&self, s: &FileSnapshot) -> (r: Option<StoreError>)
        requires
            self.wf(),
        ensures
            r == snapshot_error(self.events@, *s),
    {
        let id = s.activity_log_id;
        if id < 1 || id as u64 > self.events.len() as u64 {
            return Some(StoreError::UnknownActivity);
        }
        if self.events[(id - 1) as usize].event_type != EventType::Connect {
            return Some(StoreError::UnknownActivity);
        }
        if s.file_size < 0 || (s.is_folder && s.file_size != 0) {
            return Some(StoreError::InvalidSize);
        }
        None
    }

    /// Stores all of `snapshots` or, on an error, none of them. Each one gets
    /// the next snapshot id.
    pub fn insert_file_snapshots_batch(&mut self, snapshots: &[FileSnapshot]) -> (r: Result<(), StoreError>)
        requires
            old(self).wf(),
        ensures
            final(self).wf(),
            r == batch_outcome(old(self).events(), old(self).snapshots().len() as int, snapshots@),
            r.is_err() ==> *final(self) == *old(self),
            r.is_ok() ==> {
                &&& final(self).snapshots() == old(self).snapshots() + numbered(
                    snapshots@,
                    old(self).snapshots().len() as int,
                )
                &&& final(self).events() == old(self).events()
                &&& final(self).devices() == old(self).devices()
                &&& final(self).clock() == old(self).clock()
            },
    {
        let n = snapshots.len();
        if n as u64 > MAX_ROWS - self.snapshots.len() as u64 {
            return Err(StoreError::Full);
        }
        let mut i: usize = 0;
        while i < n
            invariant
                self.wf(),
                *self == *old(self),
                n == snapshots@.len(),
                self.snapshots@.len() + n <= MAX_ROWS,
                i <= n,
                batch_error_upto(self.events@, snapshots@, i as int).is_none(),
                forall|j: int| 0 <= j < i ==> snapshot_error(self.events@, #[trigger] snapshots@[j]).is_none(),
            decreases n - i,
        {
            let e = self.check_snapshot(&snapshots[i]);
            if let Some(err) = e {
                assert(batch_error_upto(self.events@, snapshots@, i + 1) == Some(err));
                proof {
                    lemma_batch_error_stays(self.events@, snapshots@, i + 1, n as int);
                }
                return Err(err);
            }
            i += 1;
        }
        let ghost old_snaps = self.snapshots@;
        let ghost old_db = *self;
        let ghost added = numbered(snapshots@, old_snaps.len() as int);
        let mut k: usize = 0;
        while k < n
            invariant
                n == snapshots@.len(),
                k <= n,
                old_snaps.len() + n <= MAX_ROWS,
                added == numbered(snapshots@, old_snaps.len() as int),
                self.snapshots@ == old_snaps + added.subrange(0, k as int),
                self.events == old_db.events,
                self.devices == old_db.devices,
                self.clock == old_db.clock,
                old_db.wf(),
                old_snaps == old_db.snapshots@,
                forall|j: int| 0 <= j < n ==> snapshot_error(self.events@, #[trigger] snapshots@[j]).is_none(),
            decreases n - k,
        {
            let mut c = snapshots[k].clone();
            c.id = Some((self.snapshots.len() as u64 + 1) as i64);
            self.snapshots.push(c);
            k += 1;
            assert(self.snapshots@ =~= old_snaps + added.subrange(0, k as int));
        }
        assert(added.subrange(0, n as int) =~= added);
        assert forall|k2: int| 0 <= k2 < self.snapshots@.len() implies
            snapshot_error(self.events@, #[trigger] self.snapshots@[k2]).is_none()
            && self.snapshots@[k2].id == Some((k2 + 1) as i64) by {
            if k2 >= old_snaps.len() {
                assert(self.snapshots@[k2] == with_id(snapshots@[k2 - old_snaps.len()], k2 + 1));
            }
        }
        Ok(())
    }

    /// Stores one snapshot, which gets the next snapshot id.
    pub fn insert_file_snapshot(&mut self, snapshot: &FileSnapshot) -> (r: Result<(), StoreError>)
        requires
            old(self).wf(),
        ensures
            final(self).wf(),
            r == batch_outcome(old(self).events(), old(self).snapshots().len() as int, seq![*snapshot]),
            r.is_err() ==> *final(self) == *old(self),
            r.is_ok() ==> {
                &&& final(self).snapshots() == old(self).snapshots().push(
                    with_id(*snapshot, old(self).snapshots().len() + 1 as int),
                )
                &&& final(self).events() == old(self).events()
                &&& final(self).devices() == old(self).devices()
                &&& final(self).clock() == old(self).clock()
            },
    {
        if self.snapshots.len() as u64 >= MAX_ROWS {
            return Err(StoreError::Full);
        }
        let e = self.check_snapshot(snapshot);
        proof {
            reveal_with_fuel(batch_error_upto, 2);
        }
        if let Some(err) = e {
            return Err(err);
        }
        let mut c = snapshot.clone();
        c.id = Some((self.snapshots.len() as u64 + 1) as i64);
        self.snapshots.push(c);
        Ok(())
    }

    /// The newest `limit` events, newest first; every event when `limit` is
    /// negative.
    pub fn get_activity_history(&self, limit: i64) -> (r: Vec<ActivityLog>)
        requires
            self.wf(),
        ensures
            r@ == recent_events(self.events(), limit as int),
    {
        let len = self.events.len();
        let n: usize = if limit < 0 || limit as u64 > len as u64 {
            len
        } else {
            limit as usize
        };
        let mut r: Vec<ActivityLog> = Vec::new();
        let mut i: usize = 0;
        while i < n
            invariant
                n <= len,
                len == self.events@.len(),
                n == recent_events(self.events@, limit as int).len(),
                i <= n,
                r@ == recent_events(self.events@, limit as int).subrange(0, i as int),
            decreases n - i,
        {
            r.push(self.events[len - 1 - i].clone());
            i += 1;
            assert(r@ =~= recent_events(self.events@, limit as int).subrange(0, i as int));
        }
        assert(r@ =~= recent_events(self.events@, limit as int));
        r
    }

    /// The snapshots recorded against the activity `activity_log_id`, ordered
    /// by path.
    pub fn get_file_snapshots(&self, activity_log_id: i64) -> (r: Vec<FileSnapshot>)
        requires
            self.wf(),
        ensures
            is_listing(self.snapshots(), activity_log_id as int, r@),
    {
        let mut r: Vec<FileSnapshot> = Vec::new();
        let mut k: usize = 0;
        while k < self.snapshots.len()
            invariant
                self.wf(),
                k <= self.snapshots@.len(),
                sorted_by_path(r@),
                forall|y: FileSnapshot| r@.contains(y) <==> (self.snapshots@.subrange(0, k as int).contains(y)
                    && y.activity_log_id == activity_log_id),
                forall|i: int| 0 <= i < r@.len() ==> snapshot_id(#[trigger] r@[i]) <= k,
            decreases self.snapshots@.len() - k,
        {
            let ghost prev = r@;
            let ghost pre = self.snapshots@.subrange(0, k as int);
            let ghost x = self.snapshots@[k as int];
            if self.snapshots[k].activity_log_id == activity_log_id {
                proof {
                    assert forall|i: int| 0 <= i < r@.len() implies snapshot_id(#[trigger] r@[i]) != snapshot_id(x) by {
                        assert(snapshot_id(x) == k + 1);
                    }
                }
                insert_sorted(&mut r, self.snapshots[k].clone());
                proof {
                    assert forall|i: int| 0 <= i < r@.len() implies snapshot_id(#[trigger] r@[i]) <= k + 1 by {
                        assert(r@.contains(r@[i]));
                        if r@[i] != x {
                            assert(prev.contains(r@[i]));
                            let m = choose|m: int| 0 <= m < prev.len() && prev[m] == r@[i];
                            assert(snapshot_id(prev[m]) <= k);
                        }
                    }
                }
            }
            k += 1;
            proof {
                let post = self.snapshots@.subrange(0, k as int);
                assert(post =~= pre.push(x));
                assert forall|y: FileSnapshot| post.contains(y) <==> (pre.contains(y) || y == x) by {
                    if post.contains(y) {
                        let m = choose|m: int| 0 <= m < post.len() && post[m] == y;
                        if m < pre.len() {
                            assert(pre[m] == y);
                        }
                    }
                    if pre.contains(y) {
                        let m = choose|m: int| 0 <= m < pre.len() && pre[m] == y;
                        assert(post[m] == y);
                    }
                    if y == x {
                        assert(post[k - 1] == y);
                    }
                }
            }
        }
        assert(self.snapshots@.subrange(0, self.snapshots@.len() as int) =~= self.snapshots@);
        r
    }

    /// Every registered device, most recently updated first.
    pub fn get_devices(&self) -> (r: Vec<Device>)
        requires
            self.wf(),
        ensures
            r@.len() == self.devices().len(),
            forall|i: int| 0 <= i < r@.len() ==> #[trigger] r@[i] == self.devices()[self.devices().len() - 1 - i].device,
    {
        let len = self.devices.len();
        let mut r: Vec<Device> = Vec::new();
        let mut i: usize = 0;
        while i < len
            invariant
                len == self.devices@.len(),
                i <= len,
                r@.len() == i,
                forall|j: int| 0 <= j < i ==> #[trigger] r@[j] == self.devices@[len - 1 - j].device,
            decreases len - i,
        {
            r.push(self.devices[len - 1 - i].device.clone());
            i += 1;
        }
        r
    }

    /// How many files and how many folders were recorded against the
    /// activity `activity_log_id`.
    pub fn get_scan_stats(&self, activity_log_id: i64) -> (r: (i64, i64))
        requires
            self.wf(),
        ensures
            r.0 == count_kind(self.snapshots(), activity_log_id as int, false),
            r.1 == count_kind(self.snapshots(), activity_log_id as int, true),
    {
        let mut files: i64 = 0;
        let mut folders: i64 = 0;
        let mut k: usize = 0;
        while k < self.snapshots.len()
            invariant
                self.wf(),
                k <= self.snapshots@.len(),
                files == count_kind(self.snapshots@.subrange(0, k as int), activity_log_id as int, false),
                folders == count_kind(self.snapshots@.subrange(0, k as int), activity_log_id as int, true),
                files + folders <= k,
            decreases self.snapshots@.len() - k,
        {
            let ghost pre = self.snapshots@.subrange(0, k as int);
            if self.snapshots[k].activity_log_id == activity_log_id {
                if self.snapshots[k].is_folder {
                    folders += 1;
                } else {
                    files += 1;
                }
            }
            k += 1;
            assert(self.snapshots@.subrange(0, k as int).drop_last() =~= pre);
        }
        assert(self.snapshots@.subrange(0, self.snapshots@.len() as int) =~= self.snapshots@);
        (files, folders)
    }

    /// The CONNECT events of `device_id`, newest first, each with its
    /// timestamp and its snapshots ordered by path.
    pub fn get_all_device_snapshots(&self, device_id: &str) -> (r: Vec<(i64, i64, Vec<FileSnapshot>)>)
        requires
            self.wf(),
        ensures
            r@.len() == connects_desc(self.events(), device_id@).len(),
            forall|j: int| 0 <= j < r@.len() ==> {
                let e = #[trigger] connects_desc(self.events(), device_id@)[j];
                &&& r@[j].0 == e.id
                &&& r@[j].1 == e.timestamp
                &&& is_listing(self.snapshots(), e.id as int, r@[j].2@)
            },
    {
        let dev = String::from_str(device_id);
        let mut r: Vec<(i64, i64, Vec<FileSnapshot>)> = Vec::new();
        let ghost mut found: Seq<ActivityLog> = Seq::empty();
        let mut i: usize = self.events.len();
        assert(self.events@.subrange(0, i as int) =~= self.events@);
        while i > 0
            invariant
                self.wf(),
                dev@ == device_id@,
                i <= self.events@.len(),
                connects_desc(self.events@, dev@) == found + connects_desc(self.events@.subrange(0, i as int), dev@),
                r@.len() == found.len(),
                forall|j: int| 0 <= j < r@.len() ==> {
                    let e = #[trigger] found[j];
                    &&& r@[j].0 == e.id
                    &&& r@[j].1 == e.timestamp
                    &&& is_listing(self.snapshots@, e.id as int, r@[j].2@)
                },
            decreases i,
        {
            let ghost pre = self.events@.subrange(0, i as int);
            assert(pre.drop_last() =~= self.events@.subrange(0, i - 1));
            let e = &self.events[i - 1];
            if e.device_id == dev && e.event_type == EventType::Connect {
                let snaps = self.get_file_snapshots(e.id);
                r.push((e.id, e.timestamp, snaps));
                proof {
                    assert(found + (seq![pre.last()] + connects_desc(pre.drop_last(), dev@)) =~=
                        found.push(pre.last()) + connects_desc(pre.drop_last(), dev@));
                    found = found.push(pre.last());
                }
            }
            i -= 1;
        }
        assert(found =~= connects_desc(self.events@, dev@));
        r
    }

    /// The newest CONNECT event of `device_id` and its snapshots ordered by
    /// path; `(0, [])` when the device never connected.
    pub fn get_latest_device_snapshots(&self, device_id: &str) -> (r: (i64, Vec<FileSnapshot>))
        requires
            self.wf(),
        ensures
            r.0 == latest_connect(self.events(), device_id@),
            r.0 == 0 ==> r.1@.len() == 0,
            r.0 != 0 ==> is_listing(self.snapshots(), r.0 as int, r.1@),
    {
        let dev = String::from_str(device_id);
        let mut i: usize = self.events.len();
        assert(self.events@.subrange(0, i as int) =~= self.events@);
        while i > 0
            invariant
                self.wf(),
                dev@ == device_id@,
                i <= self.events@.len(),
                connects_desc(self.events@, dev@) == connects_desc(self.events@.subrange(0, i as int), dev@),
            decreases i,
        {
            let ghost pre = self.events@.subrange(0, i as int);
            assert(pre.drop_last() =~= self.events@.subrange(0, i - 1));
            let e = &self.events[i - 1];
            if e.device_id == dev && e.event_type == EventType::Connect {
                let snaps = self.get_file_snapshots(e.id);
                assert(e.id != 0);
                return (e.id, snaps);
            }
            i -= 1;
        }
        assert(connects_desc(self.events@.subrange(0, 0), dev@).len() == 0);
        (0, Vec::new())
    }

    /// How many events the store holds.
    pub fn event_count(&self) -> (r: usize)
        ensures
            r == self.events().len(),
            self.wf() ==> r <= MAX_ROWS,
    {
        self.events.len()
    }

    /// How many snapshots the store holds.
    pub fn snapshot_count(&self) -> (r: usize)
        ensures
            r == self.snapshots().len(),
            self.wf() ==> r <= MAX_ROWS,
    {
        self.snapshots.len()
    }

    /// The event at position `i`, oldest first.
    pub fn get_event(&self, i: usize) -> (r: &ActivityLog)
        requires
            i < self.events().len(),
        ensures
            *r == self.events()[i as int],
    {
        &self.events[i]
    }

    /// The snapshot at position `i`, oldest first.
    pub fn get_snapshot(&self, i: usize) -> (r: &FileSnapshot)
        requires
            i < self.snapshots().len(),
        ensures
            *r == self.snapshots()[i as int],
    {
        &self.snapshots[i]
    }

    /// The timestamp of the newest event, or the clock when there is none.
    pub fn last_event_timestamp(&self) -> (r: i64)
        requires
            self.wf(),
        ensures
            self.events().len() > 0 ==> r == self.events().last().timestamp,
            self.events().len() == 0 ==> r == self.clock(),
    {
        if self.events.len() == 0 {
            self.clock
        } else {
            self.events[self.events.len() - 1].timestamp
        }
    }

    /// Appends one event for `device_id`, stamped with the store's clock, and
    /// returns its id.
    pub fn create_activity_log(&mut self, device_id: &str, event_type: EventType, now: i64) -> (r: Result<i64, StoreError>)
        requires
            old(self).wf(),
        ensures
            final(self).wf(),
            old(self).events().len() >= MAX_ROWS ==> r == Err::<i64, StoreError>(StoreError::Full) && *final(self) == *old(self),
            old(self).events().len() < MAX_ROWS ==> {
                &&& r == Ok::<i64, StoreError>((old(self).events().len() + 1) as i64)
                &&& final(self).clock() == max_int(old(self).clock(), now as int)
                &&& final(self).events().len() == old(self).events().len() + 1
                &&& final(self).events().drop_last() == old(self).events()
                &&& event_is(
                    final(self).events().last(),
                    old(self).events().len() + 1 as int,
                    device_id@,
                    event_type,
                    final(self).clock(),
                )
                &&& final(self).devices() == old(self).devices()
                &&& final(self).snapshots() == old(self).snapshots()
            },
    {
        if self.events.len() as u64 >= MAX_ROWS {
            return Err(StoreError::Full);
        }
        let stamp = self.tick(now);
        let id = self.events.len() as i64 + 1;
        let ghost old_events = self.events@;
        self.events.push(ActivityLog {
            id,
            device_id: String::from_str(device_id),
            event_type,
            timestamp: stamp,
        });
        assert forall|k: int| 0 <= k < self.snapshots@.len() implies
            snapshot_error(self.events@, #[trigger] self.snapshots@[k]).is_none() by {
            assert(snapshot_error(old_events, self.snapshots@[k]).is_none());
            assert(self.events@[self.snapshots@[k].activity_log_id - 1] == old_events[self.snapshots@[k].activity_log_id - 1]);
        }
        assert(self.events@.drop_last() =~= old_events);
        Ok(id)
    }
}

/// Every stored snapshot belongs to exactly one activity event of the store,
/// and that event is a CONNECT.
pub proof fn lemma_snapshot_has_one_event(db: Database, k: int)
    requires
        db.wf(),
        0 <= k < db.snapshots().len(),
    ensures
        exists|i: int|
            0 <= i < db.events().len() && #[trigger] db.events()[i].id == db.snapshots()[k].activity_log_id
                && db.events()[i].event_type == EventType::Connect,
        forall|i: int, j: int|
            0 <= i < db.events().len() && 0 <= j < db.events().len() && #[trigger] db.events()[i].id
                == db.snapshots()[k].activity_log_id && #[trigger] db.events()[j].id
                == db.snapshots()[k].activity_log_id ==> i == j,
{
    let s = db.snapshots()[k];
    assert(snapshot_error(db.events(), s).is_none());
    let i = s.activity_log_id - 1;
    assert(db.events()[i].id == s.activity_log_id);
}

} // verus!
