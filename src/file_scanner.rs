use vstd::prelude::*;
use crate::db::{batch_outcome, numbered, Database, FileSnapshot, StoreError};
use crate::text::{lower_of, to_lower};

verus! {

/// One entry met by the directory walk, as read from the file system.
/// `name` is the entry's base name, absent when it is not valid text.
#[derive(Debug)]
pub struct ScanEntry {
    pub path: String,
    pub name: Option<String>,
    pub is_dir: bool,
    pub is_file: bool,
    pub len: u64,
}

/// What one scan found: files, folders, and the files' total size.
#[derive(Debug, Clone, Copy, PartialEq, Eq, Structural)]
pub struct ScanResult {
    pub total_files: usize,
    pub total_folders: usize,
    pub total_size_bytes: i64,
}

/// Builds file snapshots from the entries of a directory walk.
pub struct FileScanner;

pub const I64_MAX: u64 = 0x7fff_ffff_ffff_ffff;

/// Position of the last `.` of `s`, or -1.
pub open spec fn last_dot(s: Seq<char>) -> int
    decreases s.len(),
{
    if s.len() == 0 {
        -1
    } else if s.last() == '.' {
        s.len() - 1
    } else {
        last_dot(s.drop_last())
    }
}

/// The extension of a base name: what follows its last `.`, when that dot
/// is not the name's first character.
pub open spec fn extension_of(name: Seq<char>) -> Option<Seq<char>> {
    let k = last_dot(name);
    if k <= 0 {
        None
    } else {
        Some(name.subrange(k + 1, name.len() as int))
    }
}

/// The base name recorded for an entry.
pub open spec fn name_of(e: ScanEntry) -> Seq<char> {
    match e.name {
        Some(n) => n@,
        None => "unknown"@,
    }
}

/// The extension recorded for an entry, before lowering: none for a folder
/// or a name that is not valid text.
pub open spec fn raw_extension(e: ScanEntry) -> Option<Seq<char>> {
    if e.is_dir {
        None
    } else {
        match e.name {
            Some(n) => extension_of(n@),
            None => None,
        }
    }
}

/// The size recorded for an entry: 0 for a folder, its length otherwise,
/// capped at the largest stored integer.
pub open spec fn size_of(e: ScanEntry) -> i64 {
    if e.is_dir {
        0
    } else if e.len > I64_MAX {
        I64_MAX as i64
    } else {
        e.len as i64
    }
}

/// `s` is the snapshot of `e` for activity `id`, with the lowered extension
/// `ext`.
pub open spec fn snapshot_of(e: ScanEntry, id: i64, ext: Option<Seq<char>>, s: FileSnapshot) -> bool {
    &&& s.id.is_none()
    &&& s.activity_log_id == id
    &&& s.file_path == e.path
    &&& s.file_name@ == name_of(e)
    &&& match ext {
        Some(x) => s.file_extension.is_some() && s.file_extension.unwrap()@ == x,
        None => s.file_extension.is_none(),
    }
    &&& s.file_size == size_of(e)
    &&& s.is_folder == e.is_dir
}

/// The lowered extension recorded for an entry.
pub open spec fn lowered_extension(e: ScanEntry) -> Option<Seq<char>> {
    match raw_extension(e) {
        Some(x) => Some(lower_of(x)),
        None => None,
    }
}

/// Files, folders and total size of `s`, the size not capped.
pub open spec fn tally(s: Seq<FileSnapshot>) -> (nat, nat, int)
    decreases s.len(),
{
    if s.len() == 0 {
        (0, 0, 0)
    } else {
        let t = tally(s.drop_last());
        if s.last().is_folder {
            (t.0, t.1 + 1, t.2 + s.last().file_size)
        } else {
            (t.0 + 1, t.1, t.2 + s.last().file_size)
        }
    }
}

/// The result reported for the snapshots `s`; the size saturates at the
/// largest stored integer.
pub open spec fn result_matches(r: ScanResult, s: Seq<FileSnapshot>) -> bool {
    &&& r.total_files == tally(s).0
    &&& r.total_folders == tally(s).1
    &&& r.total_size_bytes == if tally(s).2 > I64_MAX { I64_MAX as int } else { tally(s).2 }
}

/// The sum of the lengths of the regular files of `e`, not capped.
pub open spec fn files_size(e: Seq<ScanEntry>) -> int
    decreases e.len(),
{
    if e.len() == 0 {
        0
    } else {
        files_size(e.drop_last()) + if e.last().is_file {
            e.last().len as int
        } else {
            0
        }
    }
}

fn extension_text(name: &str) -> (r: Option<String>)
    ensures
        match extension_of(name@) {
            Some(x) => r.is_some() && r.unwrap()@ == x,
            None => r.is_none(),
        },
{
    let n = name.unicode_len();
    let mut i: usize = n;
    assert(name@.subrange(0, n as int) =~= name@);
    while i > 0
        invariant
            n == name@.len(),
            i <= n,
            last_dot(name@) == last_dot(name@.subrange(0, i as int)),
        decreases i,
    {
        assert(name@.subrange(0, i as int).drop_last() =~= name@.subrange(0, i - 1));
        if name.get_char(i - 1) == '.' {
            if i - 1 == 0 {
                return None;
            }
            let ext = name.substring_char(i, n);
            return Some(String::from_str(ext));
        }
        i -= 1;
    }
    None
}

fn sum_capped(total: i64, add: i64) -> (r: i64)
    requires
        0 <= total,
        0 <= add,
    ensures
        r == if total + add > I64_MAX { I64_MAX as int } else { total + add },
{
    if total > 0x7fff_ffff_ffff_ffff - add {
        0x7fff_ffff_ffff_ffff
    } else {
        total + add
    }
}

impl FileScanner {
    /// The snapshot of `entry` for activity `activity_log_id`, given the
    /// lowered form `extension` of its extension.
    pub fn build_snapshot(entry: &ScanEntry, activity_log_id: i64, extension: Option<String>) -> (r: FileSnapshot)
        ensures
            snapshot_of(*entry, activity_log_id, match extension {
                Some(x) => Some(x@),
                None => None,
            }, r),
    {
        let file_name = match &entry.name {
            Some(n) => n.clone(),
            None => String::from_str("unknown"),
        };
        let file_size: i64 = if entry.is_dir {
            0
        } else if entry.len > I64_MAX {
            I64_MAX as i64
        } else {
            entry.len as i64
        };
        FileSnapshot {
            id: None,
            activity_log_id,
            file_path: entry.path.clone(),
            file_name,
            file_extension: extension,
            file_size,
            is_folder: entry.is_dir,
        }
    }

    /// The snapshot of one walked entry: base name (`unknown` when it is not
    /// valid text), lowered extension (none for folders and names without
    /// one), size (0 for folders) and folder flag.
    pub fn snapshot_from_entry(entry: &ScanEntry, activity_log_id: i64) -> (r: FileSnapshot)
        ensures
            snapshot_of(*entry, activity_log_id, lowered_extension(*entry), r),
    {
        let ext = if entry.is_dir {
            None
        } else {
            match &entry.name {
                Some(n) => match extension_text(n.as_str()) {
                    Some(x) => Some(to_lower(x.as_str())),
                    None => None,
                },
                None => None,
            }
        };
        Self::build_snapshot(entry, activity_log_id, ext)
    }

    /// The snapshots of all walked entries, in walk order.
    pub fn scan_directory(entries: &Vec<ScanEntry>, activity_log_id: i64) -> (r: Vec<FileSnapshot>)
        ensures
            r@.len() == entries@.len(),
            forall|i: int| 0 <= i < r@.len() ==> snapshot_of(entries@[i], activity_log_id, lowered_extension(entries@[i]), #[trigger] r@[i]),
    {
        let mut r: Vec<FileSnapshot> = Vec::new();
        let mut i: usize = 0;
        while i < entries.len()
            invariant
                i <= entries@.len(),
                r@.len() == i,
                forall|j: int| 0 <= j < i ==> snapshot_of(entries@[j], activity_log_id, lowered_extension(entries@[j]), #[trigger] r@[j]),
            decreases entries@.len() - i,
        {
            r.push(Self::snapshot_from_entry(&entries[i], activity_log_id));
            i += 1;
        }
        r
    }

    /// Counts the files and folders of `snapshots` and adds up their sizes.
    pub fn summarize(snapshots: &Vec<FileSnapshot>) -> (r: ScanResult)
        requires
            forall|i: int| 0 <= i < snapshots@.len() ==> #[trigger] snapshots@[i].file_size >= 0,
        ensures
            result_matches(r, snapshots@),
    {
        let mut files: usize = 0;
        let mut folders: usize = 0;
        let mut size: i64 = 0;
        let mut i: usize = 0;
        while i < snapshots.len()
            invariant
                i <= snapshots@.len(),
                forall|k: int| 0 <= k < snapshots@.len() ==> #[trigger] snapshots@[k].file_size >= 0,
                files == tally(snapshots@.subrange(0, i as int)).0,
                folders == tally(snapshots@.subrange(0, i as int)).1,
                files + folders == i,
                size >= 0,
                size == if tally(snapshots@.subrange(0, i as int)).2 > I64_MAX {
                    I64_MAX as int
                } else {
                    tally(snapshots@.subrange(0, i as int)).2
                },
                tally(snapshots@.subrange(0, i as int)).2 >= 0,
            decreases snapshots@.len() - i,
        {
            assert(snapshots@.subrange(0, i + 1).drop_last() =~= snapshots@.subrange(0, i as int));
            if snapshots[i].is_folder {
                folders += 1;
            } else {
                files += 1;
            }
            size = sum_capped(size, snapshots[i].file_size);
            i += 1;
        }
        assert(snapshots@.subrange(0, snapshots@.len() as int) =~= snapshots@);
        ScanResult { total_files: files, total_folders: folders, total_size_bytes: size }
    }

    /// Snapshots every walked entry against the CONNECT event
    /// `activity_log_id` and stores them in one all-or-nothing write;
    /// returns the counts and total size. An empty walk writes nothing.
    pub fn scan_and_save(entries: &Vec<ScanEntry>, activity_log_id: i64, db: &mut Database) -> (r: Result<ScanResult, StoreError>)
        requires
            old(db).wf(),
        ensures
            final(db).wf(),
            final(db).events() == old(db).events(),
            final(db).devices() == old(db).devices(),
            entries@.len() == 0 ==> r == Ok::<ScanResult, StoreError>(ScanResult { total_files: 0, total_folders: 0, total_size_bytes: 0 })
                && *final(db) == *old(db),
            entries@.len() > 0 ==> exists|s: Seq<FileSnapshot>|
                #![trigger batch_outcome(old(db).events(), old(db).snapshots().len() as int, s)]
            {
                &&& s.len() == entries@.len()
                &&& forall|i: int| 0 <= i < s.len() ==> snapshot_of(entries@[i], activity_log_id, lowered_extension(entries@[i]), #[trigger] s[i])
                &&& match batch_outcome(old(db).events(), old(db).snapshots().len() as int, s) {
                    Err(e) => r == Err::<ScanResult, StoreError>(e) && *final(db) == *old(db),
                    Ok(_) => r.is_ok() && result_matches(r.unwrap(), s)
                        && final(db).snapshots() == old(db).snapshots() + numbered(s, old(db).snapshots().len() as int),
                }
            },
    {
        let snapshots = Self::scan_directory(entries, activity_log_id);
        if snapshots.len() == 0 {
            return Ok(ScanResult { total_files: 0, total_folders: 0, total_size_bytes: 0 });
        }
        let ghost old_db = *db;
        let res = db.insert_file_snapshots_batch(snapshots.as_slice());
        match res {
            Ok(_) => {
                assert forall|i: int| 0 <= i < snapshots@.len() implies #[trigger] snapshots@[i].file_size >= 0 by {
                    assert(snapshot_of(entries@[i], activity_log_id, lowered_extension(entries@[i]), snapshots@[i]));
                }
                let stats = Self::summarize(&snapshots);
                assert(batch_outcome(old_db.events(), old_db.snapshots().len() as int, snapshots@).is_ok());
                Ok(stats)
            },
            Err(e) => {
                assert(batch_outcome(old_db.events(), old_db.snapshots().len() as int, snapshots@) == Err::<(), StoreError>(e));
                Err(e)
            },
        }
    }

    /// The total length of the regular files among the walked entries,
    /// saturating at the largest `u64`.
    pub fn get_directory_size(entries: &Vec<ScanEntry>) -> (r: u64)
        ensures
            r == if files_size(entries@) > u64::MAX { u64::MAX as int } else { files_size(entries@) },
    {
        let mut total: u64 = 0;
        let mut i: usize = 0;
        while i < entries.len()
            invariant
                i <= entries@.len(),
                total == if files_size(entries@.subrange(0, i as int)) > u64::MAX {
                    u64::MAX as int
                } else {
                    files_size(entries@.subrange(0, i as int))
                },
                files_size(entries@.subrange(0, i as int)) >= 0,
            decreases entries@.len() - i,
        {
            assert(entries@.subrange(0, i + 1).drop_last() =~= entries@.subrange(0, i as int));
            if entries[i].is_file {
                let add = entries[i].len;
                if total > u64::MAX - add {
                    total = u64::MAX;
                } else {
                    total = total + add;
                }
            }
            i += 1;
        }
        assert(entries@.subrange(0, entries@.len() as int) =~= entries@);
        total
    }
}

} // verus!
