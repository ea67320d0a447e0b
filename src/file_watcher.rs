use vstd::prelude::*;
use crate::db::{batch_outcome, with_id, Database, FileSnapshot, StoreError};
use crate::file_scanner::{lowered_extension, name_of, snapshot_of, FileScanner, ScanEntry};

verus! {

/// Events for one path closer together than this, in milliseconds, are
/// recorded once.
pub const DEBOUNCE_MILLIS: u64 = 3000;

/// Milliseconds from `t` to `now`, or 0 when `now` is earlier.
pub open spec fn elapsed(t: u64, now: u64) -> int {
    if now >= t {
        now - t
    } else {
        0
    }
}

/// When the path `p` was last recorded, according to `recent`.
pub open spec fn last_seen(recent: Seq<(String, u64)>, p: Seq<char>) -> Option<u64>
    decreases recent.len(),
{
    if recent.len() == 0 {
        None
    } else if recent.last().0@ == p {
        Some(recent.last().1)
    } else {
        last_seen(recent.drop_last(), p)
    }
}

/// An event on `p` at `now` is outside the debounce window of the last
/// recording of `p`.
pub open spec fn outside_window(recent: Seq<(String, u64)>, p: Seq<char>, now: u64) -> bool {
    match last_seen(recent, p) {
        Some(t) => elapsed(t, now) >= DEBOUNCE_MILLIS,
        None => true,
    }
}

/// A base name of temporary or hidden files, which are never recorded.
pub open spec fn is_noise_name(name: Seq<char>) -> bool {
    name.len() > 0 && (name[0] == '~' || name[0] == '.')
}

/// The change event on `entry` at `now` is to be recorded.
pub open spec fn accepted(recent: Seq<(String, u64)>, entry: ScanEntry, now: u64) -> bool {
    entry.is_file && !is_noise_name(name_of(entry)) && outside_window(recent, entry.path@, now)
}

pub open spec fn keys_unique(recent: Seq<(String, u64)>) -> bool {
    forall|i: int, j: int| 0 <= i < j < recent.len() ==> recent[i].0@ != recent[j].0@
}

proof fn lemma_last_seen_at(s: Seq<(String, u64)>, i: int)
    requires
        keys_unique(s),
        0 <= i < s.len(),
    ensures
        last_seen(s, s[i].0@) == Some(s[i].1),
    decreases s.len(),
{
    if i < s.len() - 1 {
        lemma_last_seen_at(s.drop_last(), i);
    }
}

proof fn lemma_last_seen_absent(s: Seq<(String, u64)>, p: Seq<char>)
    requires
        forall|j: int| 0 <= j < s.len() ==> s[j].0@ != p,
    ensures
        last_seen(s, p).is_none(),
    decreases s.len(),
{
    if s.len() > 0 {
        lemma_last_seen_absent(s.drop_last(), p);
    }
}

proof fn lemma_last_seen_remove(s: Seq<(String, u64)>, i: int, p: Seq<char>)
    requires
        0 <= i < s.len(),
        s[i].0@ != p,
    ensures
        last_seen(s.remove(i), p) == last_seen(s, p),
    decreases s.len(),
{
    if i == s.len() - 1 {
        assert(s.remove(i) =~= s.drop_last());
    } else {
        lemma_last_seen_remove(s.drop_last(), i, p);
        assert(s.remove(i) =~= s.drop_last().remove(i).push(s.last()));
        assert(s.remove(i).drop_last() =~= s.drop_last().remove(i));
    }
}

/// The live-change handler of one mounted device: it records created or
/// modified regular files against the device's CONNECT event, at most once
/// per path in any debounce window.
pub struct FileWatcher {
    activity_id: i64,
    recent: Vec<(String, u64)>,
}

impl FileWatcher {
    pub closed spec fn activity(self) -> i64 {
        self.activity_id
    }

    /// When each path was last recorded.
    pub closed spec fn recent(self) -> Seq<(String, u64)> {
        self.recent@
    }

    pub closed spec fn wf(self) -> bool {
        keys_unique(self.recent@)
    }

    /// A handler that records against the CONNECT event `activity_id` and
    /// has recorded nothing yet.
    pub fn new(activity_id: i64) -> (r: FileWatcher)
        ensures
            r.wf(),
            r.activity() == activity_id,
            r.recent().len() == 0,
    {
        FileWatcher { activity_id, recent: Vec::new() }
    }

    fn lookup(&self, path: &String) -> (r: Option<usize>)
        requires
            self.wf(),
        ensures
            r.is_none() ==> last_seen(self.recent@, path@).is_none(),
            r.is_some() ==> r.unwrap() < self.recent@.len() && self.recent@[r.unwrap() as int].0@ == path@
                && last_seen(self.recent@, path@) == Some(self.recent@[r.unwrap() as int].1),
    {
        let mut i: usize = 0;
        while i < self.recent.len()
            invariant
                keys_unique(self.recent@),
                i <= self.recent@.len(),
                forall|j: int| 0 <= j < i ==> self.recent@[j].0@ != path@,
            decreases self.recent@.len() - i,
        {
            if self.recent[i].0 == *path {
                proof {
                    lemma_last_seen_at(self.recent@, i as int);
                }
                return Some(i);
            }
            i += 1;
        }
        proof {
            lemma_last_seen_absent(self.recent@, path@);
        }
        None
    }

    /// Handles a create or modify event on `entry` at `now` (milliseconds).
    /// Folders and other non-regular entries, names starting with `~` or
    /// `.`, and paths recorded less than `DEBOUNCE_MILLIS` ago are dropped.
    /// Otherwise the path's time is set to `now` and the file's snapshot is
    /// stored; the stored snapshot is returned when the store accepted it.
    pub fn handle_copy_event(&mut self, db: &mut Database, entry: &ScanEntry, now: u64) -> (r: Option<FileSnapshot>)
        requires
            old(self).wf(),
            old(db).wf(),
        ensures
            final(self).wf(),
            final(db).wf(),
            final(self).activity() == old(self).activity(),
            !accepted(old(self).recent(), *entry, now) ==> r.is_none() && *final(db) == *old(db)
                && final(self).recent() == old(self).recent(),
            accepted(old(self).recent(), *entry, now) ==> {
                &&& last_seen(final(self).recent(), entry.path@) == Some(now)
                &&& forall|p: Seq<char>| p != entry.path@ ==> #[trigger] last_seen(final(self).recent(), p)
                    == last_seen(old(self).recent(), p)
                &&& final(db).events() == old(db).events()
                &&& final(db).devices() == old(db).devices()
                &&& exists|s: FileSnapshot|
                    #![trigger batch_outcome(old(db).events(), old(db).snapshots().len() as int, seq![s])]
                    {
                    &&& snapshot_of(*entry, old(self).activity(), lowered_extension(*entry), s)
                    &&& match batch_outcome(old(db).events(), old(db).snapshots().len() as int, seq![s]) {
                        Err(_) => r.is_none() && *final(db) == *old(db),
                        Ok(_) => r == Some(with_id(s, old(db).snapshots().len() + 1 as int))
                            && final(db).snapshots() == old(db).snapshots().push(with_id(s, old(db).snapshots().len() + 1 as int)),
                    }
                }
            },
    {
        if !entry.is_file {
            return None;
        }
        let noisy = match &entry.name {
            Some(n) => {
                let ns = n.as_str();
                ns.unicode_len() > 0 && (ns.get_char(0) == '~' || ns.get_char(0) == '.')
            },
            None => {
                proof {
                    reveal_strlit("unknown");
                }
                false
            },
        };
        if noisy {
            return None;
        }
        let found = self.lookup(&entry.path);
        let ghost r0 = self.recent@;
        match found {
            Some(i) => {
                let t = self.recent[i].1;
                let since: u64 = if now >= t { now - t } else { 0 };
                if since < DEBOUNCE_MILLIS {
                    return None;
                }
                let _ = self.recent.remove(i);
                proof {
                    assert forall|p: Seq<char>| p != entry.path@ implies #[trigger] last_seen(r0.remove(i as int), p) == last_seen(r0, p) by {
                        lemma_last_seen_remove(r0, i as int, p);
                    }
                }
            },
            None => {},
        }
        let ghost r1 = self.recent@;
        self.recent.push((entry.path.clone(), now));
        proof {
            assert(self.recent@.drop_last() =~= r1);
            assert forall|a: int, b: int| 0 <= a < b < self.recent@.len() implies self.recent@[a].0@ != self.recent@[b].0@ by {
                if b == self.recent@.len() - 1 {
                    match found {
                        Some(i) => {
                            assert(r1 == r0.remove(i as int));
                            if a < i {
                                assert(r1[a] == r0[a]);
                            } else {
                                assert(r1[a] == r0[a + 1]);
                            }
                        },
                        None => {
                            assert(r1 == r0);
                            if r0[a].0@ == entry.path@ {
                                lemma_last_seen_at(r0, a);
                            }
                        },
                    }
                } else {
                    match found {
                        Some(i) => {
                            assert(r1 == r0.remove(i as int));
                            if a < i { assert(r1[a] == r0[a]); } else { assert(r1[a] == r0[a + 1]); }
                            if b < i { assert(r1[b] == r0[b]); } else { assert(r1[b] == r0[b + 1]); }
                        },
                        None => {},
                    }
                }
            }
        }
        assert(last_seen(self.recent@, entry.path@) == Some(now));
        assert forall|p: Seq<char>| p != entry.path@ implies #[trigger] last_seen(self.recent@, p) == last_seen(r0, p) by {
            assert(last_seen(self.recent@, p) == last_seen(r1, p));
        }
        let snap = FileScanner::snapshot_from_entry(entry, self.activity_id);
        let ghost old_db = *db;
        let count = db.snapshot_count();
        let res = db.insert_file_snapshot(&snap);
        match res {
            Ok(_) => {
                let mut stored = snap;
                stored.id = Some((count as u64 + 1) as i64);
                assert(batch_outcome(old_db.events(), old_db.snapshots().len() as int, seq![snap]).is_ok());
                Some(stored)
            },
            Err(e) => {
                assert(batch_outcome(old_db.events(), old_db.snapshots().len() as int, seq![snap]) == Err::<(), StoreError>(e));
                None
            },
        }
    }
}

/// Once an event on a path has been recorded at `t`, another event on the
/// same path less than `DEBOUNCE_MILLIS` later is dropped, and nothing is
/// stored for it.
pub proof fn lemma_debounce(recent: Seq<(String, u64)>, entry: ScanEntry, t: u64, now: u64)
    requires
        last_seen(recent, entry.path@) == Some(t),
        t <= now,
        now - t < DEBOUNCE_MILLIS,
    ensures
        !accepted(recent, entry, now),
{
}

} // verus!
