use vstd::prelude::*;
use crate::identity::{device_identity, identity_of};
use crate::usb_monitor::UsbDevice;

verus! {

/// The identities of the records of `s`.
pub open spec fn ids_of(s: Seq<UsbDevice>) -> Set<Seq<char>> {
    Set::new(|x: Seq<char>| exists|i: int| 0 <= i < s.len() && identity_of(#[trigger] s[i]) == x)
}

/// No two records of `s` share an identity.
pub open spec fn unique_ids(s: Seq<UsbDevice>) -> bool {
    forall|i: int, j: int| 0 <= i < j < s.len() ==> identity_of(#[trigger] s[i]) != identity_of(#[trigger] s[j])
}

/// The records of `s` whose identity is not in `ids`, in order.
pub open spec fn not_in(s: Seq<UsbDevice>, ids: Set<Seq<char>>) -> Seq<UsbDevice>
    decreases s.len(),
{
    if s.len() == 0 {
        s
    } else if ids.contains(identity_of(s.last())) {
        not_in(s.drop_last(), ids)
    } else {
        not_in(s.drop_last(), ids).push(s.last())
    }
}

/// The first record of each identity of `s`, in order.
pub open spec fn dedup(s: Seq<UsbDevice>) -> Seq<UsbDevice>
    decreases s.len(),
{
    if s.len() == 0 {
        s
    } else {
        let r = dedup(s.drop_last());
        if ids_of(r).contains(identity_of(s.last())) {
            r
        } else {
            r.push(s.last())
        }
    }
}

pub(crate) proof fn lemma_ids_push(s: Seq<UsbDevice>, d: UsbDevice)
    ensures
        ids_of(s.push(d)) == ids_of(s).insert(identity_of(d)),
{
    assert forall|x: Seq<char>| ids_of(s.push(d)).contains(x) <==> ids_of(s).insert(identity_of(d)).contains(x) by {
        if ids_of(s.push(d)).contains(x) {
            let i = choose|i: int| 0 <= i < s.push(d).len() && identity_of(#[trigger] s.push(d)[i]) == x;
            if i < s.len() {
                assert(s[i] == s.push(d)[i]);
            }
        }
        if ids_of(s).contains(x) {
            let i = choose|i: int| 0 <= i < s.len() && identity_of(#[trigger] s[i]) == x;
            assert(s.push(d)[i] == s[i]);
        }
        if x == identity_of(d) {
            assert(s.push(d)[s.len() as int] == d);
        }
    }
    assert(ids_of(s.push(d)) =~= ids_of(s).insert(identity_of(d)));
}

pub(crate) proof fn lemma_ids_drop_last(s: Seq<UsbDevice>)
    requires
        s.len() > 0,
    ensures
        ids_of(s) == ids_of(s.drop_last()).insert(identity_of(s.last())),
{
    lemma_ids_push(s.drop_last(), s.last());
    assert(s.drop_last().push(s.last()) =~= s);
}

/// Keeping the first record of each identity keeps every identity, once.
pub(crate) proof fn lemma_dedup(s: Seq<UsbDevice>)
    ensures
        ids_of(dedup(s)) == ids_of(s),
        unique_ids(dedup(s)),
    decreases s.len(),
{
    if s.len() == 0 {
        assert(ids_of(s) =~= Set::empty());
        assert(ids_of(dedup(s)) =~= Set::empty());
    } else {
        lemma_dedup(s.drop_last());
        lemma_ids_drop_last(s);
        let r = dedup(s.drop_last());
        if !ids_of(r).contains(identity_of(s.last())) {
            lemma_ids_push(r, s.last());
            assert forall|i: int, j: int| 0 <= i < j < r.push(s.last()).len() implies identity_of(
                #[trigger] r.push(s.last())[i],
            ) != identity_of(#[trigger] r.push(s.last())[j]) by {
                if j == r.len() {
                    assert(r.push(s.last())[i] == r[i]);
                } else {
                    assert(r.push(s.last())[i] == r[i]);
                    assert(r.push(s.last())[j] == r[j]);
                }
            }
        } else {
            assert(ids_of(s) =~= ids_of(r));
        }
    }
}

/// Leaving out the identities `ids` leaves exactly the other identities.
pub(crate) proof fn lemma_not_in(s: Seq<UsbDevice>, ids: Set<Seq<char>>)
    ensures
        ids_of(not_in(s, ids)) == ids_of(s).difference(ids),
        unique_ids(s) ==> unique_ids(not_in(s, ids)),
        forall|i: int| 0 <= i < not_in(s, ids).len() ==> ids_of(s).contains(identity_of(#[trigger] not_in(s, ids)[i])),
    decreases s.len(),
{
    if s.len() == 0 {
        assert(ids_of(s) =~= Set::empty());
        assert(ids_of(not_in(s, ids)) =~= Set::empty());
    } else {
        let t = s.drop_last();
        lemma_not_in(t, ids);
        lemma_ids_drop_last(s);
        let r = not_in(t, ids);
        assert forall|i: int| 0 <= i < r.len() implies ids_of(s).contains(identity_of(#[trigger] r[i])) by {
            assert(ids_of(t).contains(identity_of(r[i])));
        }
        if ids.contains(identity_of(s.last())) {
            assert(ids_of(not_in(s, ids)) =~= ids_of(s).difference(ids));
        } else {
            lemma_ids_push(r, s.last());
            assert(ids_of(not_in(s, ids)) =~= ids_of(s).difference(ids));
            assert(ids_of(s).contains(identity_of(s.last())));
            if unique_ids(s) {
                assert(unique_ids(t)) by {
                    assert forall|i: int, j: int| 0 <= i < j < t.len() implies identity_of(#[trigger] t[i])
                        != identity_of(#[trigger] t[j]) by {
                        assert(t[i] == s[i] && t[j] == s[j]);
                    }
                }
                assert(!ids_of(t).contains(identity_of(s.last()))) by {
                    if ids_of(t).contains(identity_of(s.last())) {
                        let k = choose|k: int| 0 <= k < t.len() && identity_of(#[trigger] t[k]) == identity_of(s.last());
                        assert(s[k] == t[k]);
                        assert(identity_of(s[k]) != identity_of(s[s.len() - 1]));
                    }
                }
                let q = r.push(s.last());
                assert forall|i: int, j: int| 0 <= i < j < q.len() implies identity_of(#[trigger] q[i])
                    != identity_of(#[trigger] q[j]) by {
                    assert(q[i] == r[i]);
                    if j < r.len() {
                        assert(q[j] == r[j]);
                    } else {
                        assert(ids_of(t).contains(identity_of(r[i])));
                    }
                }
            }
            assert forall|i: int| 0 <= i < not_in(s, ids).len() implies ids_of(s).contains(
                identity_of(#[trigger] not_in(s, ids)[i]),
            ) by {
                if i < r.len() {
                    assert(not_in(s, ids)[i] == r[i]);
                }
            }
        }
    }
}

/// The identities of the records of `s`, in order.
pub open spec fn id_list(s: Seq<UsbDevice>) -> Seq<Seq<char>> {
    s.map_values(|d: UsbDevice| identity_of(d))
}

pub open spec fn string_views(v: Seq<String>) -> Seq<Seq<char>> {
    v.map_values(|x: String| x@)
}

pub(crate) fn identities(s: &Vec<UsbDevice>) -> (r: Vec<String>)
    ensures
        string_views(r@) == id_list(s@),
{
    let mut r: Vec<String> = Vec::new();
    let mut i: usize = 0;
    while i < s.len()
        invariant
            i <= s@.len(),
            r@.len() == i,
            string_views(r@) == id_list(s@.subrange(0, i as int)),
        decreases s@.len() - i,
    {
        let ghost prev = r@;
        r.push(device_identity(&s[i]));
        i += 1;
        assert forall|j: int| 0 <= j < i implies string_views(r@)[j] == id_list(s@.subrange(0, i as int))[j] by {
            if j < i - 1 {
                assert(string_views(prev)[j] == id_list(s@.subrange(0, i - 1))[j]);
                assert(r@[j] == prev[j]);
            }
        }
        assert(string_views(r@) =~= id_list(s@.subrange(0, i as int)));
    }
    assert(s@.subrange(0, s@.len() as int) =~= s@);
    r
}

pub(crate) fn has_identity(ids: &Vec<String>, x: &String) -> (r: bool)
    ensures
        r == string_views(ids@).contains(x@),
{
    let mut i: usize = 0;
    while i < ids.len()
        invariant
            i <= ids@.len(),
            forall|j: int| 0 <= j < i ==> ids@[j]@ != x@,
        decreases ids@.len() - i,
    {
        if ids[i] == *x {
            assert(string_views(ids@)[i as int] == x@);
            return true;
        }
        i += 1;
    }
    assert forall|j: int| 0 <= j < string_views(ids@).len() implies string_views(ids@)[j] != x@ by {
        assert(ids@[j]@ != x@);
    }
    false
}

pub(crate) proof fn lemma_id_list_contains(s: Seq<UsbDevice>, x: Seq<char>)
    ensures
        id_list(s).contains(x) <==> ids_of(s).contains(x),
{
    if id_list(s).contains(x) {
        let i = choose|i: int| 0 <= i < id_list(s).len() && id_list(s)[i] == x;
        assert(identity_of(s[i]) == x);
    }
    if ids_of(s).contains(x) {
        let i = choose|i: int| 0 <= i < s.len() && identity_of(#[trigger] s[i]) == x;
        assert(id_list(s)[i] == x);
    }
}

/// The records of `s` whose identity is not among `ids`.
pub(crate) fn keep_absent(s: &Vec<UsbDevice>, ids: &Vec<String>, ghost_ids: Ghost<Set<Seq<char>>>) -> (r: Vec<UsbDevice>)
    requires
        forall|x: Seq<char>| string_views(ids@).contains(x) <==> ghost_ids@.contains(x),
    ensures
        r@ == not_in(s@, ghost_ids@),
{
    let mut r: Vec<UsbDevice> = Vec::new();
    let mut i: usize = 0;
    while i < s.len()
        invariant
            i <= s@.len(),
            forall|x: Seq<char>| string_views(ids@).contains(x) <==> ghost_ids@.contains(x),
            r@ == not_in(s@.subrange(0, i as int), ghost_ids@),
        decreases s@.len() - i,
    {
        assert(s@.subrange(0, i + 1).drop_last() =~= s@.subrange(0, i as int));
        let id = device_identity(&s[i]);
        if !has_identity(ids, &id) {
            r.push(s[i].clone());
        }
        i += 1;
    }
    assert(s@.subrange(0, s@.len() as int) =~= s@);
    r
}

/// The first record of each identity of `s`, with their identities.
pub(crate) fn first_of_each(s: &Vec<UsbDevice>) -> (r: (Vec<UsbDevice>, Vec<String>))
    ensures
        r.0@ == dedup(s@),
        string_views(r.1@) == id_list(r.0@),
{
    let mut kept: Vec<UsbDevice> = Vec::new();
    let mut seen: Vec<String> = Vec::new();
    let mut i: usize = 0;
    while i < s.len()
        invariant
            i <= s@.len(),
            kept@ == dedup(s@.subrange(0, i as int)),
            seen@.len() == kept@.len(),
            string_views(seen@) == id_list(kept@),
        decreases s@.len() - i,
    {
        assert(s@.subrange(0, i + 1).drop_last() =~= s@.subrange(0, i as int));
        let id = device_identity(&s[i]);
        proof {
            lemma_id_list_contains(kept@, id@);
        }
        if !has_identity(&seen, &id) {
            let ghost pk = kept@;
            let ghost ps = seen@;
            kept.push(s[i].clone());
            seen.push(id);
            assert forall|j: int| 0 <= j < kept@.len() implies string_views(seen@)[j] == id_list(kept@)[j] by {
                if j < pk.len() {
                    assert(string_views(ps)[j] == id_list(pk)[j]);
                    assert(seen@[j] == ps[j] && kept@[j] == pk[j]);
                }
            }
            assert(string_views(seen@) =~= id_list(kept@));
        }
        i += 1;
    }
    assert(s@.subrange(0, s@.len() as int) =~= s@);
    (kept, seen)
}

} // verus!
