//! Partition of keyed entries into groups, in the order in which each group
//! is first met.

use crate::models::OptimizedCourse;
use crate::sorting::Keyed;
use vstd::prelude::*;

verus! {

/// What two entries must share to be packed together: study program,
/// semester, class, session band and weekday (0 while no day is assigned).
#[derive(Debug, Clone, Copy, PartialEq, Eq, Structural)]
pub struct SlotKey {
    pub prodi: u32,
    pub semester: u32,
    pub id_kelas: u32,
    pub id_waktu: u32,
    pub hari: u32,
}

/// The key of a course.
pub open spec fn slot_key(c: OptimizedCourse) -> SlotKey {
    SlotKey {
        prodi: c.prodi,
        semester: c.semester,
        id_kelas: c.id_kelas,
        id_waktu: c.id_waktu,
        hari: c.hari,
    }
}

/// The keys that occur in `s`, each once, in the order of first occurrence.
pub open spec fn distinct_keys(s: Seq<Keyed>) -> Seq<SlotKey>
    decreases s.len(),
{
    if s.len() == 0 {
        Seq::empty()
    } else {
        let before = distinct_keys(s.drop_last());
        let k = slot_key(s.last().course);
        if before.contains(k) {
            before
        } else {
            before.push(k)
        }
    }
}

/// The entries of `s` whose key is `k`, in the order they have in `s`.
pub open spec fn members(s: Seq<Keyed>, k: SlotKey) -> Seq<Keyed>
    decreases s.len(),
{
    if s.len() == 0 {
        Seq::empty()
    } else {
        let before = members(s.drop_last(), k);
        if slot_key(s.last().course) == k {
            before.push(s.last())
        } else {
            before
        }
    }
}

/// `distinct_keys` holds exactly the keys of the entries, none of them twice.
pub proof fn lemma_distinct_keys(s: Seq<Keyed>)
    ensures
        distinct_keys(s).no_duplicates(),
        distinct_keys(s).len() <= s.len(),
        forall|k: SlotKey|
            distinct_keys(s).contains(k) <==> exists|i: int|
                0 <= i < s.len() && slot_key(#[trigger] s[i].course) == k,
    decreases s.len(),
{
    if s.len() == 0 {
    } else {
        let t = s.drop_last();
        let before = distinct_keys(t);
        let last = slot_key(s.last().course);
        lemma_distinct_keys(t);
        assert forall|k: SlotKey| distinct_keys(s).contains(k) implies exists|i: int|
            0 <= i < s.len() && slot_key(#[trigger] s[i].course) == k by {
            if before.contains(k) {
                let i = choose|i: int| 0 <= i < t.len() && slot_key(#[trigger] t[i].course) == k;
                assert(slot_key(s[i].course) == k);
            } else {
                let j = choose|j: int|
                    0 <= j < distinct_keys(s).len() && distinct_keys(s)[j] == k;
                assert(j == before.len());
                assert(slot_key(s[s.len() - 1].course) == k);
            }
        }
        assert forall|k: SlotKey|
            (exists|i: int|
                0 <= i < s.len() && slot_key(#[trigger] s[i].course) == k) implies distinct_keys(
            s,
        ).contains(k) by {
            let i = choose|i: int| 0 <= i < s.len() && slot_key(#[trigger] s[i].course) == k;
            if i < t.len() {
                assert(slot_key(t[i].course) == k);
                assert(before.contains(k));
                let j = choose|j: int| 0 <= j < before.len() && before[j] == k;
                assert(distinct_keys(s)[j] == k);
            } else {
                if before.contains(k) {
                } else {
                    assert(distinct_keys(s)[before.len() as int] == k);
                }
            }
        }
    }
}

/// Every member of a group is an entry with that group's key, and the group
/// is no longer than the whole.
pub proof fn lemma_members(s: Seq<Keyed>, k: SlotKey)
    ensures
        members(s, k).len() <= s.len(),
        forall|i: int|
            0 <= i < members(s, k).len() ==> slot_key(#[trigger] members(s, k)[i].course) == k
                && s.contains(members(s, k)[i]),
    decreases s.len(),
{
    if s.len() == 0 {
    } else {
        let t = s.drop_last();
        lemma_members(t, k);
        let m = members(s, k);
        assert forall|i: int| 0 <= i < m.len() implies slot_key(#[trigger] m[i].course) == k
            && s.contains(m[i]) by {
            if i < members(t, k).len() {
                assert(slot_key(members(t, k)[i].course) == k);
                assert(m[i] == members(t, k)[i]);
                assert(t.contains(m[i]));
                let j = choose|j: int| 0 <= j < t.len() && t[j] == m[i];
                assert(s[j] == m[i]);
            } else {
                assert(m[i] == s[s.len() - 1]);
            }
        }
    }
}

/// The key of a course.
pub fn key_of(c: &OptimizedCourse) -> (k: SlotKey)
    ensures
        k == slot_key(*c),
{
    SlotKey {
        prodi: c.prodi,
        semester: c.semester,
        id_kelas: c.id_kelas,
        id_waktu: c.id_waktu,
        hari: c.hari,
    }
}

/// Whether `k` is among the keys.
pub fn holds_key(keys: &Vec<SlotKey>, k: SlotKey) -> (found: bool)
    ensures
        found == keys@.contains(k),
{
    let mut i: usize = 0;
    while i < keys.len()
        invariant
            i <= keys.len(),
            forall|j: int| 0 <= j < i ==> keys[j] != k,
        decreases keys.len() - i,
    {
        if keys[i] == k {
            return true;
        }
        i += 1;
    }
    false
}

/// Lists the keys of the entries, each once, in the order of first
/// occurrence.
pub fn group_keys(entries: &Vec<Keyed>) -> (keys: Vec<SlotKey>)
    ensures
        keys@ == distinct_keys(entries@),
{
    let mut keys: Vec<SlotKey> = Vec::new();
    let mut i: usize = 0;
    while i < entries.len()
        invariant
            i <= entries.len(),
            keys@ == distinct_keys(entries@.take(i as int)),
        decreases entries.len() - i,
    {
        proof {
            assert(entries@.take(i + 1).drop_last() =~= entries@.take(i as int));
        }
        let k = key_of(&entries[i].course);
        if !holds_key(&keys, k) {
            keys.push(k);
        }
        i += 1;
    }
    proof {
        assert(entries@.take(entries.len() as int) =~= entries@);
    }
    keys
}

/// Collects the entries with key `k`, in their order.
pub fn group_members(entries: &Vec<Keyed>, k: SlotKey) -> (group: Vec<Keyed>)
    ensures
        group@ == members(entries@, k),
{
    let mut group: Vec<Keyed> = Vec::new();
    let mut i: usize = 0;
    while i < entries.len()
        invariant
            i <= entries.len(),
            group@ == members(entries@.take(i as int), k),
        decreases entries.len() - i,
    {
        proof {
            assert(entries@.take(i + 1).drop_last() =~= entries@.take(i as int));
        }
        if key_of(&entries[i].course) == k {
            group.push(entries[i]);
        }
        i += 1;
    }
    proof {
        assert(entries@.take(entries.len() as int) =~= entries@);
    }
    group
}

} // verus!
