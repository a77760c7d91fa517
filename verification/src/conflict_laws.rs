//! What holds of the conflicts reported for every timetable.

use crate::conflicts::{conflict, has_key, pair_key, reported_pairs, scan};
use crate::models::OptimizedCourse;
use vstd::prelude::*;

verus! {

/// The pair of positions `a` and `b` is a conflicting pair that the visit
/// has reached once every row before `i` is done and, in row `i`, the
/// columns before `j`.
pub open spec fn reached(s: Seq<OptimizedCourse>, i: int, j: int, a: int, b: int) -> bool {
    &&& 0 <= a < b < s.len()
    &&& a < i || (a == i && b < j)
    &&& conflict(s[a], s[b])
}

/// The schedule ids of the reported pairs, pair by pair.
pub open spec fn keys_of(s: Seq<OptimizedCourse>, found: Seq<(usize, usize)>) -> Seq<(u32, u32)> {
    Seq::new(found.len(), |p: int| pair_key(s[found[p].0 as int], s[found[p].1 as int]))
}

/// The schedule-id pairs of all conflicting pairs of sessions.
pub open spec fn conflict_keys(s: Seq<OptimizedCourse>) -> Set<(u32, u32)> {
    Set::new(
        |k: (u32, u32)|
            exists|a: int, b: int|
                0 <= a < b < s.len() && conflict(s[a], s[b]) && #[trigger] pair_key(s[a], s[b])
                    == k,
    )
}

/// The timetable with the sessions at `a` and `b` in each other's place.
pub open spec fn swapped(s: Seq<OptimizedCourse>, a: int, b: int) -> Seq<OptimizedCourse> {
    s.update(a, s[b]).update(b, s[a])
}

/// Whether two sessions conflict does not depend on which is named first.
pub proof fn lemma_conflict_symmetric(a: OptimizedCourse, b: OptimizedCourse)
    ensures
        conflict(a, b) == conflict(b, a),
        pair_key(a, b) == pair_key(b, a),
{
}

/// Every reported pair is a conflicting pair that was reached; no two
/// reported pairs have the same schedule ids; and every conflicting pair
/// that was reached has its schedule ids among the reported ones.
pub proof fn lemma_scan(s: Seq<OptimizedCourse>, i: int, j: int)
    requires
        0 <= i <= s.len() <= usize::MAX,
        0 <= j <= s.len(),
    ensures
        forall|p: int|
            0 <= p < scan(s, i, j).len() ==> reached(
                s,
                i,
                j,
                (#[trigger] scan(s, i, j)[p]).0 as int,
                scan(s, i, j)[p].1 as int,
            ),
        keys_of(s, scan(s, i, j)).no_duplicates(),
        forall|a: int, b: int| #[trigger]
            reached(s, i, j, a, b) ==> has_key(s, scan(s, i, j), pair_key(s[a], s[b])),
    decreases i, j,
{
    let f = scan(s, i, j);
    if j > i + 1 {
        let before = scan(s, i, j - 1);
        lemma_scan(s, i, j - 1);
        let k = pair_key(s[i], s[j - 1]);
        let pushed = conflict(s[i], s[j - 1]) && !has_key(s, before, k);
        assert forall|p: int| 0 <= p < f.len() implies reached(
            s,
            i,
            j,
            (#[trigger] f[p]).0 as int,
            f[p].1 as int,
        ) by {
            if p < before.len() {
                assert(f[p] == before[p]);
                assert(reached(s, i, j - 1, before[p].0 as int, before[p].1 as int));
            }
        }
        assert forall|p: int, q: int| 0 <= p < q < f.len() implies keys_of(s, f)[p] != keys_of(
            s,
            f,
        )[q] by {
            if q < before.len() {
                assert(keys_of(s, before)[p] != keys_of(s, before)[q]);
                assert(f[p] == before[p] && f[q] == before[q]);
            } else {
                assert(f[p] == before[p]);
                if keys_of(s, f)[p] == keys_of(s, f)[q] {
                    assert(pair_key(s[before[p].0 as int], s[before[p].1 as int]) == k);
                    assert(has_key(s, before, k));
                }
            }
        }
        assert forall|a: int, b: int| #[trigger] reached(s, i, j, a, b) implies has_key(
            s,
            f,
            pair_key(s[a], s[b]),
        ) by {
            if a == i && b == j - 1 {
                if pushed {
                    let last = f.len() - 1;
                    assert(f[last] == (i as usize, (j - 1) as usize));
                    assert(pair_key(s[f[last].0 as int], s[f[last].1 as int]) == k);
                } else {
                    let p = choose|p: int|
                        0 <= p < before.len() && pair_key(
                            s[(#[trigger] before[p]).0 as int],
                            s[before[p].1 as int],
                        ) == k;
                    assert(f[p] == before[p]);
                }
            } else {
                assert(reached(s, i, j - 1, a, b));
                let kk = pair_key(s[a], s[b]);
                let p = choose|p: int|
                    0 <= p < before.len() && pair_key(
                        s[(#[trigger] before[p]).0 as int],
                        s[before[p].1 as int],
                    ) == kk;
                assert(f[p] == before[p]);
            }
        }
    } else if i > 0 {
        lemma_scan(s, i - 1, s.len() as int);
        let g = scan(s, i - 1, s.len() as int);
        assert forall|p: int| 0 <= p < f.len() implies reached(
            s,
            i,
            j,
            (#[trigger] f[p]).0 as int,
            f[p].1 as int,
        ) by {
            assert(reached(s, i - 1, s.len() as int, g[p].0 as int, g[p].1 as int));
        }
        assert forall|a: int, b: int| #[trigger] reached(s, i, j, a, b) implies has_key(
            s,
            f,
            pair_key(s[a], s[b]),
        ) by {
            assert(reached(s, i - 1, s.len() as int, a, b));
        }
    } else {
    }
}

/// The pair `p` comes before the pair `q` in the order of the visit.
pub open spec fn visited_before(p: (usize, usize), q: (usize, usize)) -> bool {
    p.0 < q.0 || (p.0 == q.0 && p.1 < q.1)
}

/// The reported pairs stand in the order of the visit, and each is the
/// first conflicting pair of the visit with its two schedule ids.
pub proof fn lemma_scan_first(s: Seq<OptimizedCourse>, i: int, j: int)
    requires
        0 <= i <= s.len() <= usize::MAX,
        0 <= j <= s.len(),
    ensures
        forall|p: int, q: int|
            0 <= p < q < scan(s, i, j).len() ==> visited_before(
                #[trigger] scan(s, i, j)[p],
                #[trigger] scan(s, i, j)[q],
            ),
        forall|p: int, a: int, b: int|
            0 <= p < scan(s, i, j).len() && #[trigger] reached(
                s,
                scan(s, i, j)[p].0 as int,
                scan(s, i, j)[p].1 as int,
                a,
                b,
            ) ==> pair_key(s[a], s[b]) != pair_key(
                s[scan(s, i, j)[p].0 as int],
                s[scan(s, i, j)[p].1 as int],
            ),
    decreases i, j,
{
    let f = scan(s, i, j);
    if j > i + 1 {
        let before = scan(s, i, j - 1);
        lemma_scan_first(s, i, j - 1);
        lemma_scan(s, i, j - 1);
        let k = pair_key(s[i], s[j - 1]);
        assert forall|p: int, q: int| 0 <= p < q < f.len() implies visited_before(
            #[trigger] f[p],
            #[trigger] f[q],
        ) by {
            assert(f[p] == before[p]);
            if q < before.len() {
                assert(f[q] == before[q]);
            } else {
                assert(reached(s, i, j - 1, before[p].0 as int, before[p].1 as int));
            }
        }
        assert forall|p: int, a: int, b: int|
            0 <= p < f.len() && #[trigger] reached(
                s,
                f[p].0 as int,
                f[p].1 as int,
                a,
                b,
            ) implies pair_key(s[a], s[b]) != pair_key(s[f[p].0 as int], s[f[p].1 as int]) by {
            if p < before.len() {
                assert(f[p] == before[p]);
            } else {
                assert(reached(s, i, j - 1, a, b));
                assert(has_key(s, before, pair_key(s[a], s[b])));
            }
        }
    } else if i > 0 {
        lemma_scan_first(s, i - 1, s.len() as int);
        assert(f == scan(s, i - 1, s.len() as int));
    } else {
        assert(f.len() == 0);
    }
}

/// As many pairs are reported as there are different schedule-id pairs
/// among the conflicting pairs of sessions.
pub proof fn lemma_reported_counts_keys(s: Seq<OptimizedCourse>)
    requires
        s.len() <= usize::MAX,
    ensures
        conflict_keys(s).finite(),
        reported_pairs(s).len() == conflict_keys(s).len(),
{
    let f = reported_pairs(s);
    let keys = keys_of(s, f);
    lemma_scan(s, s.len() as int, 0);
    assert forall|k: (u32, u32)| keys.to_set().contains(k) <==> conflict_keys(s).contains(k) by {
        if keys.to_set().contains(k) {
            let p = choose|p: int| 0 <= p < keys.len() && keys[p] == k;
            let a = f[p].0 as int;
            let b = f[p].1 as int;
            assert(reached(s, s.len() as int, 0, a, b));
            assert(pair_key(s[a], s[b]) == k);
        }
        if conflict_keys(s).contains(k) {
            let (a, b) = choose|a: int, b: int|
                0 <= a < b < s.len() && conflict(s[a], s[b]) && #[trigger] pair_key(s[a], s[b])
                    == k;
            assert(reached(s, s.len() as int, 0, a, b));
            assert(has_key(s, f, k));
            let p = choose|p: int|
                0 <= p < f.len() && pair_key(s[(#[trigger] f[p]).0 as int], s[f[p].1 as int])
                    == k;
            assert(keys[p] == k);
        }
    }
    assert(keys.to_set() =~= conflict_keys(s));
    keys.unique_seq_to_set();
    vstd::seq_lib::seq_to_set_is_finite(keys);
}

/// A timetable without a conflicting pair has nothing reported, and a
/// timetable with nothing reported has no conflicting pair.
pub proof fn lemma_nothing_reported(s: Seq<OptimizedCourse>)
    requires
        s.len() <= usize::MAX,
    ensures
        reported_pairs(s).len() == 0 <==> forall|a: int, b: int|
            0 <= a < b < s.len() ==> !#[trigger] conflict(s[a], s[b]),
{
    let f = reported_pairs(s);
    lemma_scan(s, s.len() as int, 0);
    if f.len() > 0 {
        assert(reached(s, s.len() as int, 0, f[0].0 as int, f[0].1 as int));
    }
    if exists|a: int, b: int| 0 <= a < b < s.len() && #[trigger] conflict(s[a], s[b]) {
        let (a, b) = choose|a: int, b: int| 0 <= a < b < s.len() && #[trigger] conflict(s[a], s[b]);
        assert(reached(s, s.len() as int, 0, a, b));
        assert(has_key(s, f, pair_key(s[a], s[b])));
    }
}

proof fn lemma_swap_keeps_keys(s: Seq<OptimizedCourse>, x: int, y: int, k: (u32, u32))
    requires
        0 <= x < s.len(),
        0 <= y < s.len(),
        conflict_keys(s).contains(k),
    ensures
        conflict_keys(swapped(s, x, y)).contains(k),
{
    let t = swapped(s, x, y);
    let (a, b) = choose|a: int, b: int|
        0 <= a < b < s.len() && conflict(s[a], s[b]) && #[trigger] pair_key(s[a], s[b]) == k;
    let pa = if a == x {
        y
    } else if a == y {
        x
    } else {
        a
    };
    let pb = if b == x {
        y
    } else if b == y {
        x
    } else {
        b
    };
    assert(t[pa] == s[a]);
    assert(t[pb] == s[b]);
    lemma_conflict_symmetric(s[a], s[b]);
    if pa < pb {
        assert(pair_key(t[pa], t[pb]) == k);
    } else {
        assert(pair_key(t[pb], t[pa]) == k);
    }
}

/// Exchanging two sessions of a timetable changes neither the schedule-id
/// pairs in conflict nor the number of pairs reported.
pub proof fn lemma_swap_keeps_conflicts(s: Seq<OptimizedCourse>, x: int, y: int)
    requires
        s.len() <= usize::MAX,
        0 <= x < s.len(),
        0 <= y < s.len(),
    ensures
        conflict_keys(swapped(s, x, y)) == conflict_keys(s),
        reported_pairs(swapped(s, x, y)).len() == reported_pairs(s).len(),
        crate::conflicts::conflict_penalty(swapped(s, x, y)) == crate::conflicts::conflict_penalty(
            s,
        ),
{
    let t = swapped(s, x, y);
    assert(swapped(t, x, y) =~= s);
    assert forall|k: (u32, u32)| conflict_keys(t).contains(k) <==> conflict_keys(s).contains(
        k,
    ) by {
        if conflict_keys(s).contains(k) {
            lemma_swap_keeps_keys(s, x, y, k);
        }
        if conflict_keys(t).contains(k) {
            lemma_swap_keeps_keys(t, x, y, k);
        }
    }
    assert(conflict_keys(t) =~= conflict_keys(s));
    lemma_reported_counts_keys(s);
    lemma_reported_counts_keys(t);
}

} // verus!
