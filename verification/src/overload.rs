//! The penalty for a class that carries too many credit hours on one day.

use crate::grouping::{holds_key, key_of, slot_key, SlotKey};
use crate::models::OptimizedCourse;
use vstd::prelude::*;

verus! {

/// Credit hours that one class may carry in one band on one day without
/// penalty.
pub const CREDIT_LIMIT: u64 = 6;

/// Penalty for each credit hour beyond the limit.
pub const OVERLOAD_PENALTY: u64 = 100;

/// The keys of the courses, each once, in the order of first occurrence.
pub open spec fn course_keys(s: Seq<OptimizedCourse>) -> Seq<SlotKey>
    decreases s.len(),
{
    if s.len() == 0 {
        Seq::empty()
    } else {
        let before = course_keys(s.drop_last());
        if before.contains(slot_key(s.last())) {
            before
        } else {
            before.push(slot_key(s.last()))
        }
    }
}

/// The credit hours of the courses with key `k`, summed.
pub open spec fn credits_of(s: Seq<OptimizedCourse>, k: SlotKey) -> nat
    decreases s.len(),
{
    if s.len() == 0 {
        0
    } else if slot_key(s.last()) == k {
        credits_of(s.drop_last(), k) + s.last().sks as nat
    } else {
        credits_of(s.drop_last(), k)
    }
}

/// The credit hours beyond the limit.
pub open spec fn excess(total: nat) -> nat {
    if total > CREDIT_LIMIT {
        (total - CREDIT_LIMIT) as nat
    } else {
        0
    }
}

/// The excess credit hours of the groups named by `keys`, summed.
pub open spec fn excess_over(s: Seq<OptimizedCourse>, keys: Seq<SlotKey>) -> nat
    decreases keys.len(),
{
    if keys.len() == 0 {
        0
    } else {
        excess_over(s, keys.drop_last()) + excess(credits_of(s, keys.last()))
    }
}

/// What the credit hours beyond the limit cost.
pub open spec fn overload_penalty(s: Seq<OptimizedCourse>) -> nat {
    OVERLOAD_PENALTY as nat * excess_over(s, course_keys(s))
}

/// `course_keys` holds exactly the keys of the courses, none of them twice.
pub proof fn lemma_course_keys(s: Seq<OptimizedCourse>)
    ensures
        course_keys(s).no_duplicates(),
        course_keys(s).len() <= s.len(),
        forall|i: int| 0 <= i < s.len() ==> course_keys(s).contains(slot_key(#[trigger] s[i])),
        forall|k: SlotKey|
            course_keys(s).contains(k) ==> exists|i: int|
                0 <= i < s.len() && slot_key(#[trigger] s[i]) == k,
    decreases s.len(),
{
    if s.len() > 0 {
        let t = s.drop_last();
        let before = course_keys(t);
        let now = course_keys(s);
        lemma_course_keys(t);
        assert forall|i: int| 0 <= i < s.len() implies now.contains(slot_key(#[trigger] s[i])) by {
            if i < t.len() {
                assert(before.contains(slot_key(t[i])));
                let j = choose|j: int| 0 <= j < before.len() && before[j] == slot_key(t[i]);
                assert(now[j] == slot_key(s[i]));
            } else if before.contains(slot_key(s[i])) {
            } else {
                assert(now[before.len() as int] == slot_key(s[i]));
            }
        }
        assert forall|k: SlotKey| now.contains(k) implies exists|i: int|
            0 <= i < s.len() && slot_key(#[trigger] s[i]) == k by {
            if before.contains(k) {
                let i = choose|i: int| 0 <= i < t.len() && slot_key(#[trigger] t[i]) == k;
                assert(slot_key(s[i]) == k);
            } else {
                let j = choose|j: int| 0 <= j < now.len() && now[j] == k;
                assert(j == before.len());
                assert(slot_key(s[s.len() - 1]) == k);
            }
        }
    }
}

/// A group carries no more than every course at the largest weight.
pub proof fn lemma_credits_bound(s: Seq<OptimizedCourse>, k: SlotKey)
    ensures
        credits_of(s, k) <= s.len() * u32::MAX,
    decreases s.len(),
{
    if s.len() > 0 {
        lemma_credits_bound(s.drop_last(), k);
        assert((s.len() - 1) * u32::MAX + u32::MAX == s.len() * u32::MAX) by (nonlinear_arith);
    }
}

/// The credit hours of distinct groups together are no more than those of
/// all courses, so their excess is bounded by the same sum.
pub proof fn lemma_excess_bound(s: Seq<OptimizedCourse>, keys: Seq<SlotKey>)
    requires
        keys.no_duplicates(),
    ensures
        excess_over(s, keys) <= s.len() * u32::MAX,
    decreases s.len(),
{
    lemma_excess_le_credits(s, keys);
    lemma_total_credits(s, keys);
}

/// The credit hours of the groups named by `keys`, summed.
pub open spec fn credits_over(s: Seq<OptimizedCourse>, keys: Seq<SlotKey>) -> nat
    decreases keys.len(),
{
    if keys.len() == 0 {
        0
    } else {
        credits_over(s, keys.drop_last()) + credits_of(s, keys.last())
    }
}

proof fn lemma_excess_le_credits(s: Seq<OptimizedCourse>, keys: Seq<SlotKey>)
    ensures
        excess_over(s, keys) <= credits_over(s, keys),
    decreases keys.len(),
{
    if keys.len() > 0 {
        lemma_excess_le_credits(s, keys.drop_last());
    }
}

proof fn lemma_credits_over_step(s: Seq<OptimizedCourse>, keys: Seq<SlotKey>)
    requires
        s.len() > 0,
        keys.no_duplicates(),
    ensures
        credits_over(s, keys) == credits_over(s.drop_last(), keys) + if keys.contains(
            slot_key(s.last()),
        ) {
            s.last().sks as nat
        } else {
            0
        },
    decreases keys.len(),
{
    if keys.len() > 0 {
        let front = keys.drop_last();
        assert(front.no_duplicates());
        lemma_credits_over_step(s, front);
        let k = slot_key(s.last());
        if keys.last() == k {
            assert(!front.contains(k)) by {
                if front.contains(k) {
                    let j = choose|j: int| 0 <= j < front.len() && front[j] == k;
                    assert(keys[j] == keys[keys.len() - 1]);
                }
            }
            assert(keys.contains(k)) by {
                assert(keys[keys.len() - 1] == k);
            }
        } else {
            if front.contains(k) {
                let j = choose|j: int| 0 <= j < front.len() && front[j] == k;
                assert(keys[j] == k);
            }
            if keys.contains(k) {
                let j = choose|j: int| 0 <= j < keys.len() && keys[j] == k;
                assert(front[j] == k);
            }
        }
    }
}

proof fn lemma_total_credits(s: Seq<OptimizedCourse>, keys: Seq<SlotKey>)
    requires
        keys.no_duplicates(),
    ensures
        credits_over(s, keys) <= s.len() * u32::MAX,
    decreases s.len(),
{
    if s.len() == 0 {
        lemma_credits_over_empty(s, keys);
    } else {
        lemma_total_credits(s.drop_last(), keys);
        lemma_credits_over_step(s, keys);
        assert((s.len() - 1) * u32::MAX + u32::MAX == s.len() * u32::MAX) by (nonlinear_arith);
    }
}

proof fn lemma_credits_over_empty(s: Seq<OptimizedCourse>, keys: Seq<SlotKey>)
    requires
        s.len() == 0,
    ensures
        credits_over(s, keys) == 0,
    decreases keys.len(),
{
    if keys.len() > 0 {
        lemma_credits_over_empty(s, keys.drop_last());
    }
}

fn keys_of(schedule: &[OptimizedCourse]) -> (keys: Vec<SlotKey>)
    ensures
        keys@ == course_keys(schedule@),
{
    let mut keys: Vec<SlotKey> = Vec::new();
    let mut i: usize = 0;
    while i < schedule.len()
        invariant
            i <= schedule@.len(),
            keys@ == course_keys(schedule@.take(i as int)),
        decreases schedule@.len() - i,
    {
        proof {
            assert(schedule@.take(i + 1).drop_last() =~= schedule@.take(i as int));
        }
        let k = key_of(&schedule[i]);
        if !holds_key(&keys, k) {
            keys.push(k);
        }
        i += 1;
    }
    proof {
        assert(schedule@.take(schedule@.len() as int) =~= schedule@);
    }
    keys
}

fn group_credits(schedule: &[OptimizedCourse], k: SlotKey) -> (total: u64)
    requires
        schedule@.len() <= crate::conflicts::MAX_COURSES,
    ensures
        total == credits_of(schedule@, k),
{
    let mut total: u64 = 0;
    let mut i: usize = 0;
    while i < schedule.len()
        invariant
            i <= schedule@.len() <= crate::conflicts::MAX_COURSES,
            total == credits_of(schedule@.take(i as int), k),
        decreases schedule@.len() - i,
    {
        proof {
            assert(schedule@.take(i + 1).drop_last() =~= schedule@.take(i as int));
            lemma_credits_bound(schedule@.take(i as int), k);
            assert(i * u32::MAX <= 16_777_216 * u32::MAX) by (nonlinear_arith)
                requires
                    i <= 16_777_216,
            ;
        }
        if key_of(&schedule[i]) == k {
            total = total + schedule[i].sks as u64;
        }
        i += 1;
    }
    proof {
        assert(schedule@.take(schedule@.len() as int) =~= schedule@);
    }
    total
}

/// Sums, over the groups of one class, band and weekday, the credit hours
/// beyond the limit, and charges each of them.
pub fn credit_overload(schedule: &[OptimizedCourse]) -> (penalty: u64)
    requires
        schedule@.len() <= crate::conflicts::MAX_COURSES,
    ensures
        penalty == overload_penalty(schedule@),
        penalty <= OVERLOAD_PENALTY * (schedule@.len() * u32::MAX),
{
    let keys = keys_of(schedule);
    let mut over: u64 = 0;
    let mut g: usize = 0;
    proof {
        lemma_course_keys(schedule@);
    }
    while g < keys.len()
        invariant
            g <= keys.len(),
            keys@.no_duplicates(),
            schedule@.len() <= crate::conflicts::MAX_COURSES,
            over == excess_over(schedule@, keys@.take(g as int)),
        decreases keys.len() - g,
    {
        proof {
            assert(keys@.take(g + 1).drop_last() =~= keys@.take(g as int));
            assert(keys@.take(g + 1).last() == keys@[g as int]);
            assert(keys@.take(g + 1).no_duplicates());
            lemma_excess_bound(schedule@, keys@.take(g + 1));
            assert(schedule@.len() * u32::MAX <= 16_777_216 * u32::MAX) by (nonlinear_arith)
                requires
                    schedule@.len() <= 16_777_216,
            ;
        }
        let total = group_credits(schedule, keys[g]);
        if total > CREDIT_LIMIT {
            over = over + (total - CREDIT_LIMIT);
        }
        g += 1;
    }
    proof {
        assert(keys@.take(keys.len() as int) =~= keys@);
        lemma_excess_bound(schedule@, keys@);
        assert(schedule@.len() * u32::MAX <= 16_777_216 * u32::MAX) by (nonlinear_arith)
            requires
                schedule@.len() <= 16_777_216,
        ;
        assert(OVERLOAD_PENALTY * excess_over(schedule@, keys@) <= OVERLOAD_PENALTY * (
        schedule@.len() * u32::MAX)) by (nonlinear_arith)
            requires
                excess_over(schedule@, keys@) <= schedule@.len() * u32::MAX,
        ;
    }
    OVERLOAD_PENALTY * over
}

} // verus!
