//! What holds of the penalty of every timetable.

use crate::checker::{preference_penalty, total_penalty, violations};
use crate::conflict_laws::lemma_nothing_reported;
use crate::conflicts::{conflict, conflict_penalty, reported_pairs};
use crate::decoder::decoded;
use crate::decoder_laws::lemma_decoded_len;
use crate::grouping::{slot_key, SlotKey};
use crate::models::{CourseRequest, OptimizedCourse, TimePreferenceRequest};
use crate::overload::{
    course_keys, credits_of, excess_over, lemma_course_keys, overload_penalty, CREDIT_LIMIT,
};
use crate::preferences::violates;
use vstd::prelude::*;

verus! {

/// No two sessions of the timetable conflict.
pub open spec fn conflict_free(s: Seq<OptimizedCourse>) -> bool {
    forall|a: int, b: int| 0 <= a < b < s.len() ==> !#[trigger] conflict(s[a], s[b])
}

/// No class carries more than the daily limit of credit hours in one band
/// on one day.
pub open spec fn within_limit(s: Seq<OptimizedCourse>) -> bool {
    forall|k: SlotKey| #[trigger] credits_of(s, k) <= CREDIT_LIMIT
}

/// Every session is tolerated by its lecturer, as far as the lecturer is
/// listed.
pub open spec fn preferences_met(table: Map<u32, TimePreferenceRequest>, s: Seq<OptimizedCourse>) -> bool {
    forall|i: int| 0 <= i < s.len() ==> !violates(table, #[trigger] s[i])
}

/// The sessions not tolerated are none exactly when every session is
/// tolerated.
pub proof fn lemma_no_violations(table: Map<u32, TimePreferenceRequest>, s: Seq<OptimizedCourse>)
    ensures
        violations(table, s).len() == 0 <==> preferences_met(table, s),
    decreases s.len(),
{
    if s.len() > 0 {
        let t = s.drop_last();
        lemma_no_violations(table, t);
        if preferences_met(table, s) {
            assert forall|i: int| 0 <= i < t.len() implies !violates(table, #[trigger] t[i]) by {
                assert(t[i] == s[i]);
            }
            assert(!violates(table, s[s.len() - 1]));
        }
        if violations(table, s).len() == 0 {
            assert forall|i: int| 0 <= i < s.len() implies !violates(table, #[trigger] s[i]) by {
                if i < t.len() {
                    assert(t[i] == s[i]);
                }
            }
        }
    }
}

/// A key that no session has carries no credit hours.
pub proof fn lemma_absent_key(s: Seq<OptimizedCourse>, k: SlotKey)
    requires
        forall|i: int| 0 <= i < s.len() ==> slot_key(#[trigger] s[i]) != k,
    ensures
        credits_of(s, k) == 0,
    decreases s.len(),
{
    if s.len() > 0 {
        let t = s.drop_last();
        assert forall|i: int| 0 <= i < t.len() implies slot_key(#[trigger] t[i]) != k by {
            assert(t[i] == s[i]);
        }
        lemma_absent_key(t, k);
        assert(slot_key(s[s.len() - 1]) != k);
    }
}

proof fn lemma_excess_zero(s: Seq<OptimizedCourse>, keys: Seq<SlotKey>)
    ensures
        excess_over(s, keys) == 0 <==> forall|g: int|
            0 <= g < keys.len() ==> credits_of(s, #[trigger] keys[g]) <= CREDIT_LIMIT,
    decreases keys.len(),
{
    if keys.len() > 0 {
        let front = keys.drop_last();
        lemma_excess_zero(s, front);
        if excess_over(s, keys) == 0 {
            assert forall|g: int| 0 <= g < keys.len() implies credits_of(s, #[trigger] keys[g])
                <= CREDIT_LIMIT by {
                if g < front.len() {
                    assert(front[g] == keys[g]);
                }
            }
        }
        if forall|g: int| 0 <= g < keys.len() ==> credits_of(s, #[trigger] keys[g]) <= CREDIT_LIMIT {
            assert forall|g: int| 0 <= g < front.len() implies credits_of(s, #[trigger] front[g])
                <= CREDIT_LIMIT by {
                assert(front[g] == keys[g]);
            }
            assert(credits_of(s, keys[keys.len() - 1]) <= CREDIT_LIMIT);
        }
    }
}

/// Nothing is charged for credit hours exactly when no group is beyond the
/// limit.
pub proof fn lemma_no_overload(s: Seq<OptimizedCourse>)
    ensures
        overload_penalty(s) == 0 <==> within_limit(s),
{
    let keys = course_keys(s);
    lemma_excess_zero(s, keys);
    lemma_course_keys(s);
    if overload_penalty(s) == 0 {
        assert(excess_over(s, keys) == 0) by (nonlinear_arith)
            requires
                100 * excess_over(s, keys) == 0,
        ;
        assert forall|k: SlotKey| #[trigger] credits_of(s, k) <= CREDIT_LIMIT by {
            if keys.contains(k) {
                let g = choose|g: int| 0 <= g < keys.len() && keys[g] == k;
                assert(credits_of(s, keys[g]) <= CREDIT_LIMIT);
            } else {
                lemma_absent_key(s, k);
            }
        }
    }
    if within_limit(s) {
        assert forall|g: int| 0 <= g < keys.len() implies credits_of(s, #[trigger] keys[g])
            <= CREDIT_LIMIT by {}
    }
}

/// The penalty is zero exactly for a timetable without conflicts, without a
/// group beyond the credit limit, and with every listed preference met.
pub proof fn lemma_zero_penalty(table: Map<u32, TimePreferenceRequest>, s: Seq<OptimizedCourse>)
    requires
        s.len() <= usize::MAX,
    ensures
        total_penalty(table, s) == 0 <==> conflict_free(s) && within_limit(s) && preferences_met(
            table,
            s,
        ),
{
    lemma_nothing_reported(s);
    lemma_no_overload(s);
    lemma_no_violations(table, s);
    assert(conflict_penalty(s) == 0 <==> reported_pairs(s).len() == 0) by (nonlinear_arith)
        requires
            conflict_penalty(s) == 100 * reported_pairs(s).len(),
    ;
    assert(preference_penalty(table, s) == 0 <==> violations(table, s).len() == 0)
        by (nonlinear_arith)
        requires
            preference_penalty(table, s) == 300 * violations(table, s).len(),
    ;
}

/// With no courses the timetable is empty and its penalty zero, whatever
/// the position.
pub proof fn lemma_no_courses(table: Map<u32, TimePreferenceRequest>, position: Seq<i64>)
    ensures
        decoded(position, Seq::<CourseRequest>::empty()).len() == 0,
        total_penalty(table, decoded(position, Seq::<CourseRequest>::empty())) == 0,
{
    let s = decoded(position, Seq::<CourseRequest>::empty());
    lemma_decoded_len(position, Seq::<CourseRequest>::empty());
    lemma_zero_penalty(table, s);
    assert forall|k: SlotKey| #[trigger] credits_of(s, k) <= CREDIT_LIMIT by {
        lemma_absent_key(s, k);
    }
}

} // verus!
