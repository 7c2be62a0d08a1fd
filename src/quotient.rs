use vstd::prelude::*;
use crate::table::{Table, languages_equal, lemma_run_in_range};

verus! {

/// The smallest state in `q..num_states` equivalent to `p`, or `p` when
/// there is none.
pub open spec fn first_equivalent(t: &Table, p: int, q: int) -> int
    decreases t.num_states - q,
{
    if q < 0 || q >= t.num_states {
        p
    } else if t.equivalent_states(q, p) {
        q
    } else {
        first_equivalent(t, p, q + 1)
    }
}

/// The representative of the class of `p`: its smallest member.
pub open spec fn class_rep(t: &Table, p: int) -> int {
    first_equivalent(t, p, 0)
}

pub open spec fn is_class_rep(t: &Table, p: int) -> bool {
    class_rep(t, p) == p
}

/// Number of representatives among the states `0..x`.
pub open spec fn reps_below(t: &Table, x: int) -> nat
    decreases x,
{
    if x <= 0 {
        0
    } else {
        reps_below(t, x - 1) + if is_class_rep(t, x - 1) {
            1nat
        } else {
            0nat
        }
    }
}

/// The state of the quotient that stands for the class of `p`: classes are
/// numbered in the order of their smallest members.
pub open spec fn class_index(t: &Table, p: int) -> int {
    reps_below(t, class_rep(t, p)) as int
}

/// Number of classes of equivalent states.
pub open spec fn class_count(t: &Table) -> nat {
    reps_below(t, t.num_states as int)
}

/// `r` is the quotient of `t` by state equivalence: one state per class,
/// numbered by `class_index`, with the transitions, finality and start state
/// that the members of each class share.
pub open spec fn is_quotient_of(r: &Table, t: &Table) -> bool {
    &&& r.wf()
    &&& r.num_states == class_count(t)
    &&& r.num_symbols == t.num_symbols
    &&& r.start == class_index(t, t.start as int)
    &&& forall|p: int, a: int|
        0 <= p < t.num_states && 0 <= a < t.num_symbols ==> #[trigger] r.next(class_index(t, p), a)
            == class_index(t, t.next(p, a))
    &&& forall|p: int|
        0 <= p < t.num_states ==> #[trigger] r.is_final(class_index(t, p)) == t.is_final(p)
}

pub proof fn lemma_equivalent_transitive(t: &Table, p: int, q: int, r: int)
    requires
        t.equivalent_states(p, q),
        t.equivalent_states(q, r),
    ensures
        t.equivalent_states(p, r),
        t.equivalent_states(r, p),
{
}

proof fn lemma_first_equivalent(t: &Table, p: int, q: int)
    requires
        0 <= q <= p < t.num_states,
    ensures
        q <= first_equivalent(t, p, q) <= p,
        t.equivalent_states(first_equivalent(t, p, q), p),
        forall|x: int| q <= x < first_equivalent(t, p, q) ==> !#[trigger] t.equivalent_states(x, p),
    decreases p - q,
{
    assert(t.equivalent_states(p, p));
    if !t.equivalent_states(q, p) {
        lemma_first_equivalent(t, p, q + 1);
    }
}

proof fn lemma_first_equivalent_congruent(t: &Table, p: int, p2: int, q: int)
    requires
        t.equivalent_states(p, p2),
        0 <= q <= p < t.num_states,
        q <= p2 < t.num_states,
    ensures
        first_equivalent(t, p, q) == first_equivalent(t, p2, q),
    decreases t.num_states - q,
{
    assert(t.equivalent_states(p, p));
    assert(t.equivalent_states(p2, p2));
    if t.equivalent_states(q, p) {
        lemma_equivalent_transitive(t, q, p, p2);
    } else {
        if t.equivalent_states(q, p2) {
            lemma_equivalent_transitive(t, q, p2, p);
        }
        lemma_first_equivalent_congruent(t, p, p2, q + 1);
    }
}

/// The representative of a class is its smallest member, and every member
/// has the same one.
pub proof fn lemma_class_rep(t: &Table, p: int)
    requires
        0 <= p < t.num_states,
    ensures
        0 <= class_rep(t, p) <= p,
        t.equivalent_states(class_rep(t, p), p),
        is_class_rep(t, class_rep(t, p)),
        forall|x: int| 0 <= x < class_rep(t, p) ==> !#[trigger] t.equivalent_states(x, p),
{
    lemma_first_equivalent(t, p, 0);
    let r = class_rep(t, p);
    lemma_first_equivalent_congruent(t, r, p, 0);
}

pub proof fn lemma_class_rep_equal_iff(t: &Table, p: int, q: int)
    requires
        0 <= p < t.num_states,
        0 <= q < t.num_states,
    ensures
        (class_rep(t, p) == class_rep(t, q)) == t.equivalent_states(p, q),
{
    lemma_class_rep(t, p);
    lemma_class_rep(t, q);
    if t.equivalent_states(p, q) {
        lemma_first_equivalent_congruent(t, p, q, 0);
    }
    if class_rep(t, p) == class_rep(t, q) {
        let r = class_rep(t, p);
        lemma_equivalent_transitive(t, p, r, q);
    }
}

proof fn lemma_reps_below_monotone(t: &Table, x: int, y: int)
    requires
        x <= y,
    ensures
        reps_below(t, x) <= reps_below(t, y),
    decreases y - x,
{
    if x < y {
        lemma_reps_below_monotone(t, x, y - 1);
    }
}

pub proof fn lemma_reps_below_strict(t: &Table, x: int, y: int)
    requires
        0 <= x < y,
        is_class_rep(t, x),
    ensures
        reps_below(t, x) < reps_below(t, y),
{
    lemma_reps_below_monotone(t, x + 1, y);
}

proof fn lemma_reps_below_onto(t: &Table, x: int, i: int)
    requires
        0 <= i < reps_below(t, x),
    ensures
        exists|y: int| 0 <= y < x && is_class_rep(t, y) && #[trigger] reps_below(t, y) == i,
    decreases x,
{
    if x > 0 {
        if i < reps_below(t, x - 1) {
            lemma_reps_below_onto(t, x - 1, i);
        } else {
            assert(is_class_rep(t, x - 1) && reps_below(t, x - 1) == i);
        }
    }
}

/// Class indices are `0..class_count`, and two states share one exactly
/// when they are equivalent.
pub proof fn lemma_class_index(t: &Table, p: int, q: int)
    requires
        0 <= p < t.num_states,
        0 <= q < t.num_states,
    ensures
        0 <= class_index(t, p) < class_count(t),
        (class_index(t, p) == class_index(t, q)) == t.equivalent_states(p, q),
{
    lemma_class_rep(t, p);
    lemma_class_rep(t, q);
    lemma_class_rep_equal_iff(t, p, q);
    let rp = class_rep(t, p);
    let rq = class_rep(t, q);
    lemma_reps_below_strict(t, rp, t.num_states as int);
    if rp < rq {
        lemma_reps_below_strict(t, rp, rq);
    } else if rq < rp {
        lemma_reps_below_strict(t, rq, rp);
    }
}

/// Every index below `class_count` is the index of some state.
pub proof fn lemma_class_index_onto(t: &Table, i: int)
    requires
        0 <= i < class_count(t),
    ensures
        exists|p: int| 0 <= p < t.num_states && #[trigger] class_index(t, p) == i,
{
    lemma_reps_below_onto(t, t.num_states as int, i);
    let y = choose|y: int|
        0 <= y < t.num_states && is_class_rep(t, y) && #[trigger] reps_below(t, y) == i;
    assert(class_index(t, y) == i);
}

/// In a quotient, the class of `p` behaves on every word as `p` does.
pub proof fn lemma_quotient_run(r: &Table, t: &Table, p: int, w: Seq<int>)
    requires
        t.wf(),
        is_quotient_of(r, t),
        0 <= p < t.num_states,
        t.is_word(w),
    ensures
        r.run(class_index(t, p), w) == class_index(t, t.run(p, w)),
        r.accepts_from(class_index(t, p), w) == t.accepts_from(p, w),
    decreases w.len(),
{
    if w.len() > 0 {
        let a = w[0];
        assert(0 <= a < t.num_symbols);
        assert(r.next(class_index(t, p), a) == class_index(t, t.next(p, a)));
        assert(t.is_word(w.drop_first()));
        lemma_quotient_run(r, t, t.next(p, a), w.drop_first());
    }
    lemma_run_in_range(t, p, w);
}

/// Minimizing keeps the language: the quotient accepts exactly the words
/// that the automaton accepts.
pub proof fn lemma_quotient_preserves_language(t: &Table, r: &Table, w: Seq<int>)
    requires
        t.wf(),
        is_quotient_of(r, t),
        t.is_word(w),
    ensures
        r.accepts(w) == t.accepts(w),
{
    lemma_quotient_run(r, t, t.start as int, w);
}

/// No two distinct states of a quotient accept the same words.
pub proof fn lemma_quotient_reduced(t: &Table, r: &Table)
    requires
        t.wf(),
        is_quotient_of(r, t),
    ensures
        r.is_reduced(),
{
    assert forall|i: int, j: int|
        0 <= i < r.num_states && 0 <= j < r.num_states && i != j implies !#[trigger] r.equivalent_states(i, j) by {
        lemma_class_index_onto(t, i);
        lemma_class_index_onto(t, j);
        let p = choose|p: int| 0 <= p < t.num_states && #[trigger] class_index(t, p) == i;
        let q = choose|q: int| 0 <= q < t.num_states && #[trigger] class_index(t, q) == j;
        lemma_class_index(t, p, q);
        let w = choose|w: Seq<int>| t.is_word(w) && t.accepts_from(p, w) != t.accepts_from(q, w);
        lemma_quotient_run(r, t, p, w);
        lemma_quotient_run(r, t, q, w);
        assert(r.is_word(w));
    }
}

proof fn lemma_reduced_indices(t: &Table, x: int)
    requires
        t.is_reduced(),
        0 <= x <= t.num_states,
    ensures
        reps_below(t, x) == x,
        x < t.num_states ==> class_rep(t, x) == x,
    decreases x,
{
    if x < t.num_states {
        lemma_class_rep(t, x);
    }
    if x > 0 {
        lemma_reduced_indices(t, x - 1);
    }
}

/// Minimizing an automaton whose states are pairwise inequivalent changes
/// nothing: same states, same numbering, same transitions.
pub proof fn lemma_quotient_of_reduced(t: &Table, r: &Table)
    requires
        t.wf(),
        t.is_reduced(),
        is_quotient_of(r, t),
    ensures
        r.same_as(t),
        r.num_states == t.num_states,
        forall|p: int| 0 <= p < t.num_states ==> #[trigger] class_index(t, p) == p && class_rep(t, p) == p,
{
    assert forall|p: int| 0 <= p < t.num_states implies #[trigger] class_index(t, p) == p && class_rep(t, p) == p by {
        lemma_reduced_indices(t, p);
    }
    lemma_reduced_indices(t, t.num_states as int);
    assert forall|p: int, a: int|
        0 <= p < r.num_states && 0 <= a < r.num_symbols implies #[trigger] r.next(p, a) == t.next(
        p,
        a,
    ) by {
        assert(r.next(class_index(t, p), a) == class_index(t, t.next(p, a)));
    }
    assert forall|p: int| 0 <= p < r.num_states implies #[trigger] r.is_final(p) == t.is_final(p) by {
        assert(r.is_final(class_index(t, p)) == t.is_final(p));
    }
}

/// Minimizing twice gives what minimizing once gives.
pub proof fn lemma_minimize_idempotent(t: &Table, once: &Table, twice: &Table)
    requires
        t.wf(),
        is_quotient_of(once, t),
        is_quotient_of(twice, once),
    ensures
        twice.same_as(once),
{
    lemma_quotient_reduced(t, once);
    lemma_quotient_of_reduced(once, twice);
}

/// An automaton and its minimization are equivalent.
pub proof fn lemma_minimized_equivalent(t: &Table, r: &Table)
    requires
        t.wf(),
        is_quotient_of(r, t),
    ensures
        languages_equal(t, r),
{
    assert forall|w: Seq<int>| #[trigger] t.is_word(w) implies t.accepts(w) == r.accepts(w) by {
        lemma_quotient_preserves_language(t, r, w);
    }
}

} // verus!
