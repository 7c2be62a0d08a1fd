use vstd::prelude::*;
use crate::quotient::{
    class_count, class_index, class_rep, is_class_rep, is_quotient_of, lemma_class_index,
    lemma_class_rep, reps_below,
};
use crate::table::{Table, lemma_equivalent_successors, lemma_separate_predecessors};

verus! {

/// Number of entries of `s` that are set.
pub open spec fn count_set(s: Seq<bool>) -> nat
    decreases s.len(),
{
    if s.len() == 0 {
        0
    } else {
        count_set(s.drop_last()) + if s.last() {
            1nat
        } else {
            0nat
        }
    }
}

pub proof fn lemma_count_set_bound(s: Seq<bool>)
    ensures
        count_set(s) <= s.len(),
    decreases s.len(),
{
    if s.len() > 0 {
        lemma_count_set_bound(s.drop_last());
    }
}

pub proof fn lemma_count_set_grows(s: Seq<bool>, i: int)
    requires
        0 <= i < s.len(),
        !s[i],
    ensures
        count_set(s.update(i, true)) == count_set(s) + 1,
    decreases s.len(),
{
    let u = s.update(i, true);
    if i == s.len() - 1 {
        assert(u.drop_last() =~= s.drop_last());
    } else {
        assert(u.drop_last() =~= s.drop_last().update(i, true));
        lemma_count_set_grows(s.drop_last(), i);
    }
}

/// Where the unordered pair `{p, q}` is stored in an `n * n` table: the
/// smaller state picks the row, so both orders share one entry.
pub open spec fn slot(n: int, p: int, q: int) -> int {
    if p <= q {
        p * n + q
    } else {
        q * n + p
    }
}

proof fn lemma_slot_bounds(n: int, p: int, q: int)
    requires
        0 <= p < n,
        0 <= q < n,
    ensures
        0 <= slot(n, p, q) < n * n,
{
    assert(0 <= p * n + q < n * n) by (nonlinear_arith)
        requires
            0 <= p < n,
            0 <= q < n,
    ;
    assert(0 <= q * n + p < n * n) by (nonlinear_arith)
        requires
            0 <= p < n,
            0 <= q < n,
    ;
}

proof fn lemma_slot_injective(n: int, p: int, q: int, r: int, s: int)
    requires
        0 <= p <= q < n,
        0 <= r <= s < n,
        p * n + q == r * n + s,
    ensures
        p == r,
        q == s,
{
    if p < r {
        assert(p * n + q < r * n + s) by (nonlinear_arith)
            requires
                p < r,
                0 <= q < n,
                0 <= s,
        ;
    } else if r < p {
        assert(r * n + s < p * n + q) by (nonlinear_arith)
            requires
                r < p,
                0 <= s < n,
                0 <= q,
        ;
    }
}

fn pair_slot(n: usize, p: usize, q: usize) -> (r: usize)
    requires
        p < n,
        q < n,
        n * n <= usize::MAX,
    ensures
        r as int == slot(n as int, p as int, q as int),
        r < n * n,
{
    proof {
        lemma_slot_bounds(n as int, p as int, q as int);
    }
    if p <= q {
        p * n + q
    } else {
        q * n + p
    }
}

/// Every marked pair is distinguishable.
pub open spec fn marks_sound(t: &Table, m: Seq<bool>) -> bool {
    forall|p: int, q: int|
        0 <= p < t.num_states && 0 <= q < t.num_states && #[trigger] m[slot(
            t.num_states as int,
            p,
            q,
        )] ==> !t.equivalent_states(p, q)
}

/// An unmarked pair agrees on finality and has unmarked successors.
pub open spec fn unmarked_closed(t: &Table, m: Seq<bool>, p: int, q: int) -> bool {
    &&& t.is_final(p) == t.is_final(q)
    &&& forall|a: int|
        0 <= a < t.num_symbols ==> !m[slot(t.num_states as int, #[trigger] t.next(p, a), t.next(q, a))]
}

proof fn lemma_unmarked_agree(t: &Table, m: Seq<bool>, p: int, q: int, w: Seq<int>)
    requires
        t.wf(),
        m.len() == t.num_states * t.num_states,
        forall|x: int, y: int|
            0 <= x < t.num_states && 0 <= y < t.num_states && !#[trigger] m[slot(
                t.num_states as int,
                x,
                y,
            )] ==> unmarked_closed(t, m, x, y),
        0 <= p < t.num_states,
        0 <= q < t.num_states,
        !m[slot(t.num_states as int, p, q)],
        t.is_word(w),
    ensures
        t.accepts_from(p, w) == t.accepts_from(q, w),
    decreases w.len(),
{
    assert(unmarked_closed(t, m, p, q));
    if w.len() > 0 {
        let a = w[0];
        assert(0 <= a < t.num_symbols);
        assert(t.is_word(w.drop_first()));
        lemma_unmarked_agree(t, m, t.next(p, a), t.next(q, a), w.drop_first());
    }
}

/// For each pair of states, stored at its `slot`, whether some word
/// separates them: pairs that differ in finality are marked first, then a
/// pair is marked whenever some symbol leads it to a marked pair, until no
/// pair changes.
pub fn distinguishable_pairs(t: &Table) -> (m: Vec<bool>)
    requires
        t.wf(),
        t.num_states * t.num_states <= usize::MAX,
    ensures
        m@.len() == t.num_states * t.num_states,
        forall|p: int, q: int|
            0 <= p < t.num_states && 0 <= q < t.num_states ==> #[trigger] m@[slot(
                t.num_states as int,
                p,
                q,
            )] == !t.equivalent_states(p, q),
{
    let n = t.num_states;
    let k = t.num_symbols;
    let nn = n * n;
    let mut m: Vec<bool> = Vec::new();
    for i in 0..nn
        invariant
            m@.len() == i,
            forall|j: int| 0 <= j < i ==> !#[trigger] m@[j],
    {
        m.push(false);
    }
    proof {
        assert forall|x: int, y: int| 0 <= x < n && 0 <= y < n implies !#[trigger] m@[slot(
            n as int,
            x,
            y,
        )] by {
            lemma_slot_bounds(n as int, x, y);
        }
    }
    // Pairs that differ in finality.
    for p in 0..n
        invariant
            t.wf(),
            n == t.num_states,
            nn == n * n,
            nn <= usize::MAX,
            m@.len() == nn,
            marks_sound(t, m@),
            forall|x: int, y: int|
                0 <= x < p && x < y < n && !#[trigger] m@[slot(n as int, x, y)] ==> t.is_final(x)
                    == t.is_final(y),
            forall|x: int, y: int|
                p <= x < y < n ==> !#[trigger] m@[slot(n as int, x, y)],
    {
        for q in (p + 1)..n
            invariant
                t.wf(),
                n == t.num_states,
                nn == n * n,
                nn <= usize::MAX,
                p < n,
                m@.len() == nn,
                marks_sound(t, m@),
                forall|x: int, y: int|
                    0 <= x < p && x < y < n && !#[trigger] m@[slot(n as int, x, y)]
                        ==> t.is_final(x) == t.is_final(y),
                forall|y: int|
                    p < y < q && !#[trigger] m@[slot(n as int, p as int, y)] ==> t.is_final(
                        p as int,
                    ) == t.is_final(y),
                forall|x: int, y: int|
                    (p < x < y < n || (x == p && q <= y < n)) ==> !#[trigger] m@[slot(
                        n as int,
                        x,
                        y,
                    )],
        {
            let s = pair_slot(n, p, q);
            if t.accepting[p] != t.accepting[q] {
                proof {
                    assert(t.accepts_from(p as int, Seq::empty()) != t.accepts_from(
                        q as int,
                        Seq::empty(),
                    ));
                    assert(t.is_word(Seq::<int>::empty()));
                    assert forall|x: int, y: int|
                        0 <= x < n && 0 <= y < n && #[trigger] m@.update(s as int, true)[slot(
                            n as int,
                            x,
                            y,
                        )] implies !t.equivalent_states(x, y) by {
                        lemma_slot_bounds(n as int, x, y);
                        if slot(n as int, x, y) != s {
                            assert(m@[slot(n as int, x, y)]);
                        } else if x <= y {
                            lemma_slot_injective(n as int, x, y, p as int, q as int);
                        } else {
                            lemma_slot_injective(n as int, y, x, p as int, q as int);
                        }
                    }
                }
                m.set(s, true);
                proof {
                    assert forall|x: int, y: int|
                        (p < x < y < n || (x == p && q + 1 <= y < n)) implies !#[trigger] m@[slot(
                        n as int,
                        x,
                        y,
                    )] by {
                        lemma_slot_bounds(n as int, x, y);
                        if slot(n as int, x, y) == s {
                            lemma_slot_injective(n as int, x, y, p as int, q as int);
                        }
                    }
                    assert forall|x: int, y: int|
                        0 <= x < p && x < y < n && !#[trigger] m@[slot(n as int, x, y)]
                            implies t.is_final(x) == t.is_final(y) by {
                        lemma_slot_bounds(n as int, x, y);
                        if slot(n as int, x, y) == s {
                            lemma_slot_injective(n as int, x, y, p as int, q as int);
                        }
                    }
                    assert forall|y: int|
                        p < y < q + 1 && !#[trigger] m@[slot(n as int, p as int, y)]
                            implies t.is_final(p as int) == t.is_final(y) by {
                        lemma_slot_bounds(n as int, p as int, y);
                        if slot(n as int, p as int, y) == s {
                            lemma_slot_injective(n as int, p as int, y, p as int, q as int);
                        }
                    }
                }
            }
        }
    }
    proof {
        assert forall|x: int, y: int|
            0 <= x < n && 0 <= y < n && !#[trigger] m@[slot(n as int, x, y)] implies t.is_final(x)
                == t.is_final(y) by {
            if y < x {
                assert(!m@[slot(n as int, y, x)]);
            }
        }
    }
    // Propagate backwards until no pair changes.
    loop
        invariant
            t.wf(),
            n == t.num_states,
            k == t.num_symbols,
            nn == n * n,
            nn <= usize::MAX,
            m@.len() == nn,
            marks_sound(t, m@),
            forall|x: int, y: int|
                0 <= x < n && 0 <= y < n && !#[trigger] m@[slot(n as int, x, y)] ==> t.is_final(x)
                    == t.is_final(y),
        ensures
            m@.len() == nn,
            marks_sound(t, m@),
            forall|x: int, y: int|
                0 <= x < n && 0 <= y < n && !#[trigger] m@[slot(n as int, x, y)]
                    ==> unmarked_closed(t, m@, x, y),
        decreases nn - count_set(m@),
    {
        let ghost before = m@;
        let mut changed = false;
        for p in 0..n
            invariant
                t.wf(),
                n == t.num_states,
                k == t.num_symbols,
                nn == n * n,
                nn <= usize::MAX,
                m@.len() == nn,
                marks_sound(t, m@),
                forall|x: int, y: int|
                    0 <= x < n && 0 <= y < n && !#[trigger] m@[slot(n as int, x, y)]
                        ==> t.is_final(x) == t.is_final(y),
                count_set(m@) >= count_set(before),
                changed ==> count_set(m@) > count_set(before),
                !changed ==> m@ == before,
                !changed ==> forall|x: int, y: int|
                    0 <= x < p && x < y < n && !#[trigger] m@[slot(n as int, x, y)]
                        ==> unmarked_closed(t, m@, x, y),
        {
            for q in (p + 1)..n
                invariant
                    t.wf(),
                    n == t.num_states,
                    k == t.num_symbols,
                    nn == n * n,
                    nn <= usize::MAX,
                    p < n,
                    m@.len() == nn,
                    marks_sound(t, m@),
                    forall|x: int, y: int|
                        0 <= x < n && 0 <= y < n && !#[trigger] m@[slot(n as int, x, y)]
                            ==> t.is_final(x) == t.is_final(y),
                    count_set(m@) >= count_set(before),
                    changed ==> count_set(m@) > count_set(before),
                    !changed ==> m@ == before,
                    !changed ==> forall|x: int, y: int|
                        0 <= x < p && x < y < n && !#[trigger] m@[slot(n as int, x, y)]
                            ==> unmarked_closed(t, m@, x, y),
                    !changed ==> forall|y: int|
                        p < y < q && !#[trigger] m@[slot(n as int, p as int, y)]
                            ==> unmarked_closed(t, m@, p as int, y),
            {
                let s = pair_slot(n, p, q);
                if !m[s] {
                    let mut a: usize = 0;
                    let mut hit = false;
                    let ghost mut witness: int = 0;
                    while a < k && !hit
                        invariant
                            t.wf(),
                            n == t.num_states,
                            k == t.num_symbols,
                            nn == n * n,
                            nn <= usize::MAX,
                            p < n,
                            q < n,
                            a <= k,
                            m@.len() == nn,
                            !hit ==> forall|b: int|
                                0 <= b < a ==> !#[trigger] m@[slot(
                                    n as int,
                                    t.next(p as int, b),
                                    t.next(q as int, b),
                                )],
                            hit ==> 0 <= witness < k && m@[slot(
                                n as int,
                                t.next(p as int, witness),
                                t.next(q as int, witness),
                            )],
                        decreases k - a,
                    {
                        let sp = t.step(p, a);
                        let sq = t.step(q, a);
                        let ss = pair_slot(n, sp, sq);
                        if m[ss] {
                            hit = true;
                            proof {
                                witness = a as int;
                            }
                        }
                        a = a + 1;
                    }
                    if hit {
                        proof {
                            let sp = t.next(p as int, witness);
                            let sq = t.next(q as int, witness);
                            assert(!t.equivalent_states(sp, sq));
                            lemma_separate_predecessors(t, p as int, q as int, witness);
                            lemma_count_set_grows(m@, s as int);
                            assert forall|x: int, y: int|
                                0 <= x < n && 0 <= y < n && #[trigger] m@.update(s as int, true)[slot(
                                    n as int,
                                    x,
                                    y,
                                )] implies !t.equivalent_states(x, y) by {
                                lemma_slot_bounds(n as int, x, y);
                                if slot(n as int, x, y) != s {
                                    assert(m@[slot(n as int, x, y)]);
                                } else if x <= y {
                                    lemma_slot_injective(n as int, x, y, p as int, q as int);
                                } else {
                                    lemma_slot_injective(n as int, y, x, p as int, q as int);
                                }
                            }
                        }
                        let ghost prev = m@;
                        m.set(s, true);
                        changed = true;
                        proof {
                            assert forall|x: int, y: int|
                                0 <= x < n && 0 <= y < n && !#[trigger] m@[slot(n as int, x, y)]
                                    implies t.is_final(x) == t.is_final(y) by {
                                lemma_slot_bounds(n as int, x, y);
                                assert(!prev[slot(n as int, x, y)]);
                            }
                        }
                    }
                }
            }
        }
        if !changed {
            proof {
                assert forall|x: int, y: int|
                    0 <= x < n && 0 <= y < n && !#[trigger] m@[slot(n as int, x, y)]
                        implies unmarked_closed(t, m@, x, y) by {
                    if x < y {
                    } else if y < x {
                        assert(!m@[slot(n as int, y, x)]);
                        assert(unmarked_closed(t, m@, y, x));
                        assert forall|a: int| 0 <= a < t.num_symbols implies !m@[slot(
                            n as int,
                            #[trigger] t.next(x, a),
                            t.next(y, a),
                        )] by {
                            assert(!m@[slot(n as int, t.next(y, a), t.next(x, a))]);
                        }
                    } else {
                        assert forall|a: int| 0 <= a < t.num_symbols implies !m@[slot(
                            n as int,
                            #[trigger] t.next(x, a),
                            t.next(y, a),
                        )] by {
                            let z = t.next(x, a);
                            assert(t.equivalent_states(z, z));
                        }
                    }
                }
            }
            break;
        }
        proof {
            lemma_count_set_bound(m@);
        }
    }
    proof {
        assert forall|p: int, q: int|
            0 <= p < n && 0 <= q < n implies #[trigger] m@[slot(n as int, p, q)]
                == !t.equivalent_states(p, q) by {
            if !m@[slot(n as int, p, q)] {
                assert forall|w: Seq<int>| #[trigger]
                    t.is_word(w) implies t.accepts_from(p, w) == t.accepts_from(q, w) by {
                    lemma_unmarked_agree(t, m@, p, q, w);
                }
            }
        }
    }
    m
}

/// The minimal automaton of `t`: the quotient by state equivalence, whose
/// states are the classes of equivalent states, numbered in the order of
/// their smallest members.
///
/// Beside the quotient comes, for each of its states, the representative
/// of the class it stands for.
pub fn minimize_table(t: &Table) -> (r: (Table, Vec<usize>))
    requires
        t.wf(),
        t.num_states * t.num_states <= usize::MAX,
    ensures
        is_quotient_of(&r.0, t),
        r.1@.len() == r.0.num_states,
        forall|i: int|
            0 <= i < r.1@.len() ==> #[trigger] r.1@[i] < t.num_states && is_class_rep(t, r.1@[i] as int)
                && class_index(t, r.1@[i] as int) == i,
        forall|i: int, j: int| 0 <= i < j < r.1@.len() ==> #[trigger] r.1@[i] < #[trigger] r.1@[j],
{
    let n = t.num_states;
    let k = t.num_symbols;
    let m = distinguishable_pairs(t);
    // The representative of each state: the first state it cannot be told from.
    let mut rep: Vec<usize> = Vec::new();
    for p in 0..n
        invariant
            t.wf(),
            n == t.num_states,
            n * n <= usize::MAX,
            m@.len() == n * n,
            forall|x: int, y: int|
                0 <= x < n && 0 <= y < n ==> #[trigger] m@[slot(n as int, x, y)]
                    == !t.equivalent_states(x, y),
            rep@.len() == p,
            forall|x: int| 0 <= x < p ==> #[trigger] rep@[x] as int == class_rep(t, x),
    {
        let mut q: usize = 0;
        while q < p
            invariant
                t.wf(),
                n == t.num_states,
                n * n <= usize::MAX,
                p < n,
                q <= p,
                m@.len() == n * n,
                forall|x: int, y: int|
                    0 <= x < n && 0 <= y < n ==> #[trigger] m@[slot(n as int, x, y)]
                        == !t.equivalent_states(x, y),
                forall|x: int| 0 <= x < q ==> !#[trigger] t.equivalent_states(x, p as int),
            ensures
                q <= p,
                forall|x: int| 0 <= x < q ==> !#[trigger] t.equivalent_states(x, p as int),
                q == p || t.equivalent_states(q as int, p as int),
            decreases p - q,
        {
            let s = pair_slot(n, q, p);
            if !m[s] {
                break;
            }
            q = q + 1;
        }
        proof {
            lemma_class_rep(t, p as int);
            assert(t.equivalent_states(p as int, p as int));
            assert(t.equivalent_states(q as int, p as int));
            let r = class_rep(t, p as int);
            if q < r {
                assert(!t.equivalent_states(q as int, p as int));
            }
            if r < q {
                assert(!t.equivalent_states(r, p as int));
            }
        }
        rep.push(q);
    }
    // The index of each state's class.
    let mut index: Vec<usize> = Vec::new();
    let mut count: usize = 0;
    for p in 0..n
        invariant
            t.wf(),
            n == t.num_states,
            rep@.len() == n,
            forall|x: int| 0 <= x < n ==> #[trigger] rep@[x] as int == class_rep(t, x),
            index@.len() == p,
            count == reps_below(t, p as int),
            count <= p,
            forall|x: int| 0 <= x < p ==> #[trigger] index@[x] as int == class_index(t, x),
    {
        proof {
            lemma_class_rep(t, p as int);
        }
        if rep[p] == p {
            index.push(count);
            count = count + 1;
        } else {
            let i = index[rep[p]];
            index.push(i);
        }
    }
    // One row per class, in the order of the representatives.
    let mut delta: Vec<Vec<usize>> = Vec::new();
    let mut accepting: Vec<bool> = Vec::new();
    let mut members: Vec<usize> = Vec::new();
    for p in 0..n
        invariant
            members@.len() == delta@.len(),
            forall|i: int| 0 <= i < members@.len() ==> #[trigger] members@[i] < p,
            forall|i: int, j: int|
                0 <= i < j < members@.len() ==> #[trigger] members@[i] < #[trigger] members@[j],
            forall|i: int|
                0 <= i < members@.len() ==> #[trigger] members@[i] < n && is_class_rep(
                    t,
                    members@[i] as int,
                ) && class_index(t, members@[i] as int) == i,
            t.wf(),
            n == t.num_states,
            k == t.num_symbols,
            rep@.len() == n,
            forall|x: int| 0 <= x < n ==> #[trigger] rep@[x] as int == class_rep(t, x),
            index@.len() == n,
            forall|x: int| 0 <= x < n ==> #[trigger] index@[x] as int == class_index(t, x),
            count == class_count(t),
            delta@.len() == reps_below(t, p as int),
            accepting@.len() == delta@.len(),
            forall|i: int|
                0 <= i < delta@.len() ==> (#[trigger] delta@[i])@.len() == k && forall|a: int|
                    0 <= a < k ==> #[trigger] delta@[i]@[a] < count,
            forall|x: int|
                #![trigger is_class_rep(t, x)]
                0 <= x < p && is_class_rep(t, x) ==> {
                    &&& accepting@[reps_below(t, x) as int] == t.is_final(x)
                    &&& forall|a: int|
                        0 <= a < k ==> #[trigger] delta@[reps_below(t, x) as int]@[a] as int
                            == class_index(t, t.next(x, a))
                },
    {
        if rep[p] == p {
            let mut row: Vec<usize> = Vec::new();
            for a in 0..k
                invariant
                    t.wf(),
                    n == t.num_states,
                    k == t.num_symbols,
                    p < n,
                    index@.len() == n,
                    forall|x: int| 0 <= x < n ==> #[trigger] index@[x] as int == class_index(t, x),
                    count == class_count(t),
                    row@.len() == a,
                    forall|b: int|
                        0 <= b < a ==> #[trigger] row@[b] as int == class_index(t, t.next(p as int, b)),
                    forall|b: int| 0 <= b < a ==> #[trigger] row@[b] < count,
            {
                let target = t.step(p, a);
                proof {
                    lemma_class_index(t, target as int, target as int);
                }
                row.push(index[target]);
            }
            let ghost old_delta = delta@;
            let ghost old_accepting = accepting@;
            delta.push(row);
            accepting.push(t.accepting[p]);
            members.push(p);
            proof {
                lemma_class_rep(t, p as int);
                assert forall|x: int|
                    #![trigger is_class_rep(t, x)]
                    0 <= x < p + 1 && is_class_rep(t, x) implies {
                        &&& accepting@[reps_below(t, x) as int] == t.is_final(x)
                        &&& forall|a: int|
                            0 <= a < k ==> #[trigger] delta@[reps_below(t, x) as int]@[a] as int
                                == class_index(t, t.next(x, a))
                    } by {
                    if x < p {
                        crate::quotient::lemma_reps_below_strict(t, x, p as int);
                        assert(delta@[reps_below(t, x) as int] == old_delta[reps_below(t, x) as int]);
                        assert(accepting@[reps_below(t, x) as int] == old_accepting[reps_below(t, x) as int]);
                    } else {
                        assert(delta@[reps_below(t, x) as int] == row);
                    }
                }
            }
        }
    }
    proof {
        lemma_class_index(t, 0, 0);
        lemma_class_index(t, t.start as int, t.start as int);
    }
    let r = Table { num_states: count, num_symbols: k, delta, start: index[t.start], accepting };
    proof {
        assert forall|p: int, a: int|
            0 <= p < t.num_states && 0 <= a < t.num_symbols implies #[trigger] r.next(
            class_index(t, p),
            a,
        ) == class_index(t, t.next(p, a)) by {
            lemma_class_rep(t, p);
            let x = class_rep(t, p);
            assert(is_class_rep(t, x));
            lemma_equivalent_successors(t, x, p, a);
            lemma_class_index(t, t.next(x, a), t.next(p, a));
        }
        assert(members@.len() == r.num_states);
        assert forall|p: int| 0 <= p < t.num_states implies #[trigger] r.is_final(class_index(t, p))
            == t.is_final(p) by {
            lemma_class_rep(t, p);
            let x = class_rep(t, p);
            assert(is_class_rep(t, x));
            let e = Seq::<int>::empty();
            assert(t.is_word(e));
            assert(t.accepts_from(x, e) == t.accepts_from(p, e));
        }
    }
    (r, members)
}

} // verus!
