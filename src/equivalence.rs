use vstd::prelude::*;
use crate::minimize::{count_set, lemma_count_set_bound, lemma_count_set_grows};
use crate::table::{
    Table, cell, languages_equal, lemma_cell, lemma_cell_injective, lemma_run_in_range, lemma_run_snoc,
};

verus! {

/// Some word leads `a` from its start to `p` and `b` from its start to `q`.
pub open spec fn pair_reachable(a: &Table, b: &Table, p: int, q: int) -> bool {
    exists|w: Seq<int>|
        #![trigger a.run(a.start as int, w), b.run(b.start as int, w)]
        a.is_word(w) && a.run(a.start as int, w) == p && b.run(b.start as int, w) == q
}

pub open spec fn in_frontier(f: Seq<(usize, usize)>, p: int, q: int) -> bool {
    exists|i: int| 0 <= i < f.len() && #[trigger] f[i].0 == p && f[i].1 == q
}

/// A visited pair agrees on finality and its successors are visited.
pub open spec fn pair_closed(a: &Table, b: &Table, seen: Seq<bool>, p: int, q: int) -> bool {
    &&& a.is_final(p) == b.is_final(q)
    &&& forall|s: int|
        0 <= s < a.num_symbols ==> #[trigger] seen[cell(
            b.num_states as int,
            a.next(p, s),
            b.next(q, s),
        )]
}

proof fn lemma_closed_agree(a: &Table, b: &Table, seen: Seq<bool>, p: int, q: int, w: Seq<int>)
    requires
        a.wf(),
        b.wf(),
        a.num_symbols == b.num_symbols,
        seen.len() == a.num_states * b.num_states,
        forall|x: int, y: int|
            0 <= x < a.num_states && 0 <= y < b.num_states && #[trigger] seen[cell(
                b.num_states as int,
                x,
                y,
            )] ==> pair_closed(a, b, seen, x, y),
        0 <= p < a.num_states,
        0 <= q < b.num_states,
        seen[cell(b.num_states as int, p, q)],
        a.is_word(w),
    ensures
        a.accepts_from(p, w) == b.accepts_from(q, w),
    decreases w.len(),
{
    assert(pair_closed(a, b, seen, p, q));
    if w.len() > 0 {
        let s = w[0];
        assert(0 <= s < a.num_symbols);
        assert(a.is_word(w.drop_first()));
        lemma_closed_agree(a, b, seen, a.next(p, s), b.next(q, s), w.drop_first());
    }
}

/// Whether the two automata read the same symbols and accept the same
/// words: the pairs of states reachable together from the two start states
/// are explored, and the answer is no as soon as one of them disagrees on
/// finality.
pub fn are_equivalent(a: &Table, b: &Table) -> (r: bool)
    requires
        a.wf(),
        b.wf(),
        a.num_states * b.num_states <= usize::MAX,
    ensures
        r == languages_equal(a, b),
{
    if a.num_symbols != b.num_symbols {
        return false;
    }
    let k = a.num_symbols;
    let rows = a.num_states;
    let width = b.num_states;
    let total = rows * width;
    let mut seen: Vec<bool> = Vec::new();
    for i in 0..total
        invariant
            seen@.len() == i,
            forall|j: int| 0 <= j < i ==> !#[trigger] seen@[j],
    {
        seen.push(false);
    }
    proof {
        lemma_cell(rows as int, width as int, a.start as int, b.start as int);
    }
    let start = a.start * width + b.start;
    proof {
        let e = Seq::<int>::empty();
        assert(a.is_word(e) && a.run(a.start as int, e) == a.start && b.run(b.start as int, e)
            == b.start);
        lemma_count_set_grows(seen@, start as int);
        assert forall|x: int, y: int|
            0 <= x < rows && 0 <= y < width && #[trigger] seen@.update(start as int, true)[cell(
                width as int,
                x,
                y,
            )] implies pair_reachable(a, b, x, y) by {
            lemma_cell(rows as int, width as int, x, y);
            if cell(width as int, x, y) == start {
                lemma_cell_injective(width as int, x, y, a.start as int, b.start as int);
            }
        }
    }
    seen.set(start, true);
    let mut frontier: Vec<(usize, usize)> = Vec::new();
    frontier.push((a.start, b.start));
    proof {
        assert(frontier@[0].0 == a.start && frontier@[0].1 == b.start);
        assert forall|x: int, y: int|
            0 <= x < rows && 0 <= y < width && #[trigger] seen@[cell(width as int, x, y)]
                implies in_frontier(frontier@, x, y) by {
            lemma_cell(rows as int, width as int, x, y);
            lemma_cell_injective(width as int, x, y, a.start as int, b.start as int);
        }
    }
    while frontier.len() > 0
        invariant
            a.wf(),
            b.wf(),
            k == a.num_symbols,
            k == b.num_symbols,
            rows == a.num_states,
            width == b.num_states,
            total == rows * width,
            total <= usize::MAX,
            seen@.len() == total,
            seen@[cell(width as int, a.start as int, b.start as int)],
            forall|i: int|
                0 <= i < frontier@.len() ==> (#[trigger] frontier@[i]).0 < rows && frontier@[i].1
                    < width && seen@[cell(width as int, frontier@[i].0 as int, frontier@[i].1 as int)],
            forall|x: int, y: int|
                0 <= x < rows && 0 <= y < width && #[trigger] seen@[cell(width as int, x, y)]
                    ==> pair_reachable(a, b, x, y),
            forall|x: int, y: int|
                0 <= x < rows && 0 <= y < width && #[trigger] seen@[cell(width as int, x, y)]
                    ==> pair_closed(a, b, seen@, x, y) || in_frontier(frontier@, x, y),
        decreases total - count_set(seen@) + frontier@.len(),
    {
        proof {
            lemma_count_set_bound(seen@);
        }
        let ghost f0 = frontier@;
        let (p, q) = match frontier.pop() {
            Some(pair) => pair,
            None => (0, 0),
        };
        proof {
            assert(frontier@ == f0.drop_last());
            assert(f0[f0.len() - 1] == (p, q));
        }
        if a.accepting[p] != b.accepting[q] {
            proof {
                lemma_cell(rows as int, width as int, p as int, q as int);
                let w = choose|w: Seq<int>|
                    #![trigger a.run(a.start as int, w), b.run(b.start as int, w)]
                    a.is_word(w) && a.run(a.start as int, w) == p && b.run(b.start as int, w) == q;
                assert(a.accepts(w) != b.accepts(w));
            }
            return false;
        }
        let ghost count0 = count_set(seen@);
        let ghost len0 = frontier@.len();
        let ghost seen0 = seen@;
        let ghost f1 = frontier@;
        for s in 0..k
            invariant
                a.wf(),
                b.wf(),
                k == a.num_symbols,
                k == b.num_symbols,
                rows == a.num_states,
                width == b.num_states,
                total == rows * width,
                total <= usize::MAX,
                p < rows,
                q < width,
                seen@.len() == total,
                pair_reachable(a, b, p as int, q as int),
                forall|j: int| 0 <= j < total && #[trigger] seen0[j] ==> seen@[j],
                count_set(seen@) - frontier@.len() == count0 - len0,
                frontier@.len() >= f1.len(),
                forall|i: int| 0 <= i < f1.len() ==> #[trigger] frontier@[i] == f1[i],
                forall|i: int|
                    0 <= i < frontier@.len() ==> (#[trigger] frontier@[i]).0 < rows
                        && frontier@[i].1 < width && seen@[cell(
                        width as int,
                        frontier@[i].0 as int,
                        frontier@[i].1 as int,
                    )],
                forall|x: int, y: int|
                    0 <= x < rows && 0 <= y < width && #[trigger] seen@[cell(width as int, x, y)]
                        ==> pair_reachable(a, b, x, y),
                forall|x: int, y: int|
                    0 <= x < rows && 0 <= y < width && #[trigger] seen@[cell(width as int, x, y)]
                        && !seen0[cell(width as int, x, y)] ==> in_frontier(frontier@, x, y),
                forall|j: int|
                    0 <= j < s ==> #[trigger] seen@[cell(
                        width as int,
                        a.next(p as int, j),
                        b.next(q as int, j),
                    )],
        {
            let ghost prev = seen@;
            let p2 = a.step(p, s);
            let q2 = b.step(q, s);
            proof {
                lemma_cell(rows as int, width as int, p2 as int, q2 as int);
            }
            let c = p2 * width + q2;
            if !seen[c] {
                let ghost w = choose|w: Seq<int>|
                    #![trigger a.run(a.start as int, w), b.run(b.start as int, w)]
                    a.is_word(w) && a.run(a.start as int, w) == p && b.run(b.start as int, w) == q;
                proof {
                    lemma_run_snoc(a, a.start as int, w, s as int);
                    lemma_run_snoc(b, b.start as int, w, s as int);
                    assert(a.is_word(w.push(s as int)));
                    assert(a.run(a.start as int, w.push(s as int)) == p2);
                    assert(b.run(b.start as int, w.push(s as int)) == q2);
                    lemma_count_set_grows(seen@, c as int);
                }
                let ghost before = seen@;
                let ghost fb = frontier@;
                seen.set(c, true);
                frontier.push((p2, q2));
                proof {
                    let last = frontier@.len() - 1;
                    assert(frontier@[last] == (p2, q2));
                    assert forall|x: int, y: int|
                        0 <= x < rows && 0 <= y < width && #[trigger] seen@[cell(width as int, x, y)]
                            implies pair_reachable(a, b, x, y) by {
                        lemma_cell(rows as int, width as int, x, y);
                        if cell(width as int, x, y) == c {
                            lemma_cell_injective(width as int, x, y, p2 as int, q2 as int);
                            assert(a.run(a.start as int, w.push(s as int)) == x);
                        } else {
                            assert(before[cell(width as int, x, y)]);
                        }
                    }
                    assert forall|x: int, y: int|
                        0 <= x < rows && 0 <= y < width && #[trigger] seen@[cell(width as int, x, y)]
                            && !seen0[cell(width as int, x, y)] implies in_frontier(frontier@, x, y) by {
                        lemma_cell(rows as int, width as int, x, y);
                        if cell(width as int, x, y) == c {
                            lemma_cell_injective(width as int, x, y, p2 as int, q2 as int);
                            assert(frontier@[last].0 == x && frontier@[last].1 == y);
                        } else {
                            assert(before[cell(width as int, x, y)]);
                            let i = choose|i: int|
                                0 <= i < fb.len() && #[trigger] fb[i].0 == x && fb[i].1 == y;
                            assert(frontier@[i] == fb[i]);
                        }
                    }
                    assert forall|i: int| 0 <= i < frontier@.len() implies (#[trigger] frontier@[i]).0
                        < rows && frontier@[i].1 < width && seen@[cell(
                        width as int,
                        frontier@[i].0 as int,
                        frontier@[i].1 as int,
                    )] by {
                        if i < last {
                            assert(frontier@[i] == fb[i]);
                            lemma_cell(rows as int, width as int, fb[i].0 as int, fb[i].1 as int);
                        }
                    }
                }
            }
            proof {
                assert(seen@[c as int]);
                assert forall|j: int| 0 <= j < s + 1 implies #[trigger] seen@[cell(
                    width as int,
                    a.next(p as int, j),
                    b.next(q as int, j),
                )] by {
                    if j < s {
                        lemma_cell(rows as int, width as int, a.next(p as int, j), b.next(q as int, j));
                        assert(prev[cell(width as int, a.next(p as int, j), b.next(q as int, j))]);
                    }
                }
            }
        }
        proof {
            lemma_cell(rows as int, width as int, p as int, q as int);
            lemma_cell(rows as int, width as int, a.start as int, b.start as int);
            assert(pair_closed(a, b, seen@, p as int, q as int));
            assert forall|x: int, y: int|
                0 <= x < rows && 0 <= y < width && #[trigger] seen@[cell(width as int, x, y)]
                    implies pair_closed(a, b, seen@, x, y) || in_frontier(frontier@, x, y) by {
                lemma_cell(rows as int, width as int, x, y);
                if seen0[cell(width as int, x, y)] {
                    if x == p && y == q {
                    } else if pair_closed(a, b, seen0, x, y) {
                        assert forall|s: int| 0 <= s < a.num_symbols implies #[trigger] seen@[cell(
                            b.num_states as int,
                            a.next(x, s),
                            b.next(y, s),
                        )] by {
                            lemma_cell(rows as int, width as int, a.next(x, s), b.next(y, s));
                            assert(seen0[cell(b.num_states as int, a.next(x, s), b.next(y, s))]);
                        }
                    } else {
                        assert(in_frontier(f0, x, y));
                        let i = choose|i: int|
                            0 <= i < f0.len() && #[trigger] f0[i].0 == x && f0[i].1 == y;
                        assert(i != f0.len() - 1);
                        assert(f1[i] == f0[i]);
                        assert(frontier@[i] == f1[i]);
                    }
                }
            }
        }
    }
    proof {
        assert forall|w: Seq<int>| #[trigger] a.is_word(w) implies a.accepts(w) == b.accepts(w) by {
            lemma_closed_agree(a, b, seen@, a.start as int, b.start as int, w);
        }
    }
    true
}

/// Every automaton is equivalent to itself.
pub proof fn lemma_equivalent_reflexive(a: &Table)
    ensures
        languages_equal(a, a),
{
}

/// Equivalence does not depend on the order of the two automata.
pub proof fn lemma_equivalent_symmetric(a: &Table, b: &Table)
    ensures
        languages_equal(a, b) == languages_equal(b, a),
{
    if languages_equal(a, b) {
        assert forall|w: Seq<int>| #[trigger] b.is_word(w) implies b.accepts(w) == a.accepts(w) by {
            assert(a.is_word(w));
        }
    }
    if languages_equal(b, a) {
        assert forall|w: Seq<int>| #[trigger] a.is_word(w) implies a.accepts(w) == b.accepts(w) by {
            assert(b.is_word(w));
        }
    }
}

proof fn lemma_embedded_run(a: &Table, b: &Table, f: Seq<int>, p: int, w: Seq<int>)
    requires
        a.wf(),
        b.wf(),
        f.len() == a.num_states,
        forall|x: int| 0 <= x < a.num_states ==> 0 <= #[trigger] f[x] < b.num_states,
        forall|x: int, s: int|
            0 <= x < a.num_states && 0 <= s < a.num_symbols ==> #[trigger] b.next(f[x], s) == f[a.next(
                x,
                s,
            )],
        forall|x: int| 0 <= x < a.num_states ==> #[trigger] b.is_final(f[x]) == a.is_final(x),
        0 <= p < a.num_states,
        a.is_word(w),
    ensures
        b.run(f[p], w) == f[a.run(p, w)],
        b.accepts_from(f[p], w) == a.accepts_from(p, w),
    decreases w.len(),
{
    if w.len() > 0 {
        assert(0 <= w[0] < a.num_symbols);
        assert(b.next(f[p], w[0]) == f[a.next(p, w[0])]);
        assert(a.is_word(w.drop_first()));
        lemma_embedded_run(a, b, f, a.next(p, w[0]), w.drop_first());
    }
    lemma_run_in_range(a, p, w);
}

/// Only the states reachable from the start matter: an automaton laid into
/// a larger one by `f`, start onto start, with the same transitions and
/// finality on its states, accepts the same words as the larger one,
/// whatever the larger one's other states do.
pub proof fn lemma_embedding_equivalent(a: &Table, b: &Table, f: Seq<int>)
    requires
        a.wf(),
        b.wf(),
        a.num_symbols == b.num_symbols,
        f.len() == a.num_states,
        forall|x: int| 0 <= x < a.num_states ==> 0 <= #[trigger] f[x] < b.num_states,
        b.start == f[a.start as int],
        forall|x: int, s: int|
            0 <= x < a.num_states && 0 <= s < a.num_symbols ==> #[trigger] b.next(f[x], s) == f[a.next(
                x,
                s,
            )],
        forall|x: int| 0 <= x < a.num_states ==> #[trigger] b.is_final(f[x]) == a.is_final(x),
    ensures
        languages_equal(a, b),
{
    assert forall|w: Seq<int>| #[trigger] a.is_word(w) implies a.accepts(w) == b.accepts(w) by {
        lemma_embedded_run(a, b, f, a.start as int, w);
    }
}

} // verus!
