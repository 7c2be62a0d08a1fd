use vstd::prelude::*;

verus! {

/// A complete deterministic automaton over dense indices: states are
/// `0..num_states`, symbols are `0..num_symbols`, and `delta[p][a]` is the
/// state reached from `p` on symbol `a`.
pub struct Table {
    pub num_states: usize,
    pub num_symbols: usize,
    pub delta: Vec<Vec<usize>>,
    pub start: usize,
    pub accepting: Vec<bool>,
}

impl Table {
    /// Every row is total, every target and the start state are states.
    pub open spec fn wf(&self) -> bool {
        &&& self.num_states > 0
        &&& self.delta@.len() == self.num_states
        &&& self.accepting@.len() == self.num_states
        &&& self.start < self.num_states
        &&& forall|p: int|
            0 <= p < self.num_states ==> #[trigger] self.delta@[p]@.len() == self.num_symbols
        &&& forall|p: int, a: int|
            0 <= p < self.num_states && 0 <= a < self.num_symbols ==> #[trigger] self.delta@[p]@[a]
                < self.num_states
    }

    pub open spec fn next(&self, p: int, a: int) -> int {
        self.delta@[p]@[a] as int
    }

    pub open spec fn is_final(&self, p: int) -> bool {
        self.accepting@[p]
    }

    /// A word is a sequence of symbol indices.
    pub open spec fn is_word(&self, w: Seq<int>) -> bool {
        forall|i: int| 0 <= i < w.len() ==> 0 <= #[trigger] w[i] < self.num_symbols
    }

    /// The state reached from `p` after reading `w`.
    pub open spec fn run(&self, p: int, w: Seq<int>) -> int
        decreases w.len(),
    {
        if w.len() == 0 {
            p
        } else {
            self.run(self.next(p, w[0]), w.drop_first())
        }
    }

    pub open spec fn accepts_from(&self, p: int, w: Seq<int>) -> bool {
        self.is_final(self.run(p, w))
    }

    pub open spec fn accepts(&self, w: Seq<int>) -> bool {
        self.accepts_from(self.start as int, w)
    }

    /// Two states accept the same words.
    pub open spec fn equivalent_states(&self, p: int, q: int) -> bool {
        forall|w: Seq<int>| #[trigger]
            self.is_word(w) ==> self.accepts_from(p, w) == self.accepts_from(q, w)
    }

    /// No two distinct states accept the same words.
    pub open spec fn is_reduced(&self) -> bool {
        forall|p: int, q: int|
            0 <= p < self.num_states && 0 <= q < self.num_states && p != q
                ==> !#[trigger] self.equivalent_states(p, q)
    }

    /// Field-by-field equality of the automata that two tables describe.
    pub open spec fn same_as(&self, other: &Table) -> bool {
        &&& self.num_states == other.num_states
        &&& self.num_symbols == other.num_symbols
        &&& self.start == other.start
        &&& forall|p: int| 0 <= p < self.num_states ==> #[trigger] self.is_final(p) == other.is_final(p)
        &&& forall|p: int, a: int|
            0 <= p < self.num_states && 0 <= a < self.num_symbols ==> #[trigger] self.next(p, a)
                == other.next(p, a)
    }

    pub fn step(&self, p: usize, a: usize) -> (r: usize)
        requires
            self.wf(),
            p < self.num_states,
            a < self.num_symbols,
        ensures
            r as int == self.next(p as int, a as int),
            r < self.num_states,
    {
        self.delta[p][a]
    }
}

/// Tables that describe the same automaton run alike.
pub proof fn lemma_same_as_run(a: &Table, b: &Table, p: int, w: Seq<int>)
    requires
        a.wf(),
        a.same_as(b),
        0 <= p < a.num_states,
        a.is_word(w),
    ensures
        a.run(p, w) == b.run(p, w),
        a.accepts_from(p, w) == b.accepts_from(p, w),
    decreases w.len(),
{
    if w.len() > 0 {
        assert(0 <= w[0] < a.num_symbols);
        assert(a.is_word(w.drop_first()));
        lemma_same_as_run(a, b, a.next(p, w[0]), w.drop_first());
    }
    lemma_run_in_range(a, p, w);
}

/// Tables that describe the same automaton accept the same words, have the
/// same equivalent states, and are reduced together.
pub proof fn lemma_same_as_language(a: &Table, b: &Table)
    requires
        a.wf(),
        a.same_as(b),
    ensures
        languages_equal(a, b),
        a.is_reduced() == b.is_reduced(),
        forall|p: int, q: int|
            0 <= p < a.num_states && 0 <= q < a.num_states ==> #[trigger] a.equivalent_states(p, q)
                == b.equivalent_states(p, q),
{
    assert forall|w: Seq<int>| #[trigger] a.is_word(w) implies a.accepts(w) == b.accepts(w) by {
        lemma_same_as_run(a, b, a.start as int, w);
    }
    assert forall|p: int, q: int|
        0 <= p < a.num_states && 0 <= q < a.num_states implies #[trigger] a.equivalent_states(p, q)
            == b.equivalent_states(p, q) by {
        if a.equivalent_states(p, q) {
            assert forall|w: Seq<int>| #[trigger] b.is_word(w) implies b.accepts_from(p, w)
                == b.accepts_from(q, w) by {
                assert(a.is_word(w));
                lemma_same_as_run(a, b, p, w);
                lemma_same_as_run(a, b, q, w);
            }
        }
        if b.equivalent_states(p, q) {
            assert forall|w: Seq<int>| #[trigger] a.is_word(w) implies a.accepts_from(p, w)
                == a.accepts_from(q, w) by {
                assert(b.is_word(w));
                lemma_same_as_run(a, b, p, w);
                lemma_same_as_run(a, b, q, w);
            }
        }
    }
    if a.is_reduced() {
        assert forall|p: int, q: int|
            0 <= p < b.num_states && 0 <= q < b.num_states && p != q implies !#[trigger] b.equivalent_states(
            p,
            q,
        ) by {
            assert(!a.equivalent_states(p, q));
        }
    }
    if b.is_reduced() {
        assert forall|p: int, q: int|
            0 <= p < a.num_states && 0 <= q < a.num_states && p != q implies !#[trigger] a.equivalent_states(
            p,
            q,
        ) by {
            assert(!b.equivalent_states(p, q));
        }
    }
}

/// Both tables read the same symbols and accept the same words.
pub open spec fn languages_equal(a: &Table, b: &Table) -> bool {
    &&& a.num_symbols == b.num_symbols
    &&& forall|w: Seq<int>| #[trigger] a.is_word(w) ==> a.accepts(w) == b.accepts(w)
}

pub proof fn lemma_run_in_range(t: &Table, p: int, w: Seq<int>)
    requires
        t.wf(),
        0 <= p < t.num_states,
        t.is_word(w),
    ensures
        0 <= t.run(p, w) < t.num_states,
    decreases w.len(),
{
    if w.len() > 0 {
        assert(0 <= w[0] < t.num_symbols);
        assert(t.is_word(w.drop_first()));
        lemma_run_in_range(t, t.next(p, w[0]), w.drop_first());
    }
}

/// Reading `a` first and then `w` is reading the word `[a] + w`.
pub proof fn lemma_run_cons(t: &Table, p: int, a: int, w: Seq<int>)
    ensures
        t.run(p, seq![a] + w) == t.run(t.next(p, a), w),
{
    let aw = seq![a] + w;
    assert(aw.drop_first() =~= w);
}

/// A word that separates the successors of `p` and `q` on `a`, preceded by
/// `a`, separates `p` and `q`.
pub proof fn lemma_separate_predecessors(t: &Table, p: int, q: int, a: int)
    requires
        0 <= a < t.num_symbols,
        !t.equivalent_states(t.next(p, a), t.next(q, a)),
    ensures
        !t.equivalent_states(p, q),
{
    let w = choose|w: Seq<int>|
        t.is_word(w) && t.accepts_from(t.next(p, a), w) != t.accepts_from(t.next(q, a), w);
    let aw = seq![a] + w;
    lemma_run_cons(t, p, a, w);
    lemma_run_cons(t, q, a, w);
    assert(t.is_word(aw));
    assert(t.accepts_from(p, aw) != t.accepts_from(q, aw));
}

/// Equivalent states have equivalent successors.
pub proof fn lemma_equivalent_successors(t: &Table, p: int, q: int, a: int)
    requires
        0 <= a < t.num_symbols,
        t.equivalent_states(p, q),
    ensures
        t.equivalent_states(t.next(p, a), t.next(q, a)),
{
    if !t.equivalent_states(t.next(p, a), t.next(q, a)) {
        lemma_separate_predecessors(t, p, q, a);
    }
}

/// Reading `w` and then `a` is reading the word `w + [a]`.
pub proof fn lemma_run_snoc(t: &Table, p: int, w: Seq<int>, a: int)
    ensures
        t.run(p, w.push(a)) == t.next(t.run(p, w), a),
    decreases w.len(),
{
    if w.len() > 0 {
        assert(w.push(a)[0] == w[0]);
        assert(w.push(a).drop_first() =~= w.drop_first().push(a));
        lemma_run_snoc(t, t.next(p, w[0]), w.drop_first(), a);
        assert(t.run(p, w.push(a)) == t.run(t.next(p, w[0]), w.push(a).drop_first()));
    } else {
        assert(w.push(a)[0] == a);
        assert(w.push(a).drop_first() =~= w);
        assert(t.run(p, w.push(a)) == t.run(t.next(p, a), w));
    }
}

/// Where the entry `(p, q)` of a grid with `width` columns is stored.
pub open spec fn cell(width: int, p: int, q: int) -> int {
    p * width + q
}

pub proof fn lemma_cell(rows: int, width: int, p: int, q: int)
    requires
        0 <= p < rows,
        0 <= q < width,
    ensures
        0 <= cell(width, p, q) < rows * width,
{
    assert(0 <= p * width + q < rows * width) by (nonlinear_arith)
        requires
            0 <= p < rows,
            0 <= q < width,
    ;
}

pub proof fn lemma_cell_injective(width: int, p: int, q: int, r: int, s: int)
    requires
        0 <= p,
        0 <= r,
        0 <= q < width,
        0 <= s < width,
        cell(width, p, q) == cell(width, r, s),
    ensures
        p == r,
        q == s,
{
    if p < r {
        assert(p * width + q < r * width + s) by (nonlinear_arith)
            requires
                p < r,
                0 <= q < width,
                0 <= s,
        ;
    } else if r < p {
        assert(r * width + s < p * width + q) by (nonlinear_arith)
            requires
                r < p,
                0 <= s < width,
                0 <= q,
        ;
    }
}

} // verus!
