use vstd::prelude::*;
use crate::equivalence::are_equivalent;
use crate::minimize::minimize_table;
use crate::quotient::{
    class_index, class_rep, is_class_rep, is_quotient_of, lemma_class_index,
    lemma_class_rep, lemma_class_rep_equal_iff, lemma_minimized_equivalent, lemma_quotient_of_reduced,
    lemma_quotient_reduced,
};
use crate::order::{
    lemma_lex_irreflexive, lemma_sorted_unique, lex_less, lex_sorted, sorted_labels,
};
use crate::table::{
    Table, cell, languages_equal, lemma_cell, lemma_cell_injective, lemma_run_in_range,
    lemma_same_as_language,
};

verus! {

/// Why a description does not make a complete deterministic automaton.
#[derive(Clone, Copy, Debug, PartialEq, Eq, Structural)]
pub enum AutomatonError {
    /// A state is listed twice.
    DuplicateState,
    /// A symbol is listed twice.
    DuplicateSymbol,
    /// The start state, a final state or a transition names an unlisted state.
    UnknownState,
    /// A transition reads an unlisted symbol.
    UnknownSymbol,
    /// Two transitions leave one state on one symbol for different states.
    ConflictingTransitions,
    /// Some state has no transition on some symbol.
    MissingTransition,
}

/// The labels held by a vector of strings.
pub open spec fn labels(v: Seq<String>) -> Seq<Seq<char>> {
    v.map_values(|s: String| s@)
}

pub open spec fn distinct(s: Seq<Seq<char>>) -> bool {
    forall|i: int, j: int| 0 <= i < s.len() && 0 <= j < s.len() && i != j ==> s[i] != s[j]
}

/// Each list holds every label of the other.
pub open spec fn same_symbols(x: Seq<Seq<char>>, y: Seq<Seq<char>>) -> bool {
    &&& forall|i: int| 0 <= i < x.len() ==> y.contains(#[trigger] x[i])
    &&& forall|j: int| 0 <= j < y.len() ==> x.contains(#[trigger] y[j])
}

/// What an automaton description says, as labels.
pub struct AutomatonModel {
    pub states: Seq<Seq<char>>,
    pub alphabet: Seq<Seq<char>>,
    pub start: Seq<char>,
    pub finals: Seq<Seq<char>>,
    pub transitions: Seq<(Seq<char>, Seq<char>, Seq<char>)>,
}

impl AutomatonModel {
    pub open spec fn states_known(&self) -> bool {
        &&& self.states.contains(self.start)
        &&& forall|i: int| 0 <= i < self.finals.len() ==> self.states.contains(#[trigger] self.finals[i])
        &&& forall|i: int|
            0 <= i < self.transitions.len() ==> self.states.contains((#[trigger] self.transitions[i]).0)
                && self.states.contains(self.transitions[i].2)
    }

    pub open spec fn symbols_known(&self) -> bool {
        forall|i: int|
            0 <= i < self.transitions.len() ==> self.alphabet.contains((#[trigger] self.transitions[i]).1)
    }

    pub open spec fn has_conflict(&self) -> bool {
        exists|i: int, j: int|
            0 <= i < self.transitions.len() && 0 <= j < self.transitions.len() && (
            #[trigger] self.transitions[i]).0 == (#[trigger] self.transitions[j]).0
                && self.transitions[i].1 == self.transitions[j].1 && self.transitions[i].2
                != self.transitions[j].2
    }

    /// Some transition leaves state `p` on symbol `a`.
    pub open spec fn has_transition(&self, p: Seq<char>, a: Seq<char>) -> bool {
        exists|i: int|
            0 <= i < self.transitions.len() && (#[trigger] self.transitions[i]).0 == p
                && self.transitions[i].1 == a
    }

    /// Every state has a transition on every symbol.
    pub open spec fn is_total(&self) -> bool {
        forall|p: int, a: int|
            0 <= p < self.states.len() && 0 <= a < self.alphabet.len() ==> #[trigger] self.has_transition(
                self.states[p],
                self.alphabet[a],
            )
    }

    /// The first defect found, checked in this order, or none.
    pub open spec fn validation(&self) -> Result<(), AutomatonError> {
        if !distinct(self.states) {
            Err(AutomatonError::DuplicateState)
        } else if !distinct(self.alphabet) {
            Err(AutomatonError::DuplicateSymbol)
        } else if !self.states_known() {
            Err(AutomatonError::UnknownState)
        } else if !self.symbols_known() {
            Err(AutomatonError::UnknownSymbol)
        } else if self.has_conflict() {
            Err(AutomatonError::ConflictingTransitions)
        } else if !self.is_total() {
            Err(AutomatonError::MissingTransition)
        } else {
            Ok(())
        }
    }

    pub open spec fn is_valid(&self) -> bool {
        self.validation() is Ok
    }
}

/// `t` is the automaton `d` with states numbered as `d` lists them and
/// symbols as `symbols` lists them.
pub open spec fn describes_over(t: &Table, d: AutomatonModel, symbols: Seq<Seq<char>>) -> bool {
    &&& t.wf()
    &&& t.num_states == d.states.len()
    &&& t.num_symbols == symbols.len()
    &&& d.states[t.start as int] == d.start
    &&& forall|p: int| 0 <= p < t.num_states ==> #[trigger] t.is_final(p) == d.finals.contains(d.states[p])
    &&& forall|p: int, a: int|
        0 <= p < t.num_states && 0 <= a < t.num_symbols ==> d.transitions.contains(
            (d.states[p], symbols[a], d.states[#[trigger] t.next(p, a)]),
        )
}

/// `t` is the automaton `d`, numbered as `d` lists its states and symbols.
pub open spec fn describes(t: &Table, d: AutomatonModel) -> bool {
    describes_over(t, d, d.alphabet)
}

/// The index of the first transition that leaves `from` on `symbol`,
/// looking from `i` on.
pub open spec fn first_transition(
    ts: Seq<(Seq<char>, Seq<char>, Seq<char>)>,
    from: Seq<char>,
    symbol: Seq<char>,
    i: int,
) -> Option<int>
    decreases ts.len() - i,
{
    if i < 0 || i >= ts.len() {
        None
    } else if ts[i].0 == from && ts[i].1 == symbol {
        Some(i)
    } else {
        first_transition(ts, from, symbol, i + 1)
    }
}

/// The automaton `o` with its states listed as `s`.
pub open spec fn relabel(o: AutomatonModel, s: Seq<Seq<char>>) -> AutomatonModel {
    AutomatonModel { states: s, ..o }
}

/// No entry occurs twice.
pub open spec fn no_repeats<A>(s: Seq<A>) -> bool {
    forall|i: int, j: int| 0 <= i < s.len() && 0 <= j < s.len() && i != j ==> s[i] != s[j]
}

/// `n` is the quotient of `o` once the states of `o` are listed as `s`,
/// in increasing order: `t` is that numbering of `o`, `q` the table of `n`,
/// and each class is named after its smallest member.
pub open spec fn names_quotient(
    n: AutomatonModel,
    o: AutomatonModel,
    s: Seq<Seq<char>>,
    t: Table,
    q: Table,
) -> bool {
    &&& lex_sorted(s)
    &&& same_symbols(s, o.states)
    &&& s.len() == o.states.len()
    &&& describes(&t, relabel(o, s))
    &&& describes(&q, n)
    &&& is_quotient_of(&q, &t)
    &&& forall|p: int|
        0 <= p < t.num_states ==> n.states[#[trigger] class_index(&t, p)] == s[class_rep(&t, p)]
}

/// `n` is the minimal form of the valid automaton `o`: the quotient by
/// state equivalence over the same symbols, each class named by its
/// lexicographically smallest label, its states listed in increasing order,
/// and no final state or transition listed twice.
pub open spec fn is_minimization_of(n: AutomatonModel, o: AutomatonModel) -> bool {
    &&& o.is_valid()
    &&& n.is_valid()
    &&& n.alphabet == o.alphabet
    &&& lex_sorted(n.states)
    &&& no_repeats(n.finals)
    &&& no_repeats(n.transitions)
    &&& exists|s: Seq<Seq<char>>, t: Table, q: Table| #[trigger] names_quotient(n, o, s, t, q)
}

/// The order, tables and naming that make `n` the minimal form of `o`.
pub proof fn minimization_parts(n: AutomatonModel, o: AutomatonModel) -> (r: (
    Seq<Seq<char>>,
    Table,
    Table,
))
    requires
        is_minimization_of(n, o),
    ensures
        names_quotient(n, o, r.0, r.1, r.2),
{
    choose|s: Seq<Seq<char>>, t: Table, q: Table| #[trigger] names_quotient(n, o, s, t, q)
}

/// Each state of the minimal form is named by the lexicographically
/// smallest label among the states it merges.
pub proof fn lemma_minimized_names_smallest(
    n: AutomatonModel,
    o: AutomatonModel,
    s: Seq<Seq<char>>,
    t: Table,
    q: Table,
    p: int,
    x: int,
)
    requires
        names_quotient(n, o, s, t, q),
        0 <= p < t.num_states,
        0 <= x < t.num_states,
        t.equivalent_states(x, p),
    ensures
        n.states[class_index(&t, p)] == s[x] || lex_less(n.states[class_index(&t, p)], s[x]),
{
    lemma_class_rep(&t, p);
    let r = class_rep(&t, p);
    assert(n.states[class_index(&t, p)] == s[r]);
    if x != r {
        assert(r < x);
        assert(lex_less(s[r], s[x]));
    }
}

/// Listing the states of a valid automaton in increasing order keeps it
/// valid.
pub proof fn lemma_relabel_valid(o: AutomatonModel, s: Seq<Seq<char>>)
    requires
        o.is_valid(),
        lex_sorted(s),
        same_symbols(s, o.states),
    ensures
        relabel(o, s).is_valid(),
        distinct(s),
{
    let r = relabel(o, s);
    assert forall|i: int, j: int| 0 <= i < s.len() && 0 <= j < s.len() && i != j implies s[i] != s[j] by {
        lemma_lex_irreflexive(s[i]);
        if i > j {
            assert(lex_less(s[j], s[i]));
        } else {
            assert(lex_less(s[i], s[j]));
        }
    }
    assert forall|x: Seq<char>| o.states.contains(x) implies s.contains(x) by {
        let i = choose|i: int| 0 <= i < o.states.len() && o.states[i] == x;
        assert(s.contains(o.states[i]));
    }
    assert(r.states.contains(r.start));
    assert forall|i: int| 0 <= i < r.finals.len() implies r.states.contains(#[trigger] r.finals[i]) by {
        assert(o.states.contains(o.finals[i]));
    }
    assert forall|i: int|
        0 <= i < r.transitions.len() implies r.states.contains((#[trigger] r.transitions[i]).0)
            && r.states.contains(r.transitions[i].2) by {
        assert(o.states.contains(o.transitions[i].0));
        assert(o.states.contains(o.transitions[i].2));
    }
    assert forall|p: int, a: int|
        0 <= p < r.states.len() && 0 <= a < r.alphabet.len() implies #[trigger] r.has_transition(
        r.states[p],
        r.alphabet[a],
    ) by {
        assert(o.states.contains(s[p]));
        let x = choose|x: int| 0 <= x < o.states.len() && o.states[x] == s[p];
        assert(o.has_transition(o.states[x], o.alphabet[a]));
    }
}

proof fn lemma_relabel_run(
    o: AutomatonModel,
    s: Seq<Seq<char>>,
    t: &Table,
    u: &Table,
    p: int,
    p2: int,
    w: Seq<int>,
)
    requires
        o.is_valid(),
        describes(t, o),
        describes(u, relabel(o, s)),
        0 <= p < t.num_states,
        0 <= p2 < u.num_states,
        o.states[p] == s[p2],
        t.is_word(w),
    ensures
        o.states[t.run(p, w)] == s[u.run(p2, w)],
        t.accepts_from(p, w) == u.accepts_from(p2, w),
    decreases w.len(),
{
    if w.len() > 0 {
        let a = w[0];
        assert(0 <= a < t.num_symbols);
        let x = t.next(p, a);
        let y = u.next(p2, a);
        assert(o.transitions.contains((o.states[p], o.alphabet[a], o.states[x])));
        assert(o.transitions.contains((s[p2], o.alphabet[a], s[y])));
        let i = choose|i: int|
            0 <= i < o.transitions.len() && o.transitions[i] == (o.states[p], o.alphabet[a], o.states[x]);
        let j = choose|j: int|
            0 <= j < o.transitions.len() && o.transitions[j] == (s[p2], o.alphabet[a], s[y]);
        assert(o.transitions[i].0 == o.transitions[j].0);
        assert(t.is_word(w.drop_first()));
        lemma_relabel_run(o, s, t, u, x, y, w.drop_first());
    } else {
        assert(t.is_final(p) == o.finals.contains(o.states[p]));
    }
    lemma_run_in_range(t, p, w);
    assert(u.is_word(w));
    lemma_run_in_range(u, p2, w);
}

/// Numbering the states of a valid automaton in another order keeps its
/// language and whether it is reduced.
pub proof fn lemma_relabel_language(o: AutomatonModel, s: Seq<Seq<char>>, t: &Table, u: &Table)
    requires
        o.is_valid(),
        same_symbols(s, o.states),
        distinct(s),
        describes(t, o),
        describes(u, relabel(o, s)),
    ensures
        languages_equal(t, u),
        t.is_reduced() ==> u.is_reduced(),
{
    assert forall|w: Seq<int>| #[trigger] t.is_word(w) implies t.accepts(w) == u.accepts(w) by {
        lemma_relabel_run(o, s, t, u, t.start as int, u.start as int, w);
    }
    if t.is_reduced() {
        assert forall|x2: int, y2: int|
            0 <= x2 < u.num_states && 0 <= y2 < u.num_states && x2 != y2 implies !#[trigger] u.equivalent_states(
            x2,
            y2,
        ) by {
            assert(o.states.contains(s[x2]));
            assert(o.states.contains(s[y2]));
            let x = choose|x: int| 0 <= x < o.states.len() && o.states[x] == s[x2];
            let y = choose|y: int| 0 <= y < o.states.len() && o.states[y] == s[y2];
            assert(!t.equivalent_states(x, y));
            let w = choose|w: Seq<int>| t.is_word(w) && t.accepts_from(x, w) != t.accepts_from(y, w);
            lemma_relabel_run(o, s, t, u, x, x2, w);
            lemma_relabel_run(o, s, t, u, y, y2, w);
            assert(u.is_word(w));
        }
    }
}

/// A valid automaton has one table for each order of its symbols.
pub proof fn lemma_describes_unique(t: &Table, u: &Table, d: AutomatonModel, symbols: Seq<Seq<char>>)
    requires
        d.is_valid(),
        describes_over(t, d, symbols),
        describes_over(u, d, symbols),
    ensures
        t.same_as(u),
{
    assert forall|p: int, a: int|
        0 <= p < t.num_states && 0 <= a < t.num_symbols implies #[trigger] t.next(p, a) == u.next(
        p,
        a,
    ) by {
        let x = t.next(p, a);
        let y = u.next(p, a);
        assert(d.transitions.contains((d.states[p], symbols[a], d.states[x])));
        assert(d.transitions.contains((d.states[p], symbols[a], d.states[u.next(p, a)])));
        let i = choose|i: int|
            0 <= i < d.transitions.len() && d.transitions[i] == (d.states[p], symbols[a], d.states[x]);
        let j = choose|j: int|
            0 <= j < d.transitions.len() && d.transitions[j] == (d.states[p], symbols[a], d.states[y]);
        assert(d.transitions[i].0 == d.transitions[j].0);
        assert(d.states[x] == d.states[y]);
    }
}

/// A valid automaton is equivalent to itself: any two of its tables accept
/// the same words.
pub proof fn lemma_automaton_equivalent_to_itself(d: AutomatonModel, t: &Table, u: &Table)
    requires
        d.is_valid(),
        describes(t, d),
        describes(u, d),
    ensures
        languages_equal(t, u),
{
    lemma_describes_unique(t, u, d, d.alphabet);
    lemma_same_as_language(t, u);
}

/// An automaton and its minimal form accept the same words.
pub proof fn lemma_minimization_equivalent(o: AutomatonModel, n: AutomatonModel, t: &Table, u: &Table)
    requires
        is_minimization_of(n, o),
        describes(t, o),
        describes(u, n),
    ensures
        languages_equal(t, u),
{
    let (s, t0, q0) = minimization_parts(n, o);
    lemma_relabel_valid(o, s);
    lemma_relabel_language(o, s, t, &t0);
    lemma_minimized_equivalent(&t0, &q0);
    lemma_describes_unique(&q0, u, n, n.alphabet);
    lemma_same_as_language(&q0, u);
    assert forall|w: Seq<int>| #[trigger] t.is_word(w) implies t.accepts(w) == u.accepts(w) by {
        assert(t0.is_word(w));
        assert(q0.is_word(w));
    }
}

/// Minimizing an automaton whose states are pairwise inequivalent keeps
/// every state: the result lists the same labels, in increasing order.
pub proof fn lemma_minimization_of_reduced(o: AutomatonModel, n: AutomatonModel, t: &Table)
    requires
        is_minimization_of(n, o),
        describes(t, o),
        t.is_reduced(),
    ensures
        n.states.len() == o.states.len(),
        same_symbols(n.states, o.states),
{
    let (s, t0, q0) = minimization_parts(n, o);
    lemma_relabel_valid(o, s);
    lemma_relabel_language(o, s, t, &t0);
    lemma_quotient_of_reduced(&t0, &q0);
    assert forall|p: int| 0 <= p < s.len() implies n.states[p] == s[p] by {
        assert(n.states[class_index(&t0, p)] == s[class_rep(&t0, p)]);
    }
    assert(n.states =~= s);
}

/// Minimizing twice gives what minimizing once gives: the same states under
/// the same names, the same start, and the same table.
pub proof fn lemma_labelled_minimize_idempotent(
    o: AutomatonModel,
    once: AutomatonModel,
    twice: AutomatonModel,
    u: &Table,
    v: &Table,
)
    requires
        is_minimization_of(once, o),
        is_minimization_of(twice, once),
        describes(u, once),
        describes(v, twice),
    ensures
        twice.states == once.states,
        twice.start == once.start,
        v.same_as(u),
{
    let (s0, t0, q0) = minimization_parts(once, o);
    lemma_quotient_reduced(&t0, &q0);
    lemma_describes_unique(&q0, u, once, once.alphabet);
    lemma_same_as_language(&q0, u);
    lemma_minimization_of_reduced(once, twice, u);
    lemma_sorted_unique(twice.states, once.states);
    let (s1, t1, q1) = minimization_parts(twice, once);
    lemma_sorted_unique(s1, once.states);
    assert(relabel(once, s1) == once);
    lemma_describes_unique(u, &t1, once, once.alphabet);
    lemma_same_as_language(u, &t1);
    lemma_quotient_of_reduced(&t1, &q1);
    lemma_describes_unique(v, &q1, twice, twice.alphabet);
    assert forall|p: int, a: int|
        0 <= p < v.num_states && 0 <= a < v.num_symbols implies #[trigger] v.next(p, a) == u.next(
        p,
        a,
    ) by {
        assert(v.next(p, a) == q1.next(p, a));
        assert(q1.next(p, a) == t1.next(p, a));
        assert(u.next(p, a) == t1.next(p, a));
    }
    assert forall|p: int| 0 <= p < v.num_states implies #[trigger] v.is_final(p) == u.is_final(p) by {
        assert(v.is_final(p) == q1.is_final(p));
        assert(q1.is_final(p) == t1.is_final(p));
        assert(u.is_final(p) == t1.is_final(p));
    }
}

/// A word over the symbols listed as `from`, rewritten over the same
/// symbols listed as `to`.
pub open spec fn translate(w: Seq<int>, from: Seq<Seq<char>>, to: Seq<Seq<char>>) -> Seq<int> {
    Seq::new(w.len(), |i: int| choose|j: int| 0 <= j < to.len() && to[j] == from[w[i]])
}

proof fn lemma_translate(w: Seq<int>, from: Seq<Seq<char>>, to: Seq<Seq<char>>)
    requires
        forall|i: int| 0 <= i < w.len() ==> 0 <= #[trigger] w[i] < from.len(),
        same_symbols(from, to),
    ensures
        translate(w, from, to).len() == w.len(),
        forall|i: int|
            0 <= i < w.len() ==> 0 <= #[trigger] translate(w, from, to)[i] < to.len() && to[translate(
                w,
                from,
                to,
            )[i]] == from[w[i]],
{
    assert forall|i: int| 0 <= i < w.len() implies 0 <= #[trigger] translate(w, from, to)[i] < to.len()
        && to[translate(w, from, to)[i]] == from[w[i]] by {
        assert(to.contains(from[w[i]]));
    }
}

proof fn lemma_symbol_order_run(
    d: AutomatonModel,
    x: Seq<Seq<char>>,
    y: Seq<Seq<char>>,
    t: &Table,
    u: &Table,
    p: int,
    w: Seq<int>,
    v: Seq<int>,
)
    requires
        d.is_valid(),
        describes_over(t, d, x),
        describes_over(u, d, y),
        0 <= p < t.num_states,
        t.is_word(w),
        v.len() == w.len(),
        forall|i: int| 0 <= i < v.len() ==> 0 <= #[trigger] v[i] < y.len() && y[v[i]] == x[w[i]],
    ensures
        t.run(p, w) == u.run(p, v),
        t.accepts_from(p, w) == u.accepts_from(p, v),
    decreases w.len(),
{
    if w.len() > 0 {
        let a = w[0];
        let b = v[0];
        assert(0 <= a < t.num_symbols);
        let tx = t.next(p, a);
        let uy = u.next(p, b);
        assert(d.transitions.contains((d.states[p], x[a], d.states[tx])));
        assert(d.transitions.contains((d.states[p], y[b], d.states[uy])));
        let i = choose|i: int|
            0 <= i < d.transitions.len() && d.transitions[i] == (d.states[p], x[a], d.states[tx]);
        let j = choose|j: int|
            0 <= j < d.transitions.len() && d.transitions[j] == (d.states[p], y[b], d.states[uy]);
        assert(d.transitions[i].0 == d.transitions[j].0);
        assert(d.states[tx] == d.states[uy]);
        assert(t.is_word(w.drop_first()));
        assert forall|k: int| 0 <= k < v.drop_first().len() implies 0 <= #[trigger] v.drop_first()[k]
            < y.len() && y[v.drop_first()[k]] == x[w.drop_first()[k]] by {
            assert(v.drop_first()[k] == v[k + 1]);
            assert(w.drop_first()[k] == w[k + 1]);
        }
        lemma_symbol_order_run(d, x, y, t, u, tx, w.drop_first(), v.drop_first());
    }
}

proof fn lemma_equivalence_swapped(
    a: AutomatonModel,
    b: AutomatonModel,
    t1: &Table,
    t2: &Table,
    u1: &Table,
    u2: &Table,
)
    requires
        a.is_valid(),
        b.is_valid(),
        same_symbols(a.alphabet, b.alphabet),
        describes(t1, a),
        describes_over(t2, b, a.alphabet),
        describes(u1, b),
        describes_over(u2, a, b.alphabet),
        languages_equal(t1, t2),
    ensures
        languages_equal(u1, u2),
{
    assert(b.states[t2.start as int] == b.states[u1.start as int]);
    assert(a.states[t1.start as int] == a.states[u2.start as int]);
    assert forall|w: Seq<int>| #[trigger] u1.is_word(w) implies u1.accepts(w) == u2.accepts(w) by {
        assert forall|i: int| 0 <= i < w.len() implies 0 <= #[trigger] w[i] < b.alphabet.len() by {
            assert(0 <= w[i] < u1.num_symbols);
        }
        assert forall|i: int| 0 <= i < b.alphabet.len() implies a.alphabet.contains(
            #[trigger] b.alphabet[i],
        ) by {}
        lemma_translate(w, b.alphabet, a.alphabet);
        let v = translate(w, b.alphabet, a.alphabet);
        assert forall|i: int| 0 <= i < v.len() implies 0 <= #[trigger] v[i] < t1.num_symbols by {}
        assert(t1.is_word(v));
        assert(t2.is_word(v));
        lemma_symbol_order_run(b, a.alphabet, b.alphabet, t2, u1, t2.start as int, v, w);
        lemma_symbol_order_run(a, a.alphabet, b.alphabet, t1, u2, t1.start as int, v, w);
    }
}

/// Equivalence of labelled automata does not depend on which comes first:
/// the tables that `check_equivalence` compares for `(a, b)` accept the
/// same words exactly when those it compares for `(b, a)` do.
pub proof fn lemma_check_equivalence_symmetric(
    a: AutomatonModel,
    b: AutomatonModel,
    t1: &Table,
    t2: &Table,
    u1: &Table,
    u2: &Table,
)
    requires
        a.is_valid(),
        b.is_valid(),
        same_symbols(a.alphabet, b.alphabet),
        describes(t1, a),
        describes_over(t2, b, a.alphabet),
        describes(u1, b),
        describes_over(u2, a, b.alphabet),
    ensures
        same_symbols(b.alphabet, a.alphabet),
        languages_equal(t1, t2) == languages_equal(u1, u2),
{
    if languages_equal(t1, t2) {
        lemma_equivalence_swapped(a, b, t1, t2, u1, u2);
    }
    if languages_equal(u1, u2) {
        lemma_equivalence_swapped(b, a, u1, u2, t1, t2);
    }
}

/// `t` with its columns taken in the order `order` gives.
fn reorder_symbols(t: &Table, order: &Vec<usize>) -> (r: Table)
    requires
        t.wf(),
        forall|a: int| 0 <= a < order@.len() ==> #[trigger] order@[a] < t.num_symbols,
    ensures
        r.wf(),
        r.num_states == t.num_states,
        r.num_symbols == order@.len(),
        r.start == t.start,
        forall|p: int| 0 <= p < t.num_states ==> #[trigger] r.is_final(p) == t.is_final(p),
        forall|p: int, a: int|
            0 <= p < t.num_states && 0 <= a < order@.len() ==> #[trigger] r.next(p, a) == t.next(
                p,
                order@[a] as int,
            ),
{
    let mut delta: Vec<Vec<usize>> = Vec::new();
    for p in 0..t.num_states
        invariant
            t.wf(),
            forall|a: int| 0 <= a < order@.len() ==> #[trigger] order@[a] < t.num_symbols,
            delta@.len() == p,
            forall|x: int| 0 <= x < p ==> (#[trigger] delta@[x])@.len() == order@.len(),
            forall|x: int, a: int|
                0 <= x < p && 0 <= a < order@.len() ==> #[trigger] delta@[x]@[a] as int == t.next(
                    x,
                    order@[a] as int,
                ) && delta@[x]@[a] < t.num_states,
    {
        let mut row: Vec<usize> = Vec::new();
        for a in 0..order.len()
            invariant
                t.wf(),
                p < t.num_states,
                forall|b: int| 0 <= b < order@.len() ==> #[trigger] order@[b] < t.num_symbols,
                row@.len() == a,
                forall|b: int|
                    0 <= b < a ==> #[trigger] row@[b] as int == t.next(p as int, order@[b] as int)
                        && row@[b] < t.num_states,
        {
            row.push(t.step(p, order[a]));
        }
        delta.push(row);
    }
    let mut accepting: Vec<bool> = Vec::new();
    for p in 0..t.num_states
        invariant
            t.wf(),
            accepting@.len() == p,
            forall|x: int| 0 <= x < p ==> #[trigger] accepting@[x] == t.is_final(x),
    {
        accepting.push(t.accepting[p]);
    }
    Table { num_states: t.num_states, num_symbols: order.len(), delta, start: t.start, accepting }
}

/// Whether two automata accept the same words. A defect of the first, then
/// of the second, is returned as an error; automata over different sets of
/// symbols are not equivalent. The symbols of the second are matched to
/// those of the first by label, whatever their order.
pub fn check_equivalence(dfa1: &DeterministicFinalAutomata, dfa2: &DeterministicFinalAutomata) -> (r:
    Result<bool, AutomatonError>)
    requires
        dfa1@.states.len() * dfa1@.alphabet.len() <= usize::MAX,
        dfa2@.states.len() * dfa2@.alphabet.len() <= usize::MAX,
        dfa1@.states.len() * dfa2@.states.len() <= usize::MAX,
    ensures
        !dfa1@.is_valid() ==> r == Err::<bool, AutomatonError>(dfa1@.validation()->Err_0),
        dfa1@.is_valid() && !dfa2@.is_valid() ==> r == Err::<bool, AutomatonError>(
            dfa2@.validation()->Err_0,
        ),
        dfa1@.is_valid() && dfa2@.is_valid() && !same_symbols(dfa1@.alphabet, dfa2@.alphabet) ==> r
            == Ok::<bool, AutomatonError>(false),
        dfa1@.is_valid() && dfa2@.is_valid() && same_symbols(dfa1@.alphabet, dfa2@.alphabet)
            ==> exists|t1: Table, t2: Table|
            {
                &&& describes(&t1, dfa1@)
                &&& describes_over(&t2, dfa2@, dfa1@.alphabet)
                &&& r == Ok::<bool, AutomatonError>(languages_equal(&t1, &t2))
            },
{
    let t1 = match dfa1.to_table() {
        Ok(t) => t,
        Err(e) => {
            return Err(e);
        },
    };
    let t2 = match dfa2.to_table() {
        Ok(t) => t,
        Err(e) => {
            return Err(e);
        },
    };
    if !same_symbol_sets(&dfa1.alphabet, &dfa2.alphabet) {
        return Ok(false);
    }
    let ghost a1 = dfa1@.alphabet;
    let ghost a2 = dfa2@.alphabet;
    let mut order: Vec<usize> = Vec::new();
    for a in 0..dfa1.alphabet.len()
        invariant
            a1 == dfa1@.alphabet,
            a2 == dfa2@.alphabet,
            same_symbols(a1, a2),
            describes(&t2, dfa2@),
            order@.len() == a,
            forall|b: int| 0 <= b < a ==> #[trigger] order@[b] < a2.len() && a2[order@[b] as int] == a1[b],
    {
        proof {
            assert(a1[a as int] == dfa1.alphabet@[a as int]@);
            assert(a2.contains(a1[a as int]));
        }
        match find_label(&dfa2.alphabet, &dfa1.alphabet[a]) {
            Some(j) => {
                order.push(j);
            },
            None => {
                return Ok(false);
            },
        }
    }
    let t2r = reorder_symbols(&t2, &order);
    proof {
        assert forall|p: int, a: int|
            0 <= p < t2r.num_states && 0 <= a < t2r.num_symbols implies dfa2@.transitions.contains(
            (dfa2@.states[p], a1[a], dfa2@.states[#[trigger] t2r.next(p, a)]),
        ) by {
            assert(t2r.next(p, a) == t2.next(p, order@[a] as int));
            assert(dfa2@.transitions.contains(
                (dfa2@.states[p], a2[order@[a] as int], dfa2@.states[t2.next(p, order@[a] as int)]),
            ));
        }
        assert(describes_over(&t2r, dfa2@, a1));
    }
    let r = are_equivalent(&t1, &t2r);
    Ok(r)
}

/// The position of `x` in `v`, if it is there.
fn find_label(v: &Vec<String>, x: &String) -> (r: Option<usize>)
    ensures
        match r {
            Some(i) => i < v@.len() && labels(v@)[i as int] == x@,
            None => !labels(v@).contains(x@),
        },
{
    for i in 0..v.len()
        invariant
            forall|j: int| 0 <= j < i ==> labels(v@)[j] != x@,
    {
        if v[i] == *x {
            return Some(i);
        }
    }
    None
}

fn all_distinct(v: &Vec<String>) -> (r: bool)
    ensures
        r == distinct(labels(v@)),
{
    for i in 0..v.len()
        invariant
            forall|x: int, y: int| 0 <= x < i && 0 <= y < i && x != y ==> labels(v@)[x] != labels(
                v@,
            )[y],
    {
        for j in 0..i
            invariant
                i < v@.len(),
                forall|x: int, y: int|
                    0 <= x < i && 0 <= y < i && x != y ==> labels(v@)[x] != labels(v@)[y],
                forall|y: int| 0 <= y < j ==> labels(v@)[i as int] != labels(v@)[y],
        {
            if v[i] == v[j] {
                assert(labels(v@)[i as int] == labels(v@)[j as int]);
                return false;
            }
        }
    }
    true
}

/// Whether each list holds every string of the other.
fn same_symbol_sets(x: &Vec<String>, y: &Vec<String>) -> (r: bool)
    ensures
        r == same_symbols(labels(x@), labels(y@)),
{
    for i in 0..x.len()
        invariant
            forall|j: int| 0 <= j < i ==> labels(y@).contains(#[trigger] labels(x@)[j]),
    {
        if find_label(y, &x[i]).is_none() {
            assert(labels(x@)[i as int] == x@[i as int]@);
            return false;
        }
    }
    for i in 0..y.len()
        invariant
            forall|j: int| 0 <= j < x@.len() ==> labels(y@).contains(#[trigger] labels(x@)[j]),
            forall|j: int| 0 <= j < i ==> labels(x@).contains(#[trigger] labels(y@)[j]),
    {
        if find_label(x, &y[i]).is_none() {
            assert(labels(y@)[i as int] == y@[i as int]@);
            return false;
        }
    }
    true
}

/// A deterministic finite automaton described by labels: its states, its
/// alphabet, a start state, final states and transitions
/// `(from_state, symbol, to_state)`.
pub struct DeterministicFinalAutomata {
    nr_of_states: usize,
    states: Vec<String>,
    alphabet: Vec<String>,
    start_state: String,
    final_states: Vec<String>,
    transitions: Vec<(String, String, String)>,
}

pub open spec fn transition_labels(v: Seq<(String, String, String)>) -> Seq<(Seq<char>, Seq<char>, Seq<char>)> {
    v.map_values(|t: (String, String, String)| (t.0@, t.1@, t.2@))
}

/// `x` comes before `y` in row-major order.
pub open spec fn pair_before(x: (int, int), y: (int, int)) -> bool {
    x.0 < y.0 || (x.0 == y.0 && x.1 < y.1)
}

/// The transition that the minimized automaton has from its state `x` on
/// symbol `b`, labelled with `names`.
pub open spec fn quotient_entry(
    names: Seq<Seq<char>>,
    symbols: Seq<Seq<char>>,
    q: &Table,
    x: int,
    b: int,
) -> (Seq<char>, Seq<char>, Seq<char>) {
    (names[x], symbols[b], names[q.next(x, b)])
}

impl View for DeterministicFinalAutomata {
    type V = AutomatonModel;

    closed spec fn view(&self) -> AutomatonModel {
        AutomatonModel {
            states: labels(self.states@),
            alphabet: labels(self.alphabet@),
            start: self.start_state@,
            finals: labels(self.final_states@),
            transitions: transition_labels(self.transitions@),
        }
    }
}

impl DeterministicFinalAutomata {
    /// An automaton with the given states, symbols, start and final states,
    /// and no transitions yet.
    pub fn new(
        nr_of_states: usize,
        states: Vec<String>,
        alphabet: Vec<String>,
        start_state: String,
        final_states: Vec<String>,
    ) -> (r: Self)
        ensures
            r@ == (AutomatonModel {
                states: labels(states@),
                alphabet: labels(alphabet@),
                start: start_state@,
                finals: labels(final_states@),
                transitions: Seq::empty(),
            }),
            r.declared_count() == nr_of_states,
    {
        let r = DeterministicFinalAutomata {
            nr_of_states,
            states,
            alphabet,
            start_state,
            final_states,
            transitions: Vec::new(),
        };
        proof {
            assert(transition_labels(r.transitions@) =~= Seq::empty());
        }
        r
    }

    /// Adds the transition `(from_state, symbols, to_state)` unless it is
    /// already there.
    pub fn add_transition(&mut self, from_state: &str, symbols: &str, to_state: &str)
        ensures
            final(self)@.transitions == if old(self)@.transitions.contains(
                (from_state@, symbols@, to_state@),
            ) {
                old(self)@.transitions
            } else {
                old(self)@.transitions.push((from_state@, symbols@, to_state@))
            },
            final(self)@.states == old(self)@.states,
            final(self)@.alphabet == old(self)@.alphabet,
            final(self)@.start == old(self)@.start,
            final(self)@.finals == old(self)@.finals,
            final(self).declared_count() == old(self).declared_count(),
    {
        let entry = (from_state.to_owned(), symbols.to_owned(), to_state.to_owned());
        let ghost triple = (from_state@, symbols@, to_state@);
        for i in 0..self.transitions.len()
            invariant
                *self == *old(self),
                triple == (from_state@, symbols@, to_state@),
                entry.0@ == triple.0,
                entry.1@ == triple.1,
                entry.2@ == triple.2,
                forall|j: int| 0 <= j < i ==> #[trigger] self@.transitions[j] != triple,
        {
            if self.transitions[i].0 == entry.0 && self.transitions[i].1 == entry.1
                && self.transitions[i].2 == entry.2 {
                proof {
                    assert(self@.transitions[i as int] == triple);
                    assert(self@.transitions.contains(triple));
                }
                return;
            }
        }
        let ghost before = self.transitions@;
        proof {
            assert(self@.transitions == transition_labels(before));
            assert forall|j: int| 0 <= j < before.len() implies transition_labels(before)[j] != triple by {
                assert(self@.transitions[j] != triple);
            }
        }
        self.transitions.push(entry);
        proof {
            assert(!transition_labels(before).contains(triple));
            assert(transition_labels(self.transitions@) =~= transition_labels(before).push(triple));
        }
    }

    /// The first transition that leaves `state` on `symbol`; a missing
    /// transition is a defect of the automaton.
    pub fn get_state_transition(&self, state: &str, symbol: &str) -> (r: Result<
        (String, String, String),
        AutomatonError,
    >)
        ensures
            match first_transition(self@.transitions, state@, symbol@, 0) {
                Some(i) => r is Ok && (r->Ok_0.0@, r->Ok_0.1@, r->Ok_0.2@) == self@.transitions[i],
                None => r == Err::<(String, String, String), AutomatonError>(
                    AutomatonError::MissingTransition,
                ),
            },
    {
        let from = state.to_owned();
        let sym = symbol.to_owned();
        for i in 0..self.transitions.len()
            invariant
                from@ == state@,
                sym@ == symbol@,
                first_transition(self@.transitions, state@, symbol@, 0) == first_transition(
                    self@.transitions,
                    state@,
                    symbol@,
                    i as int,
                ),
        {
            let t = &self.transitions[i];
            proof {
                assert(self@.transitions[i as int] == (t.0@, t.1@, t.2@));
            }
            if t.0 == from && t.1 == sym {
                return Ok((t.0.clone(), t.1.clone(), t.2.clone()));
            }
        }
        Err(AutomatonError::MissingTransition)
    }

    pub fn nr_of_states(&self) -> (r: usize)
        ensures
            r == self.declared_count(),
    {
        self.nr_of_states
    }

    pub fn states(&self) -> (r: &Vec<String>)
        ensures
            labels(r@) == self@.states,
    {
        &self.states
    }

    pub fn alphabet(&self) -> (r: &Vec<String>)
        ensures
            labels(r@) == self@.alphabet,
    {
        &self.alphabet
    }

    pub fn start_state(&self) -> (r: &String)
        ensures
            r@ == self@.start,
    {
        &self.start_state
    }

    pub fn final_states(&self) -> (r: &Vec<String>)
        ensures
            labels(r@) == self@.finals,
    {
        &self.final_states
    }

    pub fn transitions(&self) -> (r: &Vec<(String, String, String)>)
        ensures
            transition_labels(r@) == self@.transitions,
    {
        &self.transitions
    }

    /// The number of states as declared; minimizing sets it to the number
    /// of states kept.
    pub closed spec fn declared_count(&self) -> nat {
        self.nr_of_states as nat
    }

    /// The table of this automaton, states and symbols numbered in the order
    /// in which they are listed, or the first defect that
    /// `AutomatonModel::validation` finds.
    pub fn to_table(&self) -> (r: Result<Table, AutomatonError>)
        requires
            self@.states.len() * self@.alphabet.len() <= usize::MAX,
        ensures
            match r {
                Ok(t) => self@.is_valid() && describes(&t, self@),
                Err(e) => self@.validation() == Err::<(), AutomatonError>(e),
            },
    {
        let ghost d = self@;
        let n = self.states.len();
        let k = self.alphabet.len();
        let nt = self.transitions.len();
        if !all_distinct(&self.states) {
            return Err(AutomatonError::DuplicateState);
        }
        if !all_distinct(&self.alphabet) {
            return Err(AutomatonError::DuplicateSymbol);
        }
        let start = match find_label(&self.states, &self.start_state) {
            Some(i) => i,
            None => {
                return Err(AutomatonError::UnknownState);
            },
        };
        proof {
            assert(d.states[start as int] == d.start);
        }
        let mut accepting: Vec<bool> = Vec::new();
        for p in 0..n
            invariant
                accepting@.len() == p,
                forall|x: int| 0 <= x < p ==> !#[trigger] accepting@[x],
        {
            accepting.push(false);
        }
        for i in 0..self.final_states.len()
            invariant
                d == self@,
                n == d.states.len(),
                distinct(d.states),
                accepting@.len() == n,
                forall|p: int|
                    0 <= p < n ==> #[trigger] accepting@[p] == exists|j: int|
                        0 <= j < i && #[trigger] d.finals[j] == d.states[p],
                forall|j: int| 0 <= j < i ==> d.states.contains(#[trigger] d.finals[j]),
                distinct(d.alphabet),
                d.states.contains(d.start),
        {
            match find_label(&self.states, &self.final_states[i]) {
                Some(p) => {
                    proof {
                        assert(d.finals[i as int] == d.states[p as int]);
                    }
                    accepting.set(p, true);
                },
                None => {
                    proof {
                        assert(!d.states.contains(d.finals[i as int]));
                    }
                    return Err(AutomatonError::UnknownState);
                },
            }
        }
        let mut from_idx: Vec<usize> = Vec::new();
        let mut to_idx: Vec<usize> = Vec::new();
        for i in 0..nt
            invariant
                d == self@,
                n == d.states.len(),
                nt == d.transitions.len(),
                from_idx@.len() == i,
                to_idx@.len() == i,
                forall|j: int|
                    0 <= j < i ==> #[trigger] from_idx@[j] < n && to_idx@[j] < n
                        && d.states[from_idx@[j] as int] == d.transitions[j].0 && d.states[to_idx@[j] as int]
                        == d.transitions[j].2,
                distinct(d.states),
                distinct(d.alphabet),
                d.states.contains(d.start),
                forall|j: int| 0 <= j < d.finals.len() ==> d.states.contains(#[trigger] d.finals[j]),
        {
            proof {
                assert(d.transitions[i as int].0 == self.transitions@[i as int].0@);
                assert(d.transitions[i as int].2 == self.transitions@[i as int].2@);
            }
            let f = match find_label(&self.states, &self.transitions[i].0) {
                Some(x) => x,
                None => {
                    return Err(AutomatonError::UnknownState);
                },
            };
            let g = match find_label(&self.states, &self.transitions[i].2) {
                Some(x) => x,
                None => {
                    return Err(AutomatonError::UnknownState);
                },
            };
            from_idx.push(f);
            to_idx.push(g);
        }
        proof {
            assert forall|i: int| 0 <= i < d.transitions.len() implies d.states.contains(
                (#[trigger] d.transitions[i]).0,
            ) && d.states.contains(d.transitions[i].2) by {
                assert(d.states[from_idx@[i] as int] == d.transitions[i].0);
                assert(d.states[to_idx@[i] as int] == d.transitions[i].2);
            }
            assert(d.states_known());
        }
        let mut sym_idx: Vec<usize> = Vec::new();
        for i in 0..nt
            invariant
                d == self@,
                k == d.alphabet.len(),
                nt == d.transitions.len(),
                sym_idx@.len() == i,
                forall|j: int|
                    0 <= j < i ==> #[trigger] sym_idx@[j] < k && d.alphabet[sym_idx@[j] as int]
                        == d.transitions[j].1,
                distinct(d.states),
                distinct(d.alphabet),
                d.states_known(),
        {
            proof {
                assert(d.transitions[i as int].1 == self.transitions@[i as int].1@);
            }
            let a = match find_label(&self.alphabet, &self.transitions[i].1) {
                Some(x) => x,
                None => {
                    return Err(AutomatonError::UnknownSymbol);
                },
            };
            sym_idx.push(a);
        }
        proof {
            assert forall|i: int| 0 <= i < d.transitions.len() implies d.alphabet.contains(
                (#[trigger] d.transitions[i]).1,
            ) by {
                assert(d.alphabet[sym_idx@[i] as int] == d.transitions[i].1);
            }
            assert(d.symbols_known());
        }
        // The target of each (state, symbol) cell, and whether it is set.
        let cells = n * k;
        let mut filled: Vec<bool> = Vec::new();
        let mut target: Vec<usize> = Vec::new();
        for c in 0..cells
            invariant
                filled@.len() == c,
                target@.len() == c,
                forall|x: int| 0 <= x < c ==> !#[trigger] filled@[x],
        {
            filled.push(false);
            target.push(0);
        }
        proof {
            assert forall|p: int, a: int| 0 <= p < n && 0 <= a < k implies !#[trigger] filled@[cell(
                k as int,
                p,
                a,
            )] by {
                lemma_cell(n as int, k as int, p, a);
            }
        }
        for i in 0..nt
            invariant
                d == self@,
                n == d.states.len(),
                k == d.alphabet.len(),
                nt == d.transitions.len(),
                d.states_known(),
                d.symbols_known(),
                cells == n * k,
                distinct(d.states),
                distinct(d.alphabet),
                filled@.len() == cells,
                target@.len() == cells,
                from_idx@.len() == nt,
                to_idx@.len() == nt,
                sym_idx@.len() == nt,
                forall|j: int|
                    0 <= j < nt ==> #[trigger] from_idx@[j] < n && to_idx@[j] < n
                        && d.states[from_idx@[j] as int] == d.transitions[j].0 && d.states[to_idx@[j] as int]
                        == d.transitions[j].2,
                forall|j: int|
                    0 <= j < nt ==> #[trigger] sym_idx@[j] < k && d.alphabet[sym_idx@[j] as int]
                        == d.transitions[j].1,
                forall|j: int|
                    0 <= j < i ==> filled@[cell(k as int, #[trigger] from_idx@[j] as int, sym_idx@[j] as int)]
                        && target@[cell(k as int, from_idx@[j] as int, sym_idx@[j] as int)] == to_idx@[j],
                forall|p: int, a: int|
                    0 <= p < n && 0 <= a < k && #[trigger] filled@[cell(k as int, p, a)] ==> exists|j: int|
                        0 <= j < i && #[trigger] from_idx@[j] == p && sym_idx@[j] == a,
        {
            let f = from_idx[i];
            let a = sym_idx[i];
            proof {
                lemma_cell(n as int, k as int, f as int, a as int);
            }
            let c = f * k + a;
            if filled[c] {
                if target[c] != to_idx[i] {
                    proof {
                        let j = choose|j: int| 0 <= j < i && #[trigger] from_idx@[j] == f && sym_idx@[j] == a;
                        assert(d.transitions[j].0 == d.transitions[i as int].0);
                        assert(d.transitions[j].1 == d.transitions[i as int].1);
                        assert(d.transitions[j].2 != d.transitions[i as int].2);
                        assert(d.has_conflict());
                    }
                    return Err(AutomatonError::ConflictingTransitions);
                }
                proof {
                    assert(c as int == cell(k as int, from_idx@[i as int] as int, sym_idx@[i as int] as int));
                    assert(filled@[c as int] && target@[c as int] == to_idx@[i as int]);
                }
            } else {
                let ghost old_filled = filled@;
                let ghost old_target = target@;
                filled.set(c, true);
                target.set(c, to_idx[i]);
                proof {
                    assert forall|j: int| 0 <= j < i + 1 implies filled@[cell(
                        k as int,
                        #[trigger] from_idx@[j] as int,
                        sym_idx@[j] as int,
                    )] && target@[cell(k as int, from_idx@[j] as int, sym_idx@[j] as int)]
                        == to_idx@[j] by {
                        if j < i {
                            lemma_cell(n as int, k as int, from_idx@[j] as int, sym_idx@[j] as int);
                            let cj = cell(k as int, from_idx@[j] as int, sym_idx@[j] as int);
                            assert(old_filled[cj] && old_target[cj] == to_idx@[j]);
                            assert(cj != c);
                        }
                    }
                    assert forall|p: int, a2: int|
                        0 <= p < n && 0 <= a2 < k && #[trigger] filled@[cell(k as int, p, a2)] implies exists|j: int|
                            0 <= j < i + 1 && #[trigger] from_idx@[j] == p && sym_idx@[j] == a2 by {
                        lemma_cell(n as int, k as int, p, a2);
                        if cell(k as int, p, a2) == c {
                            lemma_cell_injective(k as int, p, a2, f as int, a as int);
                            assert(from_idx@[i as int] == p && sym_idx@[i as int] == a2);
                        } else {
                            assert(old_filled[cell(k as int, p, a2)]);
                        }
                    }
                }
            }
        }
        proof {
            assert(!d.has_conflict()) by {
                if d.has_conflict() {
                    let (i, j) = choose|i: int, j: int|
                        0 <= i < d.transitions.len() && 0 <= j < d.transitions.len() && (
                        #[trigger] d.transitions[i]).0 == (#[trigger] d.transitions[j]).0
                            && d.transitions[i].1 == d.transitions[j].1 && d.transitions[i].2
                            != d.transitions[j].2;
                    assert(from_idx@[i] == from_idx@[j]);
                    assert(sym_idx@[i] == sym_idx@[j]);
                    assert(target@[cell(k as int, from_idx@[i] as int, sym_idx@[i] as int)] == to_idx@[i]);
                    assert(target@[cell(k as int, from_idx@[j] as int, sym_idx@[j] as int)] == to_idx@[j]);
                    assert(to_idx@[i] == to_idx@[j]);
                }
            }
        }
        let mut delta: Vec<Vec<usize>> = Vec::new();
        for p in 0..n
            invariant
                d == self@,
                n == d.states.len(),
                k == d.alphabet.len(),
                nt == d.transitions.len(),
                cells == n * k,
                distinct(d.states),
                distinct(d.alphabet),
                filled@.len() == cells,
                target@.len() == cells,
                from_idx@.len() == nt,
                to_idx@.len() == nt,
                sym_idx@.len() == nt,
                forall|j: int|
                    0 <= j < nt ==> #[trigger] from_idx@[j] < n && to_idx@[j] < n
                        && d.states[from_idx@[j] as int] == d.transitions[j].0 && d.states[to_idx@[j] as int]
                        == d.transitions[j].2,
                forall|j: int|
                    0 <= j < nt ==> #[trigger] sym_idx@[j] < k && d.alphabet[sym_idx@[j] as int]
                        == d.transitions[j].1,
                forall|j: int|
                    0 <= j < nt ==> filled@[cell(k as int, #[trigger] from_idx@[j] as int, sym_idx@[j] as int)]
                        && target@[cell(k as int, from_idx@[j] as int, sym_idx@[j] as int)] == to_idx@[j],
                forall|x: int, a: int|
                    0 <= x < n && 0 <= a < k && #[trigger] filled@[cell(k as int, x, a)] ==> exists|j: int|
                        0 <= j < nt && #[trigger] from_idx@[j] == x && sym_idx@[j] == a,
                d.states_known(),
                d.symbols_known(),
                !d.has_conflict(),
                delta@.len() == p,
                forall|x: int| 0 <= x < p ==> (#[trigger] delta@[x])@.len() == k,
                forall|x: int, a: int|
                    0 <= x < p && 0 <= a < k ==> #[trigger] delta@[x]@[a] < n && d.transitions.contains(
                        (d.states[x], d.alphabet[a], d.states[delta@[x]@[a] as int]),
                    ),
                forall|x: int, a: int|
                    0 <= x < p && 0 <= a < k ==> #[trigger] d.has_transition(d.states[x], d.alphabet[a]),
        {
            let mut row: Vec<usize> = Vec::new();
            for a in 0..k
                invariant
                    d == self@,
                    n == d.states.len(),
                    k == d.alphabet.len(),
                    nt == d.transitions.len(),
                    cells == n * k,
                    p < n,
                    distinct(d.states),
                    distinct(d.alphabet),
                    d.states_known(),
                    d.symbols_known(),
                    !d.has_conflict(),
                    filled@.len() == cells,
                    target@.len() == cells,
                    from_idx@.len() == nt,
                    to_idx@.len() == nt,
                    sym_idx@.len() == nt,
                    forall|j: int|
                        0 <= j < nt ==> #[trigger] from_idx@[j] < n && to_idx@[j] < n
                            && d.states[from_idx@[j] as int] == d.transitions[j].0 && d.states[to_idx@[j] as int]
                            == d.transitions[j].2,
                    forall|j: int|
                        0 <= j < nt ==> #[trigger] sym_idx@[j] < k && d.alphabet[sym_idx@[j] as int]
                            == d.transitions[j].1,
                    forall|j: int|
                        0 <= j < nt ==> filled@[cell(k as int, #[trigger] from_idx@[j] as int, sym_idx@[j] as int)]
                            && target@[cell(k as int, from_idx@[j] as int, sym_idx@[j] as int)] == to_idx@[j],
                    forall|x: int, b: int|
                        0 <= x < n && 0 <= b < k && #[trigger] filled@[cell(k as int, x, b)] ==> exists|j: int|
                            0 <= j < nt && #[trigger] from_idx@[j] == x && sym_idx@[j] == b,
                    row@.len() == a,
                    forall|b: int|
                        0 <= b < a ==> #[trigger] row@[b] < n && d.transitions.contains(
                            (d.states[p as int], d.alphabet[b], d.states[row@[b] as int]),
                        ),
                    forall|b: int|
                        0 <= b < a ==> #[trigger] d.has_transition(d.states[p as int], d.alphabet[b]),
            {
                proof {
                    lemma_cell(n as int, k as int, p as int, a as int);
                }
                let c = p * k + a;
                if !filled[c] {
                    proof {
                        if d.has_transition(d.states[p as int], d.alphabet[a as int]) {
                            let j = choose|j: int|
                                0 <= j < d.transitions.len() && (#[trigger] d.transitions[j]).0
                                    == d.states[p as int] && d.transitions[j].1 == d.alphabet[a as int];
                            assert(from_idx@[j] == p);
                            assert(sym_idx@[j] == a);
                            assert(filled@[cell(k as int, from_idx@[j] as int, sym_idx@[j] as int)]);
                        }
                        assert(!d.is_total());
                    }
                    return Err(AutomatonError::MissingTransition);
                }
                let v = target[c];
                proof {
                    let j = choose|j: int| 0 <= j < nt && #[trigger] from_idx@[j] == p && sym_idx@[j] == a;
                    assert(d.transitions[j] == (d.states[p as int], d.alphabet[a as int], d.states[v as int]));
                    assert(d.transitions.contains(
                        (d.states[p as int], d.alphabet[a as int], d.states[v as int]),
                    ));
                    assert(d.has_transition(d.states[p as int], d.alphabet[a as int]));
                }
                row.push(v);
            }
            delta.push(row);
        }
        proof {
            assert(d.is_total());
        }
        let t = Table { num_states: n, num_symbols: k, delta, start, accepting };
        proof {
            assert forall|p: int| 0 <= p < n implies #[trigger] t.is_final(p) == d.finals.contains(
                d.states[p],
            ) by {
                if d.finals.contains(d.states[p]) {
                    let j = choose|j: int| 0 <= j < d.finals.len() && d.finals[j] == d.states[p];
                    assert(accepting@[p]);
                }
            }
        }
        Ok(t)
    }

    /// Replaces the automaton by its minimal form: states that accept the
    /// same words are merged into one, which keeps the lexicographically
    /// smallest of their labels, and the states are listed in increasing
    /// order. On a defect the automaton is left as it is and the defect is
    /// returned.
    pub fn minimize(&mut self) -> (r: Result<(), AutomatonError>)
        requires
            old(self)@.states.len() * old(self)@.states.len() <= usize::MAX,
            old(self)@.states.len() * old(self)@.alphabet.len() <= usize::MAX,
        ensures
            match r {
                Err(e) => old(self)@.validation() == Err::<(), AutomatonError>(e) && final(self)@
                    == old(self)@ && final(self).declared_count() == old(self).declared_count(),
                Ok(_) => is_minimization_of(final(self)@, old(self)@) && final(self).declared_count()
                    == final(self)@.states.len(),
            },
    {
        let ghost d0 = self@;
        match self.to_table() {
            Ok(_) => {},
            Err(e) => {
                return Err(e);
            },
        }
        let order = sorted_labels(&self.states);
        proof {
            lemma_relabel_valid(d0, labels(order@));
        }
        self.states = order;
        let ghost d = self@;
        proof {
            assert(d == relabel(d0, labels(order@)));
        }
        let t = match self.to_table() {
            Ok(t) => t,
            Err(e) => {
                return Err(e);
            },
        };
        let (q, members) = minimize_table(&t);
        let m = q.num_states;
        let k = q.num_symbols;
        let mut states: Vec<String> = Vec::new();
        for i in 0..m
            invariant
                d == self@,
                describes(&t, d),
                is_quotient_of(&q, &t),
                m == q.num_states,
                members@.len() == m,
                forall|j: int|
                    0 <= j < m ==> #[trigger] members@[j] < t.num_states && is_class_rep(
                        &t,
                        members@[j] as int,
                    ) && class_index(&t, members@[j] as int) == j,
                states@.len() == i,
                forall|j: int| 0 <= j < i ==> #[trigger] labels(states@)[j] == d.states[members@[j] as int],
        {
            let ghost before = states@;
            states.push(self.states[members[i]].clone());
            proof {
                assert(labels(states@)[i as int] == d.states[members@[i as int] as int]);
                assert forall|j: int| 0 <= j < i implies #[trigger] labels(states@)[j]
                    == d.states[members@[j] as int] by {
                    assert(labels(states@)[j] == labels(before)[j]);
                }
            }
        }
        let ghost names = labels(states@);
        proof {
            assert forall|x: int, y: int|
                0 <= x < names.len() && 0 <= y < names.len() && x != y implies names[x] != names[y] by {
                assert(class_index(&t, members@[x] as int) == x);
                assert(class_index(&t, members@[y] as int) == y);
            }
            assert(distinct(names));
            assert forall|x: int, y: int| 0 <= x < y < names.len() implies lex_less(
                #[trigger] names[x],
                #[trigger] names[y],
            ) by {
                assert(members@[x] < members@[y]);
                assert(names[x] == d.states[members@[x] as int]);
                assert(names[y] == d.states[members@[y] as int]);
            }
            assert(lex_sorted(names));
        }
        // For each final state kept, the state of the quotient it names.
        let ghost mut final_of: Seq<int> = Seq::empty();
        let mut finals: Vec<String> = Vec::new();
        for i in 0..m
            invariant
                m == q.num_states,
                q.wf(),
                names == labels(states@),
                names.len() == m,
                distinct(names),
                final_of.len() == finals@.len(),
                forall|j1: int, j2: int|
                    0 <= j1 < j2 < final_of.len() ==> #[trigger] final_of[j1] < #[trigger] final_of[j2],
                forall|j: int|
                    0 <= j < finals@.len() ==> 0 <= #[trigger] final_of[j] < i && q.is_final(final_of[j])
                        && labels(finals@)[j] == names[final_of[j]],
                forall|x: int| 0 <= x < i && q.is_final(x) ==> labels(finals@).contains(#[trigger] names[x]),
        {
            if q.accepting[i] {
                let ghost before = finals@;
                finals.push(states[i].clone());
                proof {
                    final_of = final_of.push(i as int);
                    assert(labels(finals@)[before.len() as int] == names[i as int]);
                    assert forall|j: int| 0 <= j < finals@.len() implies 0 <= #[trigger] final_of[j] < i + 1
                        && q.is_final(final_of[j]) && labels(finals@)[j] == names[final_of[j]] by {
                        if j < before.len() {
                            assert(labels(finals@)[j] == labels(before)[j]);
                        }
                    }
                    assert forall|x: int| 0 <= x < i + 1 && q.is_final(x) implies labels(finals@).contains(
                        #[trigger] names[x],
                    ) by {
                        if x < i {
                            let j = choose|j: int| 0 <= j < before.len() && labels(before)[j] == names[x];
                            assert(labels(finals@)[j] == labels(before)[j]);
                        } else {
                            assert(labels(finals@)[before.len() as int] == names[x]);
                        }
                    }
                }
            }
        }
        let ghost symbols = d.alphabet;
        // For each transition made, the state and symbol of the quotient it stands for.
        let ghost mut origin: Seq<(int, int)> = Seq::empty();
        let mut transitions: Vec<(String, String, String)> = Vec::new();
        for i in 0..m
            invariant
                d == self@,
                symbols == d.alphabet,
                m == q.num_states,
                k == q.num_symbols,
                k == symbols.len(),
                q.wf(),
                names == labels(states@),
                names.len() == m,
                origin.len() == transitions@.len(),
                forall|e: int| 0 <= e < origin.len() ==> (#[trigger] origin[e]).0 < i,
                forall|e1: int, e2: int|
                    0 <= e1 < e2 < origin.len() ==> pair_before(#[trigger] origin[e1], #[trigger] origin[e2]),
                forall|e: int|
                    0 <= e < transitions@.len() ==> 0 <= (#[trigger] origin[e]).0 < m && 0 <= origin[e].1 < k
                        && transition_labels(transitions@)[e] == quotient_entry(
                        names,
                        symbols,
                        &q,
                        origin[e].0,
                        origin[e].1,
                    ),
                forall|x: int, b: int|
                    0 <= x < i && 0 <= b < k ==> transition_labels(transitions@).contains(
                        #[trigger] quotient_entry(names, symbols, &q, x, b),
                    ),
        {
            for a in 0..k
                invariant
                    d == self@,
                    symbols == d.alphabet,
                    m == q.num_states,
                    k == q.num_symbols,
                    k == symbols.len(),
                    i < m,
                    q.wf(),
                    names == labels(states@),
                    names.len() == m,
                    origin.len() == transitions@.len(),
                    forall|e: int|
                        0 <= e < origin.len() ==> (#[trigger] origin[e]).0 < i || (origin[e].0 == i
                            && origin[e].1 < a),
                    forall|e1: int, e2: int|
                        0 <= e1 < e2 < origin.len() ==> pair_before(
                            #[trigger] origin[e1],
                            #[trigger] origin[e2],
                        ),
                    forall|e: int|
                        0 <= e < transitions@.len() ==> 0 <= (#[trigger] origin[e]).0 < m && 0 <= origin[e].1
                            < k && transition_labels(transitions@)[e] == quotient_entry(
                            names,
                            symbols,
                            &q,
                            origin[e].0,
                            origin[e].1,
                        ),
                    forall|x: int, b: int|
                        (0 <= x < i && 0 <= b < k) || (x == i && 0 <= b < a)
                            ==> transition_labels(transitions@).contains(
                            #[trigger] quotient_entry(names, symbols, &q, x, b),
                        ),
            {
                let target = q.step(i, a);
                let entry = (states[i].clone(), self.alphabet[a].clone(), states[target].clone());
                let ghost before = transitions@;
                transitions.push(entry);
                proof {
                    origin = origin.push((i as int, a as int));
                    let last = before.len() as int;
                    assert(transition_labels(transitions@)[last] == quotient_entry(
                        names,
                        symbols,
                        &q,
                        i as int,
                        a as int,
                    ));
                    assert forall|e: int| 0 <= e < transitions@.len() implies 0 <= (
                    #[trigger] origin[e]).0 < m && 0 <= origin[e].1 < k && transition_labels(
                        transitions@,
                    )[e] == quotient_entry(names, symbols, &q, origin[e].0, origin[e].1) by {
                        if e < last {
                            assert(transition_labels(transitions@)[e] == transition_labels(before)[e]);
                        }
                    }
                    assert forall|x: int, b: int|
                        (0 <= x < i && 0 <= b < k) || (x == i && 0 <= b < a + 1)
                            implies transition_labels(transitions@).contains(
                        #[trigger] quotient_entry(names, symbols, &q, x, b),
                    ) by {
                        if x == i && b == a {
                            assert(transition_labels(transitions@)[last] == quotient_entry(
                                names,
                                symbols,
                                &q,
                                x,
                                b,
                            ));
                        } else {
                            let e = choose|e: int|
                                0 <= e < before.len() && transition_labels(before)[e]
                                    == quotient_entry(names, symbols, &q, x, b);
                            assert(transition_labels(transitions@)[e] == transition_labels(before)[e]);
                        }
                    }
                }
            }
        }
        let start = states[q.start].clone();
        self.nr_of_states = m;
        self.states = states;
        self.final_states = finals;
        self.start_state = start;
        self.transitions = transitions;
        proof {
            let n2 = self@;
            assert(n2.states == names);
            assert(n2.alphabet == symbols);
            assert(n2.start == names[q.start as int]);
            assert(n2.states_known()) by {
                assert(n2.states.contains(names[q.start as int]));
                assert forall|j: int| 0 <= j < n2.finals.len() implies n2.states.contains(
                    #[trigger] n2.finals[j],
                ) by {
                    assert(labels(finals@)[j] == names[final_of[j]]);
                }
                assert forall|e: int| 0 <= e < n2.transitions.len() implies n2.states.contains(
                    (#[trigger] n2.transitions[e]).0,
                ) && n2.states.contains(n2.transitions[e].2) by {
                    let (x, b) = origin[e];
                    assert(n2.states[q.next(x, b)] == n2.transitions[e].2);
                }
            }
            assert(n2.symbols_known()) by {
                assert forall|e: int| 0 <= e < n2.transitions.len() implies n2.alphabet.contains(
                    (#[trigger] n2.transitions[e]).1,
                ) by {
                    let (x, b) = origin[e];
                    assert(n2.alphabet[b] == n2.transitions[e].1);
                }
            }
            assert(!n2.has_conflict()) by {
                if n2.has_conflict() {
                    let (e1, e2) = choose|e1: int, e2: int|
                        0 <= e1 < n2.transitions.len() && 0 <= e2 < n2.transitions.len() && (
                        #[trigger] n2.transitions[e1]).0 == (#[trigger] n2.transitions[e2]).0
                            && n2.transitions[e1].1 == n2.transitions[e2].1 && n2.transitions[e1].2
                            != n2.transitions[e2].2;
                    let (x1, b1) = origin[e1];
                    let (x2, b2) = origin[e2];
                    assert(names[x1] == names[x2]);
                    assert(x1 == x2);
                    assert(symbols[b1] == symbols[b2]);
                    assert(b1 == b2);
                }
            }
            assert(n2.is_total()) by {
                assert forall|x: int, b: int|
                    0 <= x < n2.states.len() && 0 <= b < n2.alphabet.len() implies #[trigger] n2.has_transition(
                    n2.states[x],
                    n2.alphabet[b],
                ) by {
                    assert(transition_labels(transitions@).contains(quotient_entry(names, symbols, &q, x, b)));
                    let e = choose|e: int|
                        0 <= e < n2.transitions.len() && n2.transitions[e] == quotient_entry(
                            names,
                            symbols,
                            &q,
                            x,
                            b,
                        );
                    assert(n2.transitions[e].0 == n2.states[x]);
                }
            }
            assert(n2.is_valid());
            assert forall|x: int| 0 <= x < m implies #[trigger] q.is_final(x) == n2.finals.contains(
                n2.states[x],
            ) by {
                if n2.finals.contains(n2.states[x]) {
                    let j = choose|j: int| 0 <= j < n2.finals.len() && n2.finals[j] == n2.states[x];
                    assert(names[final_of[j]] == names[x]);
                }
            }
            assert forall|x: int, b: int| 0 <= x < m && 0 <= b < k implies n2.transitions.contains(
                (n2.states[x], symbols[b], n2.states[#[trigger] q.next(x, b)]),
            ) by {
                assert(transition_labels(transitions@).contains(quotient_entry(names, symbols, &q, x, b)));
            }
            assert(describes(&q, n2));
            assert forall|p: int| 0 <= p < t.num_states implies n2.states[#[trigger] class_index(&t, p)]
                == d.states[class_rep(&t, p)] by {
                lemma_class_index(&t, p, p);
                let i = class_index(&t, p);
                let x = members@[i] as int;
                lemma_class_index(&t, x, p);
                lemma_class_rep_equal_iff(&t, x, p);
            }
            assert(no_repeats(n2.finals)) by {
                assert forall|j1: int, j2: int|
                    0 <= j1 < n2.finals.len() && 0 <= j2 < n2.finals.len() && j1 != j2 implies n2.finals[j1]
                    != n2.finals[j2] by {
                    assert(labels(finals@)[j1] == names[final_of[j1]]);
                    assert(labels(finals@)[j2] == names[final_of[j2]]);
                    if j1 < j2 {
                        assert(final_of[j1] < final_of[j2]);
                    } else {
                        assert(final_of[j2] < final_of[j1]);
                    }
                }
            }
            assert(no_repeats(n2.transitions)) by {
                assert forall|e1: int, e2: int|
                    0 <= e1 < n2.transitions.len() && 0 <= e2 < n2.transitions.len() && e1 != e2
                        implies n2.transitions[e1] != n2.transitions[e2] by {
                    let (x1, b1) = origin[e1];
                    let (x2, b2) = origin[e2];
                    if e1 < e2 {
                        assert(pair_before(origin[e1], origin[e2]));
                    } else {
                        assert(pair_before(origin[e2], origin[e1]));
                    }
                    if n2.transitions[e1] == n2.transitions[e2] {
                        assert(names[x1] == names[x2]);
                        assert(symbols[b1] == symbols[b2]);
                    }
                }
            }
            assert(names_quotient(n2, d0, d.states, t, q));
        }
        Ok(())
    }
}

} // verus!
