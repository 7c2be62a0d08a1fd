use automata_lab::automata::{check_equivalence, AutomatonError, DeterministicFinalAutomata};
use automata_lab::equivalence::are_equivalent;
use automata_lab::minimize::minimize_table;
use automata_lab::table::Table;

fn strings(xs: &[&str]) -> Vec<String> {
    xs.iter().map(|s| s.to_string()).collect()
}

fn dfa(
    states: &[&str],
    alphabet: &[&str],
    start: &str,
    finals: &[&str],
    transitions: &[(&str, &str, &str)],
) -> DeterministicFinalAutomata {
    let mut d = DeterministicFinalAutomata::new(
        states.len(),
        strings(states),
        strings(alphabet),
        start.to_string(),
        strings(finals),
    );
    for (from, symbol, to) in transitions {
        d.add_transition(from, symbol, to);
    }
    d
}

fn triples(d: &DeterministicFinalAutomata) -> Vec<(String, String, String)> {
    d.transitions().clone()
}

/// Two states, words with at least one `a`.
fn contains_a_small() -> DeterministicFinalAutomata {
    dfa(
        &["s0", "s1"],
        &["a", "b"],
        "s0",
        &["s1"],
        &[("s0", "a", "s1"), ("s0", "b", "s0"), ("s1", "a", "s1"), ("s1", "b", "s1")],
    )
}

/// Four states, the same language with redundant states.
fn contains_a_large() -> DeterministicFinalAutomata {
    dfa(
        &["p0", "p1", "p2", "p3"],
        &["a", "b"],
        "p0",
        &["p1", "p3"],
        &[
            ("p0", "a", "p1"),
            ("p0", "b", "p2"),
            ("p1", "a", "p3"),
            ("p1", "b", "p1"),
            ("p2", "a", "p3"),
            ("p2", "b", "p0"),
            ("p3", "a", "p1"),
            ("p3", "b", "p3"),
        ],
    )
}

/// Words that end with `a`.
fn ends_with_a() -> DeterministicFinalAutomata {
    dfa(
        &["e0", "e1"],
        &["a", "b"],
        "e0",
        &["e1"],
        &[("e0", "a", "e1"), ("e0", "b", "e0"), ("e1", "a", "e1"), ("e1", "b", "e0")],
    )
}

fn accepts(t: &Table, word: &[usize]) -> bool {
    let mut q = t.start;
    for &a in word {
        q = t.delta[q][a];
    }
    t.accepting[q]
}

fn all_words(k: usize, max_len: usize) -> Vec<Vec<usize>> {
    let mut out: Vec<Vec<usize>> = vec![vec![]];
    let mut layer: Vec<Vec<usize>> = vec![vec![]];
    for _ in 0..max_len {
        let mut next = Vec::new();
        for w in &layer {
            for a in 0..k {
                let mut v = w.clone();
                v.push(a);
                next.push(v);
            }
        }
        out.extend(next.iter().cloned());
        layer = next;
    }
    out
}

#[test]
fn two_final_self_loops_collapse_to_one_state() {
    let mut d = dfa(
        &["q0", "q1"],
        &["a", "b"],
        "q0",
        &["q0", "q1"],
        &[("q0", "a", "q0"), ("q0", "b", "q0"), ("q1", "a", "q1"), ("q1", "b", "q1")],
    );
    assert_eq!(d.minimize(), Ok(()));
    assert_eq!(d.nr_of_states(), 1);
    assert_eq!(d.states(), &strings(&["q0"]));
    assert_eq!(d.final_states(), &strings(&["q0"]));
    assert_eq!(d.start_state(), "q0");
    assert_eq!(
        triples(&d),
        vec![
            ("q0".to_string(), "a".to_string(), "q0".to_string()),
            ("q0".to_string(), "b".to_string(), "q0".to_string()),
        ]
    );
}

#[test]
fn different_sizes_same_language_are_equivalent() {
    assert_eq!(check_equivalence(&contains_a_small(), &contains_a_large()), Ok(true));
}

#[test]
fn unreachable_final_state_does_not_matter() {
    let with_extra = dfa(
        &["s0", "s1", "s2"],
        &["a", "b"],
        "s0",
        &["s1", "s2"],
        &[
            ("s0", "a", "s1"),
            ("s0", "b", "s0"),
            ("s1", "a", "s1"),
            ("s1", "b", "s1"),
            ("s2", "a", "s0"),
            ("s2", "b", "s2"),
        ],
    );
    assert_eq!(check_equivalence(&contains_a_small(), &with_extra), Ok(true));
}

#[test]
fn different_alphabets_are_not_equivalent() {
    let over_abc = dfa(
        &["s0", "s1"],
        &["a", "b", "c"],
        "s0",
        &["s1"],
        &[
            ("s0", "a", "s1"),
            ("s0", "b", "s0"),
            ("s0", "c", "s0"),
            ("s1", "a", "s1"),
            ("s1", "b", "s1"),
            ("s1", "c", "s1"),
        ],
    );
    assert_eq!(check_equivalence(&contains_a_small(), &over_abc), Ok(false));
    assert_eq!(check_equivalence(&over_abc, &contains_a_small()), Ok(false));
}

#[test]
fn symbols_listed_in_another_order_still_match() {
    let reordered = dfa(
        &["s0", "s1"],
        &["b", "a"],
        "s0",
        &["s1"],
        &[("s0", "a", "s1"), ("s0", "b", "s0"), ("s1", "a", "s1"), ("s1", "b", "s1")],
    );
    assert_eq!(check_equivalence(&contains_a_small(), &reordered), Ok(true));
    assert_eq!(check_equivalence(&ends_with_a(), &reordered), Ok(false));
}

#[test]
fn different_languages_are_not_equivalent() {
    assert_eq!(check_equivalence(&contains_a_small(), &ends_with_a()), Ok(false));
    assert_eq!(check_equivalence(&contains_a_large(), &ends_with_a()), Ok(false));
}

#[test]
fn equivalence_is_reflexive() {
    for d in [contains_a_small(), contains_a_large(), ends_with_a()] {
        assert_eq!(check_equivalence(&d, &d), Ok(true));
    }
}

#[test]
fn equivalence_is_symmetric() {
    let all = [contains_a_small(), contains_a_large(), ends_with_a()];
    for x in &all {
        for y in &all {
            assert_eq!(check_equivalence(x, y), check_equivalence(y, x));
        }
    }
}

#[test]
fn minimizing_merges_redundant_states() {
    let mut d = contains_a_large();
    assert_eq!(d.minimize(), Ok(()));
    assert_eq!(d.nr_of_states(), 2);
    assert_eq!(d.states(), &strings(&["p0", "p1"]));
    assert_eq!(d.start_state(), "p0");
    assert_eq!(d.final_states(), &strings(&["p1"]));
    assert_eq!(d.alphabet(), &strings(&["a", "b"]));
    assert_eq!(
        triples(&d),
        vec![
            ("p0".to_string(), "a".to_string(), "p1".to_string()),
            ("p0".to_string(), "b".to_string(), "p0".to_string()),
            ("p1".to_string(), "a".to_string(), "p1".to_string()),
            ("p1".to_string(), "b".to_string(), "p1".to_string()),
        ]
    );
}

#[test]
fn minimizing_twice_changes_nothing_more() {
    let mut once = contains_a_large();
    assert_eq!(once.minimize(), Ok(()));
    let mut twice = contains_a_large();
    assert_eq!(twice.minimize(), Ok(()));
    assert_eq!(twice.minimize(), Ok(()));
    assert_eq!(twice.states(), once.states());
    assert_eq!(twice.start_state(), once.start_state());
    assert_eq!(twice.final_states(), once.final_states());
    assert_eq!(triples(&twice), triples(&once));
}

#[test]
fn minimal_automaton_keeps_its_states() {
    for mut d in [contains_a_small(), ends_with_a()] {
        let before = d.states().clone();
        let before_transitions = triples(&d);
        assert_eq!(d.minimize(), Ok(()));
        assert_eq!(d.nr_of_states(), 2);
        assert_eq!(d.states(), &before);
        assert_eq!(triples(&d), before_transitions);
    }
}

#[test]
fn minimized_automaton_is_equivalent() {
    for mut m in [contains_a_small(), contains_a_large(), ends_with_a()] {
        let keep = dfa(
            &m.states().iter().map(|s| s.as_str()).collect::<Vec<_>>(),
            &m.alphabet().iter().map(|s| s.as_str()).collect::<Vec<_>>(),
            m.start_state(),
            &m.final_states().iter().map(|s| s.as_str()).collect::<Vec<_>>(),
            &m.transitions()
                .iter()
                .map(|(f, a, t)| (f.as_str(), a.as_str(), t.as_str()))
                .collect::<Vec<_>>(),
        );
        assert_eq!(m.minimize(), Ok(()));
        assert_eq!(check_equivalence(&keep, &m), Ok(true));
    }
}

#[test]
fn minimizing_keeps_the_language_on_short_words() {
    let mut d = contains_a_large();
    let before = d.to_table().ok().unwrap();
    assert_eq!(d.minimize(), Ok(()));
    let after = d.to_table().ok().unwrap();
    assert_eq!(after.num_states, 2);
    for w in all_words(2, 6) {
        assert_eq!(accepts(&before, &w), accepts(&after, &w));
    }
}

#[test]
fn table_minimization_numbers_classes_by_smallest_member() {
    // States 0 and 2 are final and loop to themselves, state 1 is not final.
    let t = Table {
        num_states: 3,
        num_symbols: 1,
        delta: vec![vec![0], vec![2], vec![2]],
        start: 1,
        accepting: vec![true, false, true],
    };
    let (q, members) = minimize_table(&t);
    assert_eq!(q.num_states, 2);
    assert_eq!(members, vec![0, 1]);
    assert_eq!(q.delta, vec![vec![0], vec![0]]);
    assert_eq!(q.accepting, vec![true, false]);
    assert_eq!(q.start, 1);
    assert!(are_equivalent(&t, &q));
}

#[test]
fn table_equivalence_detects_a_difference() {
    let even_a = Table {
        num_states: 2,
        num_symbols: 1,
        delta: vec![vec![1], vec![0]],
        start: 0,
        accepting: vec![true, false],
    };
    let all = Table {
        num_states: 1,
        num_symbols: 1,
        delta: vec![vec![0]],
        start: 0,
        accepting: vec![true],
    };
    assert!(!are_equivalent(&even_a, &all));
    assert!(are_equivalent(&even_a, &even_a));
    let two_symbols = Table {
        num_states: 1,
        num_symbols: 2,
        delta: vec![vec![0, 0]],
        start: 0,
        accepting: vec![true],
    };
    assert!(!are_equivalent(&all, &two_symbols));
}

#[test]
fn duplicate_state_is_reported() {
    let mut d = dfa(&["q0", "q0"], &["a"], "q0", &[], &[("q0", "a", "q0")]);
    assert_eq!(d.minimize(), Err(AutomatonError::DuplicateState));
    assert_eq!(d.states(), &strings(&["q0", "q0"]));
}

#[test]
fn duplicate_symbol_is_reported() {
    let mut d = dfa(&["q0"], &["a", "a"], "q0", &[], &[("q0", "a", "q0")]);
    assert_eq!(d.minimize(), Err(AutomatonError::DuplicateSymbol));
}

#[test]
fn unknown_state_is_reported() {
    let mut bad_start = dfa(&["q0"], &["a"], "q9", &[], &[("q0", "a", "q0")]);
    assert_eq!(bad_start.minimize(), Err(AutomatonError::UnknownState));
    let mut bad_final = dfa(&["q0"], &["a"], "q0", &["q9"], &[("q0", "a", "q0")]);
    assert_eq!(bad_final.minimize(), Err(AutomatonError::UnknownState));
    let mut bad_target = dfa(&["q0"], &["a"], "q0", &[], &[("q0", "a", "q9")]);
    assert_eq!(bad_target.minimize(), Err(AutomatonError::UnknownState));
}

#[test]
fn unknown_symbol_is_reported() {
    let mut d = dfa(&["q0"], &["a"], "q0", &[], &[("q0", "a", "q0"), ("q0", "z", "q0")]);
    assert_eq!(d.minimize(), Err(AutomatonError::UnknownSymbol));
}

#[test]
fn conflicting_transitions_are_reported() {
    let mut d = dfa(
        &["q0", "q1"],
        &["a"],
        "q0",
        &[],
        &[("q0", "a", "q0"), ("q0", "a", "q1"), ("q1", "a", "q1")],
    );
    assert_eq!(d.minimize(), Err(AutomatonError::ConflictingTransitions));
}

#[test]
fn missing_transition_is_reported() {
    let mut d = dfa(&["q0", "q1"], &["a"], "q0", &[], &[("q0", "a", "q1")]);
    assert_eq!(d.minimize(), Err(AutomatonError::MissingTransition));
    assert_eq!(
        check_equivalence(&contains_a_small(), &d),
        Err(AutomatonError::MissingTransition)
    );
    assert_eq!(
        check_equivalence(&d, &contains_a_small()),
        Err(AutomatonError::MissingTransition)
    );
}

#[test]
fn repeated_transition_is_kept_once() {
    let mut d = dfa(&["q0"], &["a"], "q0", &["q0"], &[("q0", "a", "q0")]);
    d.add_transition("q0", "a", "q0");
    assert_eq!(d.transitions().len(), 1);
    assert_eq!(d.minimize(), Ok(()));
    assert_eq!(d.nr_of_states(), 1);
}

#[test]
fn looks_up_one_transition() {
    let d = contains_a_large();
    assert_eq!(
        d.get_state_transition("p2", "a"),
        Ok(("p2".to_string(), "a".to_string(), "p3".to_string()))
    );
    assert_eq!(
        d.get_state_transition("p2", "c"),
        Err(AutomatonError::MissingTransition)
    );
    assert_eq!(
        d.get_state_transition("zz", "a"),
        Err(AutomatonError::MissingTransition)
    );
}

#[test]
fn minimized_names_do_not_depend_on_listing_order() {
    let transitions = [("x", "a", "y"), ("y", "a", "x")];
    let mut xy = dfa(&["x", "y"], &["a"], "x", &[], &transitions);
    let mut yx = dfa(&["y", "x"], &["a"], "y", &[], &transitions);
    assert_eq!(xy.minimize(), Ok(()));
    assert_eq!(yx.minimize(), Ok(()));
    assert_eq!(xy.states(), &strings(&["x"]));
    assert_eq!(yx.states(), &strings(&["x"]));
    assert_eq!(xy.start_state(), "x");
    assert_eq!(yx.start_state(), "x");
    assert_eq!(triples(&xy), triples(&yx));
}

#[test]
fn minimized_states_are_sorted() {
    let mut d = dfa(
        &["s1", "s0"],
        &["a", "b"],
        "s0",
        &["s1"],
        &[("s1", "a", "s1"), ("s1", "b", "s1"), ("s0", "a", "s1"), ("s0", "b", "s0")],
    );
    assert_eq!(d.minimize(), Ok(()));
    assert_eq!(d.states(), &strings(&["s0", "s1"]));
    assert_eq!(d.final_states(), &strings(&["s1"]));
    assert_eq!(triples(&d), triples(&contains_a_small()));
}

#[test]
fn class_keeps_its_smallest_label() {
    // "b" and "a" are equivalent; the class is named "a", before "c".
    let mut d = dfa(
        &["c", "b", "a"],
        &["x"],
        "c",
        &["a", "b"],
        &[("c", "x", "b"), ("b", "x", "a"), ("a", "x", "b")],
    );
    assert_eq!(d.minimize(), Ok(()));
    assert_eq!(d.states(), &strings(&["a", "c"]));
    assert_eq!(d.start_state(), "c");
    assert_eq!(d.final_states(), &strings(&["a"]));
    assert_eq!(
        triples(&d),
        vec![
            ("a".to_string(), "x".to_string(), "a".to_string()),
            ("c".to_string(), "x".to_string(), "a".to_string()),
        ]
    );
}
