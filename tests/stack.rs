use automata_lab::stack::{StackAutomata, StackError};

fn strings(xs: &[&str]) -> Vec<String> {
    xs.iter().map(|s| s.to_string()).collect()
}

/// Pushes `A` for each `a` and pops one for each `b`.
fn balanced() -> StackAutomata {
    let mut p = StackAutomata::new(
        2,
        strings(&["q0", "q1"]),
        strings(&["a", "b"]),
        strings(&["Z", "A"]),
        "q0".to_string(),
        "Z".to_string(),
        strings(&["q0"]),
    );
    for (f, i, s, n, t) in [
        ("q0", "a", "Z", "ZZA", "q0"),
        ("q0", "a", "A", "AAA", "q0"),
        ("q0", "b", "A", "E", "q1"),
        ("q1", "b", "A", "E", "q1"),
    ] {
        p.add_transition(f.to_string(), i.to_string(), s.to_string(), n.to_string(), t.to_string());
    }
    p
}

#[test]
fn balanced_word_is_accepted() {
    let mut p = balanced();
    assert_eq!(p.process_word("aabb"), Ok(true));
    assert_eq!(p.stack(), strings(&["Z"]));
}

#[test]
fn unbalanced_word_is_rejected() {
    let mut p = balanced();
    assert_eq!(p.process_word("aab"), Ok(false));
    assert_eq!(p.stack(), strings(&["Z", "A"]));
}

#[test]
fn word_without_transition_is_rejected() {
    let mut p = balanced();
    assert_eq!(p.process_word("ba"), Ok(false));
    assert_eq!(p.stack(), strings(&["Z"]));
}

#[test]
fn empty_word_is_accepted_when_start_is_final() {
    let mut p = balanced();
    assert_eq!(p.process_word(""), Ok(true));
}

#[test]
fn stack_is_kept_between_words() {
    let mut p = balanced();
    assert_eq!(p.process_word("ab"), Ok(true));
    assert_eq!(p.process_word("ab"), Ok(true));
    assert_eq!(p.stack(), strings(&["Z", "Z"]));
}

#[test]
fn acceptance_looks_at_the_start_state() {
    let mut p = StackAutomata::new(
        1,
        strings(&["q0"]),
        strings(&["a"]),
        strings(&["Z"]),
        "q0".to_string(),
        "Z".to_string(),
        strings(&[]),
    );
    p.add_transition("q0".into(), "a".into(), "Z".into(), "ZZA".into(), "q0".into());
    assert_eq!(p.process_word(""), Ok(false));
}

#[test]
fn short_replacement_is_an_error() {
    let mut p = balanced();
    p.add_transition("q1".into(), "a".into(), "A".into(), "X".into(), "q0".into());
    assert_eq!(p.process_word("aaba"), Err(StackError::BadReplacement));
    let mut q = balanced();
    q.add_transition("q1".into(), "a".into(), "A".into(), "".into(), "q0".into());
    assert_eq!(q.process_word("aaba"), Err(StackError::BadReplacement));
}

#[test]
fn lookups() {
    let mut p = balanced();
    assert!(p.is_final_state("q0"));
    assert!(!p.is_final_state("q1"));
    assert!(p.is_valid_transition("q0", "a", "A"));
    assert!(p.is_valid_transition("q0", "a", ""));
    assert!(!p.is_valid_transition("q0", "b", "Z"));
    assert_eq!(
        p.get_transition("q0", "b", "A"),
        Some((
            "q0".to_string(),
            "b".to_string(),
            "A".to_string(),
            "E".to_string(),
            "q1".to_string()
        ))
    );
    assert_eq!(p.get_transition("q1", "a", "A"), None);
    p.add_to_stack("X");
    p.add_to_stack("Y");
    p.remove_from_stack();
    assert_eq!(p.stack(), strings(&["X"]));
    p.remove_from_stack();
    p.remove_from_stack();
    assert_eq!(p.stack().len(), 0);
}
