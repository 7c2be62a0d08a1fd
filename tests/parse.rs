use automata_lab::automata::{check_equivalence, AutomatonError};
use automata_lab::parse::{parse_automata, parse_stack_automata, ParseError};

const SAMPLE: &str = "3
q0 q1 q2
a b
q0
q2
q0 a q1
q0 b q0
q1 a q2
q1 b q0
q2 a q2
q2 b q2
";

fn strings(xs: &[&str]) -> Vec<String> {
    xs.iter().map(|s| s.to_string()).collect()
}

#[test]
fn reads_the_line_format() {
    let d = parse_automata(SAMPLE).ok().unwrap();
    assert_eq!(d.nr_of_states(), 3);
    assert_eq!(d.states(), &strings(&["q0", "q1", "q2"]));
    assert_eq!(d.alphabet(), &strings(&["a", "b"]));
    assert_eq!(d.start_state(), "q0");
    assert_eq!(d.final_states(), &strings(&["q2"]));
    assert_eq!(d.transitions().len(), 6);
    assert_eq!(
        d.transitions()[2],
        ("q1".to_string(), "a".to_string(), "q2".to_string())
    );
}

#[test]
fn parsed_automaton_minimizes() {
    let mut d = parse_automata(SAMPLE).ok().unwrap();
    let reference = parse_automata(SAMPLE).ok().unwrap();
    assert_eq!(d.minimize(), Ok(()));
    assert_eq!(d.nr_of_states(), 3);
    assert_eq!(check_equivalence(&d, &reference), Ok(true));
}

#[test]
fn too_few_lines() {
    assert_eq!(parse_automata("2\nq0 q1\na\n").err(), Some(ParseError::MissingLine));
    assert_eq!(parse_automata("").err(), Some(ParseError::MissingLine));
}

#[test]
fn state_count_must_be_a_number() {
    let text = "two\nq0\na\nq0\nq0\nq0 a q0\n";
    assert_eq!(parse_automata(text).err(), Some(ParseError::BadStateCount));
    let negative = "-1\nq0\na\nq0\nq0\nq0 a q0\n";
    assert_eq!(parse_automata(negative).err(), Some(ParseError::BadStateCount));
}

#[test]
fn state_count_is_trimmed_and_may_have_a_plus() {
    let text = "  +1  \nq0\na\nq0\nq0\nq0 a q0\n";
    let d = parse_automata(text).ok().unwrap();
    assert_eq!(d.nr_of_states(), 1);
}

#[test]
fn short_transition_line_is_rejected() {
    let text = "1\nq0\na\nq0\nq0\nq0 a\n";
    assert_eq!(parse_automata(text).err(), Some(ParseError::BadTransition));
    let blank = "1\nq0\na\nq0\nq0\nq0 a q0\n\nq0 a q0\n";
    assert_eq!(parse_automata(blank).err(), Some(ParseError::BadTransition));
}

#[test]
fn start_line_is_trimmed_and_words_split_on_any_space() {
    let text = "2\r\nq0\tq1\r\na\r\n   q1   \r\n\r\nq0 a q1 extra\r\nq1 a q1\r\n";
    let d = parse_automata(text).ok().unwrap();
    assert_eq!(d.states(), &strings(&["q0", "q1"]));
    assert_eq!(d.alphabet(), &strings(&["a"]));
    assert_eq!(d.start_state(), "q1");
    assert_eq!(d.final_states().len(), 0);
    assert_eq!(
        d.transitions(),
        &vec![
            ("q0".to_string(), "a".to_string(), "q1".to_string()),
            ("q1".to_string(), "a".to_string(), "q1".to_string()),
        ]
    );
}

#[test]
fn repeated_transition_lines_count_once() {
    let text = "1\nq0\na\nq0\nq0\nq0 a q0\nq0 a q0\n";
    let d = parse_automata(text).ok().unwrap();
    assert_eq!(d.transitions().len(), 1);
}

#[test]
fn reads_a_stack_automaton() {
    let text = "q0 q1\na b\nZ A\nq0\nZ\nq0\nq0 a Z ZZA q0\nq0 b A E q1\n";
    let mut p = parse_stack_automata(text).ok().unwrap();
    assert_eq!(p.nr_of_states(), 2);
    assert_eq!(p.states(), &strings(&["q0", "q1"]));
    assert_eq!(p.stack_alphabet(), &strings(&["Z", "A"]));
    assert_eq!(p.start_state(), "q0");
    assert_eq!(p.stack_start(), "Z");
    assert_eq!(p.transitions().len(), 2);
    assert_eq!(p.transitions()[1].3, "E");
    assert_eq!(p.process_word("ab"), Ok(true));
}

#[test]
fn stack_automaton_needs_six_header_lines_and_five_words() {
    assert_eq!(
        parse_stack_automata("q0\na\nZ\nq0\nZ\n").err(),
        Some(ParseError::MissingLine)
    );
    assert_eq!(
        parse_stack_automata("q0\na\nZ\nq0\nZ\nq0\nq0 a Z E\n").err(),
        Some(ParseError::BadTransition)
    );
}

#[test]
fn text_of_an_invalid_automaton_is_rejected() {
    let unknown_start = "1\nq0\na\nq9\nq0\nq0 a q0\n";
    assert_eq!(
        parse_automata(unknown_start).err(),
        Some(ParseError::Invalid(AutomatonError::UnknownState))
    );
    let missing = "2\nq0 q1\na\nq0\nq1\nq0 a q1\n";
    assert_eq!(
        parse_automata(missing).err(),
        Some(ParseError::Invalid(AutomatonError::MissingTransition))
    );
    let unknown_symbol = "1\nq0\na\nq0\nq0\nq0 a q0\nq0 z q0\n";
    assert_eq!(
        parse_automata(unknown_symbol).err(),
        Some(ParseError::Invalid(AutomatonError::UnknownSymbol))
    );
}
