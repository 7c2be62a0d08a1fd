use vstd::prelude::*;
use crate::automata::{AutomatonError, AutomatonModel, DeterministicFinalAutomata, labels};
use crate::stack::{Rule, StackAutomata, StackModel};

verus! {

/// Why a text does not hold an automaton in the line format:
/// the number of states, the states, the symbols, the start state, the
/// final states, then one `from_state symbol to_state` transition per line.
#[derive(Clone, Copy, Debug, PartialEq, Eq, Structural)]
pub enum ParseError {
    /// Fewer header lines than the format has.
    MissingLine,
    /// The first line is not a number of states.
    BadStateCount,
    /// A transition line has fewer words than a transition needs.
    BadTransition,
    /// The automaton has more states and symbols than a table can hold.
    TooLarge,
    /// The text is laid out well but the automaton it gives is not a
    /// complete deterministic automaton.
    Invalid(AutomatonError),
}

/// The lines of a text, as `str::lines` gives them.
pub uninterp spec fn lines_of(s: Seq<char>) -> Seq<Seq<char>>;

/// The words of a line, as `str::split_whitespace` gives them.
pub uninterp spec fn words_of(s: Seq<char>) -> Seq<Seq<char>>;

/// A line without its leading and trailing white space, as `str::trim`
/// gives it.
pub uninterp spec fn trim_of(s: Seq<char>) -> Seq<char>;

pub open spec fn is_digits(s: Seq<char>) -> bool {
    &&& s.len() > 0
    &&& forall|i: int| 0 <= i < s.len() ==> '0' <= #[trigger] s[i] <= '9'
}

/// The number that a string of decimal digits denotes.
pub open spec fn decimal(s: Seq<char>) -> int
    decreases s.len(),
{
    if s.len() == 0 {
        0
    } else {
        decimal(s.drop_last()) * 10 + (s.last() as int - '0' as int)
    }
}

/// What `str::parse::<usize>` reads: an optional `+`, then decimal digits
/// whose value fits in a `usize`.
pub open spec fn parsed_usize(s: Seq<char>) -> Option<usize> {
    let digits = if s.len() > 0 && s[0] == '+' {
        s.drop_first()
    } else {
        s
    };
    if is_digits(digits) && decimal(digits) <= usize::MAX {
        Some(decimal(digits) as usize)
    } else {
        None
    }
}

/// Relies on `str::lines`: the lines of the text, without line endings.
#[verifier::external_body]
pub(crate) fn split_lines(s: &str) -> (r: Vec<String>)
    ensures
        labels(r@) == lines_of(s@),
{
    s.lines().map(String::from).collect()
}

/// Relies on `str::split_whitespace`: the words of a line.
#[verifier::external_body]
fn split_words(s: &str) -> (r: Vec<String>)
    ensures
        labels(r@) == words_of(s@),
{
    s.split_whitespace().map(String::from).collect()
}

/// Relies on `str::trim`: the line without surrounding white space.
#[verifier::external_body]
pub(crate) fn trimmed(s: &str) -> (r: String)
    ensures
        r@ == trim_of(s@),
{
    s.trim().to_string()
}

/// Relies on `str::parse::<usize>`: an optional `+` and decimal digits
/// that fit in a `usize`, and nothing else, give their value.
#[verifier::external_body]
fn parse_count(s: &str) -> (r: Option<usize>)
    ensures
        r == parsed_usize(s@),
{
    s.parse::<usize>().ok()
}

/// `ts` with `tr` added at the end unless it is already there.
pub open spec fn with_transition(
    ts: Seq<(Seq<char>, Seq<char>, Seq<char>)>,
    tr: (Seq<char>, Seq<char>, Seq<char>),
) -> Seq<(Seq<char>, Seq<char>, Seq<char>)> {
    if ts.contains(tr) {
        ts
    } else {
        ts.push(tr)
    }
}

/// The transitions that lines `5..i` give, in order, without repeats.
pub open spec fn transitions_read(lines: Seq<Seq<char>>, i: int) -> Seq<
    (Seq<char>, Seq<char>, Seq<char>),
>
    decreases i,
{
    if i <= 5 {
        Seq::empty()
    } else {
        let w = words_of(lines[i - 1]);
        with_transition(transitions_read(lines, i - 1), (w[0], w[1], w[2]))
    }
}

/// Every line after the header has at least three words.
pub open spec fn transition_lines_ok(lines: Seq<Seq<char>>) -> bool {
    forall|i: int| 5 <= i < lines.len() ==> (#[trigger] words_of(lines[i])).len() >= 3
}

/// The automaton that a well-formed text describes.
pub open spec fn model_of_lines(lines: Seq<Seq<char>>) -> AutomatonModel {
    AutomatonModel {
        states: words_of(lines[1]),
        alphabet: words_of(lines[2]),
        start: trim_of(lines[3]),
        finals: words_of(lines[4]),
        transitions: transitions_read(lines, lines.len() as int),
    }
}

/// Whether the text is laid out as an automaton: five header lines, a
/// number of states first, and three words on each transition line.
pub open spec fn layout_ok(lines: Seq<Seq<char>>) -> bool {
    &&& lines.len() >= 5
    &&& parsed_usize(trim_of(lines[0])) is Some
    &&& transition_lines_ok(lines)
}

/// Whether a table of the automaton fits in memory.
pub open spec fn table_fits(m: AutomatonModel) -> bool {
    m.states.len() * m.alphabet.len() <= usize::MAX
}

/// Reads an automaton from its text form and checks that it is a complete
/// deterministic automaton.
pub fn parse_automata(text: &str) -> (r: Result<DeterministicFinalAutomata, ParseError>)
    ensures
        lines_of(text@).len() < 5 ==> r == Err::<DeterministicFinalAutomata, ParseError>(
            ParseError::MissingLine,
        ),
        lines_of(text@).len() >= 5 && parsed_usize(trim_of(lines_of(text@)[0])) is None ==> r
            == Err::<DeterministicFinalAutomata, ParseError>(ParseError::BadStateCount),
        lines_of(text@).len() >= 5 && parsed_usize(trim_of(lines_of(text@)[0])) is Some
            && !transition_lines_ok(lines_of(text@)) ==> r == Err::<
            DeterministicFinalAutomata,
            ParseError,
        >(ParseError::BadTransition),
        layout_ok(lines_of(text@)) && !table_fits(model_of_lines(lines_of(text@))) ==> r == Err::<
            DeterministicFinalAutomata,
            ParseError,
        >(ParseError::TooLarge),
        layout_ok(lines_of(text@)) && table_fits(model_of_lines(lines_of(text@)))
            && !model_of_lines(lines_of(text@)).is_valid() ==> r == Err::<
            DeterministicFinalAutomata,
            ParseError,
        >(ParseError::Invalid(model_of_lines(lines_of(text@)).validation()->Err_0)),
        layout_ok(lines_of(text@)) && table_fits(model_of_lines(lines_of(text@)))
            && model_of_lines(lines_of(text@)).is_valid() ==> {
            &&& r is Ok
            &&& r->Ok_0@ == model_of_lines(lines_of(text@))
            &&& r->Ok_0.declared_count() == parsed_usize(trim_of(lines_of(text@)[0]))->Some_0
        },
{
    let lines = split_lines(text);
    let ghost ls = lines_of(text@);
    if lines.len() < 5 {
        return Err(ParseError::MissingLine);
    }
    proof {
        assert(ls[0] == lines@[0]@);
        assert(ls[1] == lines@[1]@);
        assert(ls[2] == lines@[2]@);
        assert(ls[3] == lines@[3]@);
        assert(ls[4] == lines@[4]@);
    }
    let count = match parse_count(trimmed(lines[0].as_str()).as_str()) {
        Some(c) => c,
        None => {
            return Err(ParseError::BadStateCount);
        },
    };
    let states = split_words(lines[1].as_str());
    let alphabet = split_words(lines[2].as_str());
    let start = trimmed(lines[3].as_str());
    let finals = split_words(lines[4].as_str());
    let mut dfa = DeterministicFinalAutomata::new(count, states, alphabet, start, finals);
    for i in 5..lines.len()
        invariant
            ls == lines_of(text@),
            ls == labels(lines@),
            ls.len() >= 5,
            parsed_usize(trim_of(ls[0])) == Some(count),
            dfa@.states == words_of(ls[1]),
            dfa@.alphabet == words_of(ls[2]),
            dfa@.start == trim_of(ls[3]),
            dfa@.finals == words_of(ls[4]),
            dfa@.transitions == transitions_read(ls, i as int),
            dfa.declared_count() == count,
            forall|j: int| 5 <= j < i ==> (#[trigger] words_of(ls[j])).len() >= 3,
    {
        let words = split_words(lines[i].as_str());
        proof {
            assert(ls[i as int] == lines@[i as int]@);
        }
        if words.len() < 3 {
            proof {
                assert(words_of(ls[i as int]).len() < 3);
            }
            return Err(ParseError::BadTransition);
        }
        proof {
            assert(words_of(ls[i as int])[0] == words@[0]@);
            assert(words_of(ls[i as int])[1] == words@[1]@);
            assert(words_of(ls[i as int])[2] == words@[2]@);
        }
        dfa.add_transition(words[0].as_str(), words[1].as_str(), words[2].as_str());
    }
    let n = dfa.states().len();
    let k = dfa.alphabet().len();
    if k > 0 && n > usize::MAX / k {
        proof {
            assert(n * k > usize::MAX) by (nonlinear_arith)
                requires
                    k > 0,
                    n > usize::MAX / k,
            ;
            assert(dfa@.states.len() == n && dfa@.alphabet.len() == k);
        }
        return Err(ParseError::TooLarge);
    }
    proof {
        if k > 0 {
            assert(n * k <= usize::MAX) by (nonlinear_arith)
                requires
                    k > 0,
                    n <= usize::MAX / k,
            ;
        } else {
            assert(n * k == 0) by (nonlinear_arith)
                requires
                    k == 0,
            ;
        }
        assert(dfa@.states.len() == n && dfa@.alphabet.len() == k);
    }
    match dfa.to_table() {
        Ok(_) => Ok(dfa),
        Err(e) => Err(ParseError::Invalid(e)),
    }
}

/// The transitions that lines `6..i` of a stack automaton's text give.
pub open spec fn rules_read(lines: Seq<Seq<char>>, i: int) -> Seq<Rule>
    decreases i,
{
    if i <= 6 {
        Seq::empty()
    } else {
        let w = words_of(lines[i - 1]);
        rules_read(lines, i - 1).push((w[0], w[1], w[2], w[3], w[4]))
    }
}

/// Every line after the six header lines has at least five words.
pub open spec fn rule_lines_ok(lines: Seq<Seq<char>>) -> bool {
    forall|i: int| 6 <= i < lines.len() ==> (#[trigger] words_of(lines[i])).len() >= 5
}

/// The stack automaton that a well-formed text describes.
pub open spec fn stack_model_of_lines(lines: Seq<Seq<char>>) -> StackModel {
    StackModel {
        states: words_of(lines[0]),
        alphabet: words_of(lines[1]),
        stack_alphabet: words_of(lines[2]),
        start: lines[3],
        stack_start: lines[4],
        finals: words_of(lines[5]),
        rules: rules_read(lines, lines.len() as int),
        stack: Seq::empty(),
    }
}

/// Reads a stack automaton from its text form: the states, the input
/// symbols, the stack symbols, the start state, the start stack symbol, the
/// final states, then one `from_state input_symbol stack_symbol
/// new_stack_symbols to_state` transition per line.
pub fn parse_stack_automata(text: &str) -> (r: Result<StackAutomata, ParseError>)
    ensures
        lines_of(text@).len() < 6 ==> r == Err::<StackAutomata, ParseError>(ParseError::MissingLine),
        lines_of(text@).len() >= 6 && !rule_lines_ok(lines_of(text@)) ==> r == Err::<
            StackAutomata,
            ParseError,
        >(ParseError::BadTransition),
        lines_of(text@).len() >= 6 && rule_lines_ok(lines_of(text@)) ==> {
            &&& r is Ok
            &&& r->Ok_0@ == stack_model_of_lines(lines_of(text@))
            &&& r->Ok_0.declared_count() == words_of(lines_of(text@)[0]).len()
        },
{
    let lines = split_lines(text);
    let ghost ls = lines_of(text@);
    if lines.len() < 6 {
        return Err(ParseError::MissingLine);
    }
    proof {
        assert(ls[0] == lines@[0]@);
        assert(ls[1] == lines@[1]@);
        assert(ls[2] == lines@[2]@);
        assert(ls[3] == lines@[3]@);
        assert(ls[4] == lines@[4]@);
        assert(ls[5] == lines@[5]@);
    }
    let states = split_words(lines[0].as_str());
    let count = states.len();
    let alphabet = split_words(lines[1].as_str());
    let stack_alphabet = split_words(lines[2].as_str());
    let start = lines[3].clone();
    let stack_start = lines[4].clone();
    let finals = split_words(lines[5].as_str());
    let mut pda = StackAutomata::new(count, states, alphabet, stack_alphabet, start, stack_start, finals);
    for i in 6..lines.len()
        invariant
            ls == lines_of(text@),
            ls == labels(lines@),
            ls.len() >= 6,
            count == words_of(ls[0]).len(),
            pda@ == (StackModel { rules: rules_read(ls, i as int), ..stack_model_of_lines(ls) }),
            pda.declared_count() == count,
            forall|j: int| 6 <= j < i ==> (#[trigger] words_of(ls[j])).len() >= 5,
    {
        let words = split_words(lines[i].as_str());
        proof {
            assert(ls[i as int] == lines@[i as int]@);
        }
        if words.len() < 5 {
            proof {
                assert(words_of(ls[i as int]).len() < 5);
            }
            return Err(ParseError::BadTransition);
        }
        proof {
            assert(words_of(ls[i as int])[0] == words@[0]@);
            assert(words_of(ls[i as int])[1] == words@[1]@);
            assert(words_of(ls[i as int])[2] == words@[2]@);
            assert(words_of(ls[i as int])[3] == words@[3]@);
            assert(words_of(ls[i as int])[4] == words@[4]@);
        }
        pda.add_transition(
            words[0].clone(),
            words[1].clone(),
            words[2].clone(),
            words[3].clone(),
            words[4].clone(),
        );
    }
    Ok(pda)
}

} // verus!
