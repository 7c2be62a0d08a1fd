use vstd::prelude::*;
use std::collections::VecDeque;
use crate::automata::labels;

verus! {

/// A transition `(from_state, input_symbol, stack_symbol, new_stack_symbols,
/// to_state)` as labels.
pub type Rule = (Seq<char>, Seq<char>, Seq<char>, Seq<char>, Seq<char>);

pub open spec fn rule_labels(v: Seq<(String, String, String, String, String)>) -> Seq<Rule> {
    v.map_values(|t: (String, String, String, String, String)| (t.0@, t.1@, t.2@, t.3@, t.4@))
}

/// What a stack automaton holds, as labels.
pub struct StackModel {
    pub states: Seq<Seq<char>>,
    pub alphabet: Seq<Seq<char>>,
    pub stack_alphabet: Seq<Seq<char>>,
    pub start: Seq<char>,
    pub stack_start: Seq<char>,
    pub finals: Seq<Seq<char>>,
    pub rules: Seq<Rule>,
    pub stack: Seq<Seq<char>>,
}

/// Why a word could not be run to its end.
#[derive(Clone, Copy, Debug, PartialEq, Eq, Structural)]
pub enum StackError {
    /// A transition that was taken has new stack symbols that are empty, or
    /// that do not begin with `E` and have no text after their second byte.
    BadReplacement,
}

/// Where a run stands: the current state, the stack symbol that the next
/// transition reads, and the stack.
pub struct Config {
    pub state: Seq<char>,
    pub top: Seq<char>,
    pub stack: Seq<Seq<char>>,
}

pub enum Step {
    Next(Config),
    Stuck,
    Bad,
}

pub enum Halt {
    Done,
    Stuck,
    Bad,
}

/// The text after the second byte of a string, as `str::get(2..)` gives it.
pub uninterp spec fn tail_after_two_bytes(s: Seq<char>) -> Option<Seq<char>>;

/// The index of the first rule from `state` on `input` with `top` on the
/// stack, looking from `i` on.
pub open spec fn first_rule(rules: Seq<Rule>, state: Seq<char>, input: Seq<char>, top: Seq<char>, i: int) -> Option<int>
    decreases rules.len() - i,
{
    if i < 0 || i >= rules.len() {
        None
    } else if rules[i].0 == state && rules[i].1 == input && rules[i].2 == top {
        Some(i)
    } else {
        first_rule(rules, state, input, top, i + 1)
    }
}

/// What a rule's new stack symbols push: `E` (pop) when they begin with
/// `E`, else the text after their second byte.
pub open spec fn pushed_part(r: Seq<char>) -> Option<Seq<char>> {
    if r.len() == 0 {
        None
    } else if r[0] == 'E' {
        Some(seq!['E'])
    } else {
        tail_after_two_bytes(r)
    }
}

/// One letter read from `c`.
pub open spec fn step(m: StackModel, c: Config, letter: char) -> Step {
    match first_rule(m.rules, c.state, seq![letter], c.top, 0) {
        None => Step::Stuck,
        Some(i) => match pushed_part(m.rules[i].3) {
            None => Step::Bad,
            Some(p) => if p == seq!['E'] {
                let rest = if c.stack.len() > 0 {
                    c.stack.drop_last()
                } else {
                    c.stack
                };
                Step::Next(
                    Config {
                        state: m.rules[i].4,
                        top: if rest.len() > 0 {
                            rest.last()
                        } else {
                            m.stack_start
                        },
                        stack: rest,
                    },
                )
            } else {
                Step::Next(Config { state: m.rules[i].4, top: p, stack: c.stack.push(p) })
            },
        },
    }
}

/// The configuration reached after reading `w` from `c`, and how the run
/// ended.
pub open spec fn run(m: StackModel, c: Config, w: Seq<char>) -> (Config, Halt)
    decreases w.len(),
{
    if w.len() == 0 {
        (c, Halt::Done)
    } else {
        match step(m, c, w[0]) {
            Step::Next(c2) => run(m, c2, w.drop_first()),
            Step::Stuck => (c, Halt::Stuck),
            Step::Bad => (c, Halt::Bad),
        }
    }
}

/// Where every run starts: the start state, with the start symbol pushed.
pub open spec fn start_config(m: StackModel) -> Config {
    Config { state: m.start, top: m.stack_start, stack: m.stack.push(m.stack_start) }
}

/// What a run of `w` answers and leaves on the stack: a finished run
/// accepts when the start state is final and the start symbol is on top.
pub open spec fn word_outcome(m: StackModel, w: Seq<char>) -> (Result<bool, StackError>, Seq<Seq<char>>) {
    let (c, h) = run(m, start_config(m), w);
    let answer = match h {
        Halt::Done => Ok(
            m.finals.contains(m.start) && c.stack.len() > 0 && c.stack.last() == m.stack_start,
        ),
        Halt::Stuck => Ok(false),
        Halt::Bad => Err(StackError::BadReplacement),
    };
    (answer, c.stack)
}

proof fn lemma_first_rule(rules: Seq<Rule>, state: Seq<char>, input: Seq<char>, top: Seq<char>, j: int)
    requires
        0 <= j,
        first_rule(rules, state, input, top, j) is Some,
    ensures
        ({
            let i = first_rule(rules, state, input, top, j)->Some_0;
            j <= i < rules.len() && rules[i].0 == state && rules[i].1 == input && rules[i].2 == top
        }),
    decreases rules.len() - j,
{
    if j < rules.len() && !(rules[j].0 == state && rules[j].1 == input && rules[j].2 == top) {
        lemma_first_rule(rules, state, input, top, j + 1);
    }
}

/// Relies on `str::chars`: the characters of the string, in order.
#[verifier::external_body]
pub(crate) fn chars_of(s: &str) -> (r: Vec<char>)
    ensures
        r@ == s@,
{
    s.chars().collect()
}

/// Relies on `char::to_string`: a string of that one character.
#[verifier::external_body]
fn char_string(c: char) -> (r: String)
    ensures
        r@ == seq![c],
{
    c.to_string()
}

/// Relies on `str::chars`: the first character, if any.
#[verifier::external_body]
fn first_char(s: &str) -> (r: Option<char>)
    ensures
        r == if s@.len() > 0 {
            Some(s@[0])
        } else {
            None
        },
{
    s.chars().next()
}

/// Relies on `str::get(2..)`: the text after the second byte, when that is
/// a character boundary.
#[verifier::external_body]
fn after_two_bytes(s: &str) -> (r: Option<String>)
    ensures
        match r {
            Some(t) => tail_after_two_bytes(s@) == Some(t@),
            None => tail_after_two_bytes(s@) is None,
        },
{
    s.get(2..).map(String::from)
}

/// Relies on `str::starts_with`: whether `prefix` begins `s`.
#[verifier::external_body]
pub(crate) fn starts_with(s: &str, prefix: &str) -> (r: bool)
    ensures
        r == (prefix@.len() <= s@.len() && s@.subrange(0, prefix@.len() as int) == prefix@),
{
    s.starts_with(prefix)
}

/// A pushdown automaton that reads a word one letter at a time, keeping
/// its stack between words.
pub struct StackAutomata {
    nr_of_states: usize,
    states: Vec<String>,
    alphabet: Vec<String>,
    stack_alphabet: Vec<String>,
    start_state: String,
    stack_start: String,
    final_states: Vec<String>,
    transitions: Vec<(String, String, String, String, String)>,
    stack: VecDeque<String>,
}

impl View for StackAutomata {
    type V = StackModel;

    closed spec fn view(&self) -> StackModel {
        StackModel {
            states: labels(self.states@),
            alphabet: labels(self.alphabet@),
            stack_alphabet: labels(self.stack_alphabet@),
            start: self.start_state@,
            stack_start: self.stack_start@,
            finals: labels(self.final_states@),
            rules: rule_labels(self.transitions@),
            stack: labels(self.stack@),
        }
    }
}

impl StackAutomata {
    /// An automaton with no transitions and an empty stack.
    pub fn new(
        nr_of_states: usize,
        states: Vec<String>,
        alphabet: Vec<String>,
        stack_alphabet: Vec<String>,
        start_state: String,
        stack_start: String,
        final_states: Vec<String>,
    ) -> (r: Self)
        ensures
            r@ == (StackModel {
                states: labels(states@),
                alphabet: labels(alphabet@),
                stack_alphabet: labels(stack_alphabet@),
                start: start_state@,
                stack_start: stack_start@,
                finals: labels(final_states@),
                rules: Seq::empty(),
                stack: Seq::empty(),
            }),
            r.declared_count() == nr_of_states,
    {
        let r = StackAutomata {
            nr_of_states,
            states,
            alphabet,
            stack_alphabet,
            start_state,
            stack_start,
            final_states,
            transitions: Vec::new(),
            stack: VecDeque::new(),
        };
        proof {
            assert(rule_labels(r.transitions@) =~= Seq::empty());
            assert(labels(r.stack@) =~= Seq::empty());
        }
        r
    }

    pub closed spec fn declared_count(&self) -> nat {
        self.nr_of_states as nat
    }

    pub fn nr_of_states(&self) -> (r: usize)
        ensures
            r == self.declared_count(),
    {
        self.nr_of_states
    }

    /// Appends a transition.
    pub fn add_transition(
        &mut self,
        from_state: String,
        input_symbol: String,
        stack_symbol: String,
        new_stack_symbols: String,
        to_state: String,
    )
        ensures
            final(self)@ == (StackModel {
                rules: old(self)@.rules.push(
                    (from_state@, input_symbol@, stack_symbol@, new_stack_symbols@, to_state@),
                ),
                ..old(self)@
            }),
            final(self).declared_count() == old(self).declared_count(),
    {
        let ghost before = self.transitions@;
        self.transitions.push((from_state, input_symbol, stack_symbol, new_stack_symbols, to_state));
        proof {
            assert(rule_labels(self.transitions@) =~= rule_labels(before).push(
                (from_state@, input_symbol@, stack_symbol@, new_stack_symbols@, to_state@),
            ));
        }
    }

    /// Pushes a symbol onto the stack.
    pub fn add_to_stack(&mut self, new_stack_symbols: &str)
        ensures
            final(self)@ == (StackModel {
                stack: old(self)@.stack.push(new_stack_symbols@),
                ..old(self)@
            }),
            final(self).declared_count() == old(self).declared_count(),
    {
        let ghost before = self.stack@;
        self.stack.push_back(new_stack_symbols.to_owned());
        proof {
            assert(labels(self.stack@) =~= labels(before).push(new_stack_symbols@));
        }
    }

    /// Pops the top of the stack, if there is one.
    pub fn remove_from_stack(&mut self)
        ensures
            final(self)@ == (StackModel {
                stack: if old(self)@.stack.len() > 0 {
                    old(self)@.stack.drop_last()
                } else {
                    old(self)@.stack
                },
                ..old(self)@
            }),
            final(self).declared_count() == old(self).declared_count(),
    {
        let ghost before = self.stack@;
        let _ = self.stack.pop_back();
        proof {
            if before.len() > 0 {
                assert(labels(self.stack@) =~= labels(before).drop_last());
            }
        }
    }

    /// The symbol on top of the stack, or the start symbol when the stack
    /// is empty.
    fn top_or_start(&self) -> (r: String)
        ensures
            r@ == if self@.stack.len() > 0 {
                self@.stack.last()
            } else {
                self@.stack_start
            },
    {
        let n = self.stack.len();
        if n > 0 {
            self.stack[n - 1].clone()
        } else {
            self.stack_start.clone()
        }
    }

    pub fn is_final_state(&self, state: &str) -> (r: bool)
        ensures
            r == self@.finals.contains(state@),
    {
        let s = state.to_owned();
        for i in 0..self.final_states.len()
            invariant
                s@ == state@,
                forall|j: int| 0 <= j < i ==> self@.finals[j] != state@,
        {
            if self.final_states[i] == s {
                proof {
                    assert(self@.finals[i as int] == state@);
                }
                return true;
            }
        }
        false
    }

    /// Whether some transition leaves `from_state` on `input_symbol` with a
    /// stack symbol that begins with `stack_state`.
    pub fn is_valid_transition(&self, from_state: &str, input_symbol: &str, stack_state: &str) -> (r:
        bool)
        ensures
            r == exists|i: int|
                0 <= i < self@.rules.len() && (#[trigger] self@.rules[i]).0 == from_state@
                    && self@.rules[i].1 == input_symbol@ && stack_state@.len() <= self@.rules[i].2.len()
                    && self@.rules[i].2.subrange(0, stack_state@.len() as int) == stack_state@,
    {
        let from = from_state.to_owned();
        let input = input_symbol.to_owned();
        for i in 0..self.transitions.len()
            invariant
                from@ == from_state@,
                input@ == input_symbol@,
                forall|j: int|
                    0 <= j < i ==> !((#[trigger] self@.rules[j]).0 == from_state@ && self@.rules[j].1
                        == input_symbol@ && stack_state@.len() <= self@.rules[j].2.len()
                        && self@.rules[j].2.subrange(0, stack_state@.len() as int) == stack_state@),
        {
            let t = &self.transitions[i];
            proof {
                assert(self@.rules[i as int] == (t.0@, t.1@, t.2@, t.3@, t.4@));
            }
            if t.0 == from && t.1 == input && starts_with(t.2.as_str(), stack_state) {
                return true;
            }
        }
        false
    }

    /// The first transition from `from_state` on `input_symbol` with
    /// `stack_state` on the stack.
    pub fn get_transition(&self, from_state: &str, input_symbol: &str, stack_state: &str) -> (r:
        Option<(String, String, String, String, String)>)
        ensures
            match first_rule(self@.rules, from_state@, input_symbol@, stack_state@, 0) {
                Some(i) => r is Some && (r->Some_0.0@, r->Some_0.1@, r->Some_0.2@, r->Some_0.3@, r->Some_0.4@)
                    == self@.rules[i],
                None => r is None,
            },
    {
        let from = from_state.to_owned();
        let input = input_symbol.to_owned();
        let top = stack_state.to_owned();
        for i in 0..self.transitions.len()
            invariant
                from@ == from_state@,
                input@ == input_symbol@,
                top@ == stack_state@,
                first_rule(self@.rules, from_state@, input_symbol@, stack_state@, 0) == first_rule(
                    self@.rules,
                    from_state@,
                    input_symbol@,
                    stack_state@,
                    i as int,
                ),
        {
            let t = &self.transitions[i];
            proof {
                assert(self@.rules[i as int] == (t.0@, t.1@, t.2@, t.3@, t.4@));
            }
            if t.0 == from && t.1 == input && t.2 == top {
                return Some((t.0.clone(), t.1.clone(), t.2.clone(), t.3.clone(), t.4.clone()));
            }
        }
        None
    }

    /// Runs the automaton on `word`: the start symbol is pushed, then each
    /// letter takes the first transition from the current state on that
    /// letter with the current stack symbol, popping when its new stack
    /// symbols begin with `E` and pushing the text after their second byte
    /// otherwise. The word is accepted when every letter was read, the
    /// start state is final and the start symbol is on top of the stack.
    pub fn process_word(&mut self, word: &str) -> (r: Result<bool, StackError>)
        ensures
            r == word_outcome(old(self)@, word@).0,
            final(self)@ == (StackModel { stack: word_outcome(old(self)@, word@).1, ..old(self)@ }),
            final(self).declared_count() == old(self).declared_count(),
    {
        let ghost m = self@;
        let stack_start = self.stack_start.clone();
        self.add_to_stack(stack_start.as_str());
        let mut current_state = self.start_state.clone();
        let mut current_top = stack_start.clone();
        let letters = chars_of(word);
        let pop_mark = char_string('E');
        proof {
            assert(word@.subrange(0, word@.len() as int) =~= word@);
            assert(self@.stack == m.stack.push(m.stack_start));
            assert((Config { state: current_state@, top: current_top@, stack: self@.stack })
                == start_config(m));
        }
        for i in 0..letters.len()
            invariant
                letters@ == word@,
                pop_mark@ == seq!['E'],
                self@ == (StackModel { stack: self@.stack, ..m }),
                self.declared_count() == old(self).declared_count(),
                m == old(self)@,
                run(m, start_config(m), word@) == run(
                    m,
                    Config { state: current_state@, top: current_top@, stack: self@.stack },
                    word@.subrange(i as int, word@.len() as int),
                ),
        {
            let ghost c = Config { state: current_state@, top: current_top@, stack: self@.stack };
            let ghost rest = word@.subrange(i as int, word@.len() as int);
            proof {
                assert(rest[0] == letters@[i as int]);
                assert(rest.drop_first() =~= word@.subrange(i + 1, word@.len() as int));
            }
            let letter = char_string(letters[i]);
            let found = self.get_transition(current_state.as_str(), letter.as_str(), current_top.as_str());
            let tr = match found {
                Some(tr) => tr,
                None => {
                    return Ok(false);
                },
            };
            let ghost k = first_rule(m.rules, c.state, seq![letters@[i as int]], c.top, 0)->Some_0;
            proof {
                lemma_first_rule(m.rules, c.state, seq![letters@[i as int]], c.top, 0);
            }
            let (_, _, _, next_stack, next_state) = tr;
            let part = match first_char(next_stack.as_str()) {
                None => {
                    return Err(StackError::BadReplacement);
                },
                Some(ch) => {
                    if ch != 'E' {
                        match after_two_bytes(next_stack.as_str()) {
                            Some(t) => t,
                            None => {
                                return Err(StackError::BadReplacement);
                            },
                        }
                    } else {
                        char_string('E')
                    }
                },
            };
            proof {
                assert(pushed_part(m.rules[k].3) == Some(part@));
                assert(m.rules[k].2.subrange(0, c.top.len() as int) =~= c.top);
            }
            if self.is_valid_transition(current_state.as_str(), letter.as_str(), current_top.as_str()) {
                if part == pop_mark {
                    self.remove_from_stack();
                    current_state = next_state;
                    current_top = self.top_or_start();
                } else {
                    self.add_to_stack(part.as_str());
                    current_state = next_state;
                    current_top = part;
                }
            } else {
                return Ok(false);
            }
        }
        proof {
            assert(word@.subrange(word@.len() as int, word@.len() as int) =~= Seq::<char>::empty());
        }
        let n = self.stack.len();
        let on_top = n > 0 && self.stack[n - 1] == stack_start;
        proof {
            if n > 0 {
                assert(self@.stack.last() == self.stack@[n - 1]@);
            }
        }
        let start = self.start_state.clone();
        Ok(self.is_final_state(start.as_str()) && on_top)
    }

    pub fn states(&self) -> (r: &Vec<String>)
        ensures
            labels(r@) == self@.states,
    {
        &self.states
    }

    pub fn alphabet(&self) -> (r: &Vec<String>)
        ensures
            labels(r@) == self@.alphabet,
    {
        &self.alphabet
    }

    pub fn stack_alphabet(&self) -> (r: &Vec<String>)
        ensures
            labels(r@) == self@.stack_alphabet,
    {
        &self.stack_alphabet
    }

    pub fn start_state(&self) -> (r: &String)
        ensures
            r@ == self@.start,
    {
        &self.start_state
    }

    pub fn stack_start(&self) -> (r: &String)
        ensures
            r@ == self@.stack_start,
    {
        &self.stack_start
    }

    pub fn final_states(&self) -> (r: &Vec<String>)
        ensures
            labels(r@) == self@.finals,
    {
        &self.final_states
    }

    pub fn transitions(&self) -> (r: &Vec<(String, String, String, String, String)>)
        ensures
            rule_labels(r@) == self@.rules,
    {
        &self.transitions
    }

    /// The stack, bottom first.
    pub fn stack(&self) -> (r: Vec<String>)
        ensures
            labels(r@) == self@.stack,
    {
        let mut out: Vec<String> = Vec::new();
        for i in 0..self.stack.len()
            invariant
                out@.len() == i,
                i <= self.stack@.len(),
                forall|j: int| 0 <= j < i ==> #[trigger] out@[j]@ == self.stack@[j]@,
        {
            out.push(self.stack[i].clone());
        }
        proof {
            assert(labels(out@) =~= self@.stack);
        }
        out
    }
}

} // verus!
