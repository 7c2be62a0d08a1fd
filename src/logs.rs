use vstd::prelude::*;
use crate::automata::labels;
use crate::parse::{lines_of, split_lines, trim_of, trimmed};
use crate::stack::starts_with;

verus! {

#[verifier::external_type_specification]
#[verifier::external_body]
pub struct ExRegex(regex::Regex);

/// Whether `regex::Regex::new` accepts the pattern.
pub uninterp spec fn regex_compiles(pattern: Seq<char>) -> bool;

/// Whether the pattern matches somewhere in the text, as
/// `regex::Regex::is_match` decides.
pub uninterp spec fn regex_matches(pattern: Seq<char>, text: Seq<char>) -> bool;

/// The groups of the first match of the pattern in the text, group 0 being
/// the whole match, as `regex::Regex::captures` gives them.
pub uninterp spec fn regex_groups(pattern: Seq<char>, text: Seq<char>) -> Option<Seq<Option<Seq<char>>>>;

/// The groups of each successive match of the pattern in the text, as
/// `regex::Regex::captures_iter` gives them.
pub uninterp spec fn regex_all_groups(pattern: Seq<char>, text: Seq<char>) -> Seq<Seq<Option<Seq<char>>>>;

pub open spec fn group_labels(v: Seq<Option<String>>) -> Seq<Option<Seq<char>>> {
    v.map_values(
        |g: Option<String>|
            match g {
                Some(s) => Some(s@),
                None => None,
            },
    )
}

/// A regular expression together with the pattern it was compiled from.
pub struct Pattern {
    source: String,
    compiled: regex::Regex,
}

impl Pattern {
    pub closed spec fn source(&self) -> Seq<char> {
        self.source@
    }

    /// Relies on `regex::Regex::new`: compiles the pattern, or fails.
    #[verifier::external_body]
    fn compile(source: &str) -> (r: Option<Pattern>)
        ensures
            r is Some == regex_compiles(source@),
            r is Some ==> r->Some_0.source() == source@,
    {
        regex::Regex::new(source).ok().map(|compiled| Pattern { source: source.to_string(), compiled })
    }

    /// Relies on `regex::Regex::is_match`.
    #[verifier::external_body]
    fn is_match(&self, text: &str) -> (r: bool)
        ensures
            r == regex_matches(self.source(), text@),
    {
        self.compiled.is_match(text)
    }

    /// Relies on `regex::Regex::captures`: each group's text, if it took part.
    #[verifier::external_body]
    fn captures(&self, text: &str) -> (r: Option<Vec<Option<String>>>)
        ensures
            match r {
                Some(g) => regex_groups(self.source(), text@) == Some(group_labels(g@)),
                None => regex_groups(self.source(), text@) is None,
            },
    {
        self.compiled.captures(text).map(
            |c| c.iter().map(|m| m.map(|m| m.as_str().to_string())).collect(),
        )
    }

    /// Relies on `regex::Regex::captures_iter`: the groups of every match.
    #[verifier::external_body]
    fn captures_all(&self, text: &str) -> (r: Vec<Vec<Option<String>>>)
        ensures
            r@.len() == regex_all_groups(self.source(), text@).len(),
            forall|i: int|
                0 <= i < r@.len() ==> group_labels(#[trigger] r@[i]@) == regex_all_groups(
                    self.source(),
                    text@,
                )[i],
    {
        self.compiled.captures_iter(text).map(
            |c| c.iter().map(|m| m.map(|m| m.as_str().to_string())).collect(),
        ).collect()
    }
}

/// The text of group `i`, empty when the group is absent.
pub open spec fn group_text(g: Seq<Option<Seq<char>>>, i: int) -> Seq<char> {
    if 0 <= i < g.len() && g[i] is Some {
        g[i]->Some_0
    } else {
        Seq::empty()
    }
}

fn group(g: &Vec<Option<String>>, i: usize) -> (r: String)
    ensures
        r@ == group_text(group_labels(g@), i as int),
{
    if i < g.len() {
        match &g[i] {
            Some(s) => s.clone(),
            None => String::new(),
        }
    } else {
        String::new()
    }
}

/// Number of lines in which the pattern matches.
pub open spec fn count_matching(pattern: Seq<char>, lines: Seq<Seq<char>>) -> nat
    decreases lines.len(),
{
    if lines.len() == 0 {
        0
    } else {
        count_matching(pattern, lines.drop_last()) + if regex_matches(pattern, lines.last()) {
            1nat
        } else {
            0nat
        }
    }
}

pub fn count_matches(pattern: &Pattern, lines: &Vec<String>) -> (r: usize)
    ensures
        r == count_matching(pattern.source(), labels(lines@)),
{
    let mut count: usize = 0;
    for i in 0..lines.len()
        invariant
            count == count_matching(pattern.source(), labels(lines@).subrange(0, i as int)),
            count <= i,
    {
        proof {
            assert(labels(lines@).subrange(0, i + 1).drop_last() =~= labels(lines@).subrange(0, i as int));
        }
        if pattern.is_match(lines[i].as_str()) {
            count = count + 1;
        }
    }
    proof {
        assert(labels(lines@).subrange(0, lines@.len() as int) =~= labels(lines@));
    }
    count
}

/// Where the search for error stack traces stands.
pub struct TraceState {
    pub inside: bool,
    pub current: Seq<Seq<char>>,
    pub traces: Seq<Seq<Seq<char>>>,
}

/// One line read: an entry of level `E` opens a trace, or adds its trimmed
/// message to the open one; a line that is no entry and does not start with
/// a space closes the open trace.
pub open spec fn trace_step(entry: Seq<char>, st: TraceState, line: Seq<char>) -> TraceState {
    match regex_groups(entry, line) {
        Some(g) => if group_text(g, 4) == seq!['E'] {
            TraceState { inside: true, current: st.current.push(trim_of(group_text(g, 6))), traces: st.traces }
        } else {
            st
        },
        None => if st.inside && !(line.len() > 0 && line[0] == ' ') {
            TraceState { inside: false, current: Seq::empty(), traces: st.traces.push(st.current) }
        } else {
            st
        },
    }
}

pub open spec fn trace_fold(entry: Seq<char>, lines: Seq<Seq<char>>) -> TraceState
    decreases lines.len(),
{
    if lines.len() == 0 {
        TraceState { inside: false, current: Seq::empty(), traces: Seq::empty() }
    } else {
        trace_step(entry, trace_fold(entry, lines.drop_last()), lines.last())
    }
}

pub open spec fn trace_labels(v: Seq<Vec<String>>) -> Seq<Seq<Seq<char>>> {
    v.map_values(|t: Vec<String>| labels(t@))
}

/// The closed error stack traces of the log, each as its list of messages.
pub fn stack_traces(entry: &Pattern, lines: &Vec<String>) -> (r: Vec<Vec<String>>)
    ensures
        trace_labels(r@) == trace_fold(entry.source(), labels(lines@)).traces,
{
    let mut traces: Vec<Vec<String>> = Vec::new();
    let mut current: Vec<String> = Vec::new();
    let mut inside = false;
    let space = " ".to_owned();
    proof {
        reveal_strlit(" ");
        assert(trace_labels(traces@) =~= Seq::empty());
        assert(labels(current@) =~= Seq::empty());
        assert(labels(lines@).subrange(0, 0) =~= Seq::<Seq<char>>::empty());
    }
    for i in 0..lines.len()
        invariant
            space@ == seq![' '],
            ({
                let st = trace_fold(entry.source(), labels(lines@).subrange(0, i as int));
                st.inside == inside && st.current == labels(current@) && st.traces == trace_labels(
                    traces@,
                )
            }),
    {
        let ghost prefix = labels(lines@).subrange(0, i + 1);
        proof {
            assert(prefix.drop_last() =~= labels(lines@).subrange(0, i as int));
            assert(prefix.last() == lines@[i as int]@);
            assert(trace_fold(entry.source(), prefix) == trace_step(
                entry.source(),
                trace_fold(entry.source(), labels(lines@).subrange(0, i as int)),
                lines@[i as int]@,
            ));
        }
        let ghost state_before = trace_fold(entry.source(), labels(lines@).subrange(0, i as int));
        let ghost state_after = trace_fold(entry.source(), prefix);
        match entry.captures(lines[i].as_str()) {
            Some(g) => {
                let level = group(&g, 4);
                let e = "E".to_owned();
                proof {
                    reveal_strlit("E");
                    assert(e@ == seq!['E']);
                    assert(regex_groups(entry.source(), lines@[i as int]@) == Some(group_labels(g@)));
                    if level@ != seq!['E'] {
                        assert(state_after == state_before);
                    }
                }
                if level == e {
                    inside = true;
                    let message = group(&g, 6);
                    let ghost before = current@;
                    current.push(trimmed(message.as_str()));
                    proof {
                        assert(labels(current@) =~= labels(before).push(trim_of(message@)));
                    }
                }
            },
            None => {
                if inside && !starts_with(lines[i].as_str(), space.as_str()) {
                    proof {
                        let l = lines@[i as int]@;
                        if l.len() > 0 && l[0] == ' ' {
                            assert(l.subrange(0, 1) =~= seq![' ']);
                        }
                    }
                    inside = false;
                    let ghost before = traces@;
                    traces.push(current);
                    current = Vec::new();
                    proof {
                        assert(trace_labels(traces@) =~= trace_labels(before).push(
                            trace_fold(entry.source(), labels(lines@).subrange(0, i as int)).current,
                        ));
                        assert(labels(current@) =~= Seq::empty());
                    }
                } else {
                    proof {
                        let l = lines@[i as int]@;
                        if inside {
                            assert(l.subrange(0, 1) == seq![' ']);
                            assert(l[0] == l.subrange(0, 1)[0]);
                        }
                    }
                }
            },
        }
    }
    proof {
        assert(labels(lines@).subrange(0, lines@.len() as int) =~= labels(lines@));
    }
    traces
}

/// Group 3 of each match.
pub open spec fn process_ids_of(m: Seq<Seq<Option<Seq<char>>>>) -> Seq<Seq<char>>
    decreases m.len(),
{
    if m.len() == 0 {
        Seq::empty()
    } else {
        process_ids_of(m.drop_last()).push(group_text(m.last(), 3))
    }
}

/// Group 3 of each match whose group 4 is `E`.
pub open spec fn error_processes(m: Seq<Seq<Option<Seq<char>>>>) -> Seq<Seq<char>>
    decreases m.len(),
{
    if m.len() == 0 {
        Seq::empty()
    } else if group_text(m.last(), 4) == seq!['E'] {
        error_processes(m.drop_last()).push(group_text(m.last(), 3))
    } else {
        error_processes(m.drop_last())
    }
}

/// Groups 3 and 0 of each match whose groups 3 and 4 are both `E`.
pub open spec fn main_thread_errors_of(m: Seq<Seq<Option<Seq<char>>>>) -> Seq<(Seq<char>, Seq<char>)>
    decreases m.len(),
{
    if m.len() == 0 {
        Seq::empty()
    } else if group_text(m.last(), 3) == group_text(m.last(), 4) && group_text(m.last(), 4) == seq!['E'] {
        main_thread_errors_of(m.drop_last()).push((group_text(m.last(), 3), group_text(m.last(), 0)))
    } else {
        main_thread_errors_of(m.drop_last())
    }
}

pub open spec fn occurrences(s: Seq<Seq<char>>, x: Seq<char>) -> nat
    decreases s.len(),
{
    if s.len() == 0 {
        0
    } else {
        occurrences(s.drop_last(), x) + if s.last() == x {
            1nat
        } else {
            0nat
        }
    }
}

/// Among the first `n` entries of `all`, the one that occurs most often in
/// `all`; of several, the last.
pub open spec fn most_common_in(all: Seq<Seq<char>>, n: int) -> Option<Seq<char>>
    decreases n,
{
    if n <= 0 {
        None
    } else {
        match most_common_in(all, n - 1) {
            None => Some(all[n - 1]),
            Some(best) => if occurrences(all, all[n - 1]) >= occurrences(all, best) {
                Some(all[n - 1])
            } else {
                Some(best)
            },
        }
    }
}

fn occurrences_of(s: &Vec<String>, x: &String) -> (r: usize)
    ensures
        r == occurrences(labels(s@), x@),
{
    let mut count: usize = 0;
    for i in 0..s.len()
        invariant
            count == occurrences(labels(s@).subrange(0, i as int), x@),
            count <= i,
    {
        proof {
            assert(labels(s@).subrange(0, i + 1).drop_last() =~= labels(s@).subrange(0, i as int));
        }
        if s[i] == *x {
            count = count + 1;
        }
    }
    proof {
        assert(labels(s@).subrange(0, s@.len() as int) =~= labels(s@));
    }
    count
}

/// The entry that occurs most often, the last of several; none when empty.
pub fn most_common(s: &Vec<String>) -> (r: Option<String>)
    ensures
        match r {
            Some(x) => most_common_in(labels(s@), s@.len() as int) == Some(x@),
            None => most_common_in(labels(s@), s@.len() as int) is None,
        },
{
    let mut best: Option<String> = None;
    let mut best_count: usize = 0;
    for i in 0..s.len()
        invariant
            match best {
                Some(b) => most_common_in(labels(s@), i as int) == Some(b@) && best_count == occurrences(
                    labels(s@),
                    b@,
                ),
                None => most_common_in(labels(s@), i as int) is None,
            },
    {
        let c = occurrences_of(s, &s[i]);
        match best {
            None => {
                best = Some(s[i].clone());
                best_count = c;
            },
            Some(_) => {
                if c >= best_count {
                    best = Some(s[i].clone());
                    best_count = c;
                }
            },
        }
    }
    best
}

/// What the log analysis finds.
pub struct LogReport {
    /// For each line pattern, the number of lines that it matches.
    pub line_counts: Vec<usize>,
    /// The error stack traces, each as its list of messages.
    pub stack_traces: Vec<Vec<String>>,
    /// The process id of every entry.
    pub process_ids: Vec<String>,
    /// The process with the most error entries, the last of several.
    pub most_common_error_process: Option<String>,
    /// The process id and the text of each entry whose process id is its
    /// level `E`.
    pub main_thread_errors: Vec<(String, String)>,
}

/// Counts, for each pattern, the lines of the log that it matches; then
/// reads the entries of the log with `entry`, whose groups 3, 4 and 6 are
/// the process id, the level and the message.
pub fn analyze_log(logcat: &str, line_patterns: &Vec<Pattern>, entry: &Pattern) -> (r: LogReport)
    ensures
        r.line_counts@.len() == line_patterns@.len(),
        forall|i: int|
            0 <= i < line_patterns@.len() ==> #[trigger] r.line_counts@[i] == count_matching(
                line_patterns@[i].source(),
                lines_of(logcat@),
            ),
        trace_labels(r.stack_traces@) == trace_fold(entry.source(), lines_of(logcat@)).traces,
        labels(r.process_ids@) == process_ids_of(regex_all_groups(entry.source(), logcat@)),
        match r.most_common_error_process {
            Some(x) => most_common_in(
                error_processes(regex_all_groups(entry.source(), logcat@)),
                error_processes(regex_all_groups(entry.source(), logcat@)).len() as int,
            ) == Some(x@),
            None => error_processes(regex_all_groups(entry.source(), logcat@)).len() == 0,
        },
        r.main_thread_errors@.map_values(|e: (String, String)| (e.0@, e.1@)) == main_thread_errors_of(
            regex_all_groups(entry.source(), logcat@),
        ),
{
    let lines = split_lines(logcat);
    let mut line_counts: Vec<usize> = Vec::new();
    for i in 0..line_patterns.len()
        invariant
            labels(lines@) == lines_of(logcat@),
            line_counts@.len() == i,
            forall|j: int|
                0 <= j < i ==> #[trigger] line_counts@[j] == count_matching(
                    line_patterns@[j].source(),
                    lines_of(logcat@),
                ),
    {
        line_counts.push(count_matches(&line_patterns[i], &lines));
    }
    let stack_traces = stack_traces(entry, &lines);
    let matches = entry.captures_all(logcat);
    let ghost all = regex_all_groups(entry.source(), logcat@);
    let mut process_ids: Vec<String> = Vec::new();
    let mut errors: Vec<String> = Vec::new();
    let mut main_thread_errors: Vec<(String, String)> = Vec::new();
    let e = "E".to_owned();
    proof {
        reveal_strlit("E");
        assert(labels(process_ids@) =~= Seq::empty());
        assert(labels(errors@) =~= Seq::empty());
        assert(main_thread_errors@.map_values(|x: (String, String)| (x.0@, x.1@)) =~= Seq::empty());
        assert(all.subrange(0, 0) =~= Seq::<Seq<Option<Seq<char>>>>::empty());
    }
    for i in 0..matches.len()
        invariant
            e@ == seq!['E'],
            all == regex_all_groups(entry.source(), logcat@),
            matches@.len() == all.len(),
            forall|j: int| 0 <= j < matches@.len() ==> group_labels(#[trigger] matches@[j]@) == all[j],
            labels(process_ids@) == process_ids_of(all.subrange(0, i as int)),
            labels(errors@) == error_processes(all.subrange(0, i as int)),
            main_thread_errors@.map_values(|x: (String, String)| (x.0@, x.1@)) == main_thread_errors_of(
                all.subrange(0, i as int),
            ),
    {
        let ghost prefix = all.subrange(0, i + 1);
        proof {
            assert(prefix.drop_last() =~= all.subrange(0, i as int));
            assert(prefix.last() == group_labels(matches@[i as int]@));
        }
        let g = &matches[i];
        let pid = group(g, 3);
        let level = group(g, 4);
        let ghost before_ids = process_ids@;
        process_ids.push(pid.clone());
        proof {
            assert(labels(process_ids@) =~= labels(before_ids).push(pid@));
        }
        if level == e {
            let ghost before = errors@;
            errors.push(pid.clone());
            proof {
                assert(labels(errors@) =~= labels(before).push(pid@));
            }
            if pid == level {
                let whole = group(g, 0);
                let ghost before_main = main_thread_errors@;
                main_thread_errors.push((pid.clone(), whole));
                proof {
                    assert(main_thread_errors@.map_values(|x: (String, String)| (x.0@, x.1@))
                        =~= before_main.map_values(|x: (String, String)| (x.0@, x.1@)).push(
                        (pid@, whole@),
                    ));
                }
            }
        }
    }
    proof {
        assert(all.subrange(0, matches@.len() as int) =~= all);
    }
    let most_common_error_process = most_common(&errors);
    proof {
        if errors@.len() > 0 {
            assert(most_common_in(labels(errors@), errors@.len() as int) is Some);
        }
    }
    LogReport { line_counts, stack_traces, process_ids, most_common_error_process, main_thread_errors }
}

/// The patterns whose matching lines the analysis counts: entries of day
/// 10-15; of second 10:18:51 of that day; of second 51 of any minute; lines
/// that name lowmemorykiller; entries of 10:18:51 with a 221 field; lines of
/// level E; lines of level W from PackageManager; lines of level D that name
/// ExoPlayer; lines of level E or W that name a .java file; lines whose
/// message names a Thread.
pub fn line_pattern_sources() -> (r: Vec<String>)
    ensures
        labels(r@) == seq![
            r"^10-15"@,
            r"^10-15 10:18:51"@,
            r"^[0-9-]+ [0-9:]+:51"@,
            r"lowmemorykiller"@,
            r"^10-15 10:18:51.* 221 "@,
            r".* E "@,
            r".* W PackageManager.* "@,
            r".* D .*ExoPlayer.* "@,
            r".* [EW].*\.java:"@,
            r".* [^:]+: .*Thread.*"@,
        ],
{
    let mut out: Vec<String> = Vec::new();
    out.push(r"^10-15".to_owned());
    out.push(r"^10-15 10:18:51".to_owned());
    out.push(r"^[0-9-]+ [0-9:]+:51".to_owned());
    out.push(r"lowmemorykiller".to_owned());
    out.push(r"^10-15 10:18:51.* 221 ".to_owned());
    out.push(r".* E ".to_owned());
    out.push(r".* W PackageManager.* ".to_owned());
    out.push(r".* D .*ExoPlayer.* ".to_owned());
    out.push(r".* [EW].*\.java:".to_owned());
    out.push(r".* [^:]+: .*Thread.*".to_owned());
    proof {
        reveal_strlit(r"^10-15");
        reveal_strlit(r"^10-15 10:18:51");
        reveal_strlit(r"^[0-9-]+ [0-9:]+:51");
        reveal_strlit(r"lowmemorykiller");
        reveal_strlit(r"^10-15 10:18:51.* 221 ");
        reveal_strlit(r".* E ");
        reveal_strlit(r".* W PackageManager.* ");
        reveal_strlit(r".* D .*ExoPlayer.* ");
        reveal_strlit(r".* [EW].*\.java:");
        reveal_strlit(r".* [^:]+: .*Thread.*");
        assert(labels(out@) =~= seq![
            r"^10-15"@,
            r"^10-15 10:18:51"@,
            r"^[0-9-]+ [0-9:]+:51"@,
            r"lowmemorykiller"@,
            r"^10-15 10:18:51.* 221 "@,
            r".* E "@,
            r".* W PackageManager.* "@,
            r".* D .*ExoPlayer.* "@,
            r".* [EW].*\.java:"@,
            r".* [^:]+: .*Thread.*"@,
        ]);
    }
    out
}

/// The pattern of a log entry: date and time, two numeric fields, the
/// process id, the level, the tag and the message.
pub fn entry_pattern_source() -> (r: String)
    ensures
        r@ == r"([0-9-]+ [0-9:.]+) +([0-9]+) +([0-9]+) ([IDVEFAW]) ([^:]+): (.*)"@,
{
    r"([0-9-]+ [0-9:.]+) +([0-9]+) +([0-9]+) ([IDVEFAW]) ([^:]+): (.*)".to_owned()
}

/// The compiled pattern of a log entry.
pub fn entry_pattern() -> (r: Option<Pattern>)
    ensures
        r is Some == regex_compiles(r"([0-9-]+ [0-9:.]+) +([0-9]+) +([0-9]+) ([IDVEFAW]) ([^:]+): (.*)"@),
        r is Some ==> r->Some_0.source() == r"([0-9-]+ [0-9:.]+) +([0-9]+) +([0-9]+) ([IDVEFAW]) ([^:]+): (.*)"@,
{
    let source = entry_pattern_source();
    Pattern::compile(source.as_str())
}

/// Compiles each pattern, or gives none when one of them does not compile.
pub fn compile_patterns(sources: &Vec<String>) -> (r: Option<Vec<Pattern>>)
    ensures
        match r {
            Some(ps) => ps@.len() == sources@.len() && forall|i: int|
                0 <= i < ps@.len() ==> (#[trigger] ps@[i]).source() == sources@[i]@,
            None => exists|i: int| 0 <= i < sources@.len() && !regex_compiles(#[trigger] sources@[i]@),
        },
{
    let mut out: Vec<Pattern> = Vec::new();
    for i in 0..sources.len()
        invariant
            out@.len() == i,
            forall|j: int| 0 <= j < i ==> (#[trigger] out@[j]).source() == sources@[j]@,
    {
        match Pattern::compile(sources[i].as_str()) {
            Some(p) => out.push(p),
            None => {
                return None;
            },
        }
    }
    Some(out)
}

} // verus!
