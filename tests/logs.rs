use automata_lab::logs::{
    analyze_log, compile_patterns, entry_pattern, line_pattern_sources, most_common, Pattern,
};

const LOG: &str = "10-15 10:18:51.100  221  300 E AndroidRuntime: FATAL EXCEPTION: main
    at com.example.Foo.bar(Foo.java:10)
10-15 10:18:51.200  221  300 E AndroidRuntime:   Process: com.example  
--------- beginning of system
10-15 10:18:52.000  500  501 W PackageManager: Failure in Pm.java:12 
10-15 10:18:53.000  600  601 D Player: ExoPlayer Thread init 
10-16 09:00:51.000  700  701 I lowmemorykiller: Kill 'com.x'
";

fn patterns() -> (Vec<Pattern>, Pattern) {
    let lines = compile_patterns(&line_pattern_sources()).unwrap();
    let entry = entry_pattern().unwrap();
    (lines, entry)
}

#[test]
fn counts_lines_per_pattern() {
    let (lines, entry) = patterns();
    let report = analyze_log(LOG, &lines, &entry);
    assert_eq!(report.line_counts, vec![4, 2, 3, 1, 2, 2, 1, 1, 1, 1]);
}

#[test]
fn collects_error_stack_traces() {
    let (lines, entry) = patterns();
    let report = analyze_log(LOG, &lines, &entry);
    assert_eq!(
        report.stack_traces,
        vec![vec![
            "FATAL EXCEPTION: main".to_string(),
            "Process: com.example".to_string()
        ]]
    );
}

#[test]
fn reads_process_ids_and_errors() {
    let (lines, entry) = patterns();
    let report = analyze_log(LOG, &lines, &entry);
    assert_eq!(report.process_ids, vec!["300", "300", "501", "601", "701"]);
    assert_eq!(report.most_common_error_process, Some("300".to_string()));
    assert_eq!(report.main_thread_errors.len(), 0);
}

#[test]
fn log_without_errors() {
    let (lines, entry) = patterns();
    let report = analyze_log("10-15 10:18:52.000  500  501 W Pm: x\n", &lines, &entry);
    assert_eq!(report.most_common_error_process, None);
    assert_eq!(report.stack_traces.len(), 0);
    assert_eq!(report.line_counts[0], 1);
}

#[test]
fn most_common_prefers_the_last_of_equals() {
    let v: Vec<String> = ["1", "2", "2", "1", "3"].iter().map(|s| s.to_string()).collect();
    assert_eq!(most_common(&v), Some("1".to_string()));
    let w: Vec<String> = ["1", "2", "2"].iter().map(|s| s.to_string()).collect();
    assert_eq!(most_common(&w), Some("2".to_string()));
    assert_eq!(most_common(&Vec::new()), None);
}

#[test]
fn bad_pattern_does_not_compile() {
    assert!(compile_patterns(&vec!["(".to_string()]).is_none());
    assert!(compile_patterns(&vec!["a".to_string(), "[".to_string()]).is_none());
}
