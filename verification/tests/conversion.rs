use epost::parse::{parse_args, parse_trace_lines};
use epost::record::{Error, KeyValuePair, LogRecord, LogRecordType};
use epost::script::{format_log_record, generate_perf_style_script, print_perf_style_stack,
    transform_traces_to_perf_script};

fn lines(raw: &[&str]) -> Vec<String> {
    raw.iter().map(|s| s.to_string()).collect()
}

#[test]
fn it_works() {
    assert_eq!(0, 0);
}

#[test]
fn balanced_pair_two_blocks() {
    let out = transform_traces_to_perf_script(lines(&[
        "EPOST_LOG [100]: foo(a=1, b=2) START",
        "EPOST_LOG [105]: foo(a=1, b=2) END",
    ]))
    .unwrap();
    assert_eq!(out.len(), 2);
    assert_eq!(
        out[0],
        "egg-run-program 1   100:   1 cycles:\n\t1234 foo(a=1, b=2) ([egg-func-lib])\n\n"
    );
    assert_eq!(out[1], "egg-run-program 1   105:   1 cycles:\n\n");
}

#[test]
fn point_event_appears_exactly_once() {
    let out = transform_traces_to_perf_script(lines(&["EPOST_LOG [50]: bar()"])).unwrap();
    assert_eq!(out.len(), 1);
    assert_eq!(
        out[0],
        "egg-run-program 1   50:   1 cycles:\n\t1234 bar() ([egg-func-lib])\n\n"
    );
}

#[test]
fn point_event_is_transient_in_nested_trace() {
    let out = transform_traces_to_perf_script(lines(&[
        "EPOST_LOG [1]: outer(x=1) START",
        "EPOST_LOG [2]: inner() START",
        "EPOST_LOG [3]: note(k=v)",
        "EPOST_LOG [4]: inner() END",
        "EPOST_LOG [5]: outer(x=1) END",
    ]))
    .unwrap();
    assert_eq!(out.len(), 5);
    assert_eq!(
        out[2],
        "egg-run-program 1   3:   1 cycles:\n\
         \t1234 note(k=v) ([egg-func-lib])\n\
         \t1234 inner() ([egg-func-lib])\n\
         \t1234 outer(x=1) ([egg-func-lib])\n\n"
    );
    // The point frame must not persist into any later snapshot.
    assert_eq!(
        out[3],
        "egg-run-program 1   4:   1 cycles:\n\t1234 outer(x=1) ([egg-func-lib])\n\n"
    );
    assert_eq!(out[4], "egg-run-program 1   5:   1 cycles:\n\n");
}

#[test]
fn mismatched_end_names_both_functions() {
    let err = transform_traces_to_perf_script(lines(&[
        "EPOST_LOG [1]: foo() START",
        "EPOST_LOG [2]: baz() END",
    ]))
    .unwrap_err();
    match err {
        Error::StackMismatch { expected, found } => {
            assert_eq!(expected, "baz");
            assert_eq!(found, "foo");
        },
        other => panic!("wrong error: {:?}", other),
    }
}

#[test]
fn end_without_open_start_underflows() {
    let err = parse_trace_lines(lines(&["EPOST_LOG [1]: foo() END"])).unwrap_err();
    match err {
        Error::StackUnderflow => {},
        other => panic!("wrong error: {:?}", other),
    }
}

#[test]
fn trailing_start_reports_unfinished_calls() {
    let err = transform_traces_to_perf_script(lines(&["EPOST_LOG [1]: foo() START"]))
        .unwrap_err();
    match err {
        Error::UnbalancedAtEof { remaining } => {
            assert_eq!(remaining, vec!["foo".to_string()]);
        },
        other => panic!("wrong error: {:?}", other),
    }
}

#[test]
fn nested_unfinished_calls_listed_outermost_first() {
    let err = parse_trace_lines(lines(&[
        "EPOST_LOG [1]: a() START",
        "EPOST_LOG [2]: b() START",
    ]))
    .unwrap_err();
    match err {
        Error::UnbalancedAtEof { remaining } => {
            assert_eq!(remaining, vec!["a".to_string(), "b".to_string()]);
        },
        other => panic!("wrong error: {:?}", other),
    }
}

#[test]
fn records_match_retained_lines() {
    let recs = parse_trace_lines(lines(&[
        "noise that is not a trace line",
        "EPOST_LOG [10]: f(a=1) START",
        "another ignored line",
        "EPOST_LOG [20]: f(a=1) END",
    ]))
    .unwrap();
    assert_eq!(recs.len(), 2);
    assert_eq!(recs[0].time, "10");
    assert_eq!(recs[0].function_name, "f");
    assert!(matches!(recs[0].record_type, LogRecordType::Start));
    assert_eq!(recs[0].arguments.len(), 1);
    assert_eq!(recs[0].arguments[0].key, "a");
    assert_eq!(recs[0].arguments[0].value, "1");
    assert!(matches!(recs[1].record_type, LogRecordType::End));
}

#[test]
fn point_record_keeps_whole_body_as_phrase() {
    let recs = parse_trace_lines(lines(&["EPOST_LOG [7]: tick(n=3)"])).unwrap();
    assert_eq!(recs.len(), 1);
    assert!(matches!(recs[0].record_type, LogRecordType::Simple));
    assert_eq!(recs[0].function_name, "tick");
    assert_eq!(recs[0].time, "7");
}

#[test]
fn bare_function_name_has_no_arguments() {
    let recs = parse_trace_lines(lines(&["EPOST_LOG [3]: quux"])).unwrap();
    assert_eq!(recs[0].function_name, "quux");
    assert_eq!(recs[0].arguments.len(), 0);
    let rendered = format_log_record(&recs[0]);
    assert_eq!(rendered, "quux()");
}

#[test]
fn malformed_pairs_dropped_order_preserved() {
    let recs = parse_trace_lines(lines(&["EPOST_LOG [1]: f(a=1, b, c=3=4, =5)"])).unwrap();
    let args: Vec<(String, String)> = recs[0]
        .arguments
        .iter()
        .map(|kv| (kv.key.clone(), kv.value.clone()))
        .collect();
    assert_eq!(
        args,
        vec![
            ("a".to_string(), "1".to_string()),
            ("".to_string(), "5".to_string()),
        ]
    );
    assert_eq!(format_log_record(&recs[0]), "f(a=1, =5)");
}

#[test]
fn parse_args_drops_pieces_without_exactly_one_equals() {
    let args = parse_args("x=1, raw, y=2");
    assert_eq!(args.len(), 2);
    assert_eq!(args[0].key, "x");
    assert_eq!(args[0].value, "1");
    assert_eq!(args[1].key, "y");
    assert_eq!(args[1].value, "2");
}

#[test]
fn wrong_signature_token_is_rejected() {
    let err = parse_trace_lines(lines(&["EPOST_LOGX [1]: foo()"])).unwrap_err();
    match err {
        Error::SignatureMismatch { line } => {
            assert_eq!(line, "EPOST_LOGX [1]: foo()");
        },
        other => panic!("wrong error: {:?}", other),
    }
}

#[test]
fn doubled_parenthesis_is_malformed() {
    let err = parse_trace_lines(lines(&["EPOST_LOG [1]: foo(a(b) START"])).unwrap_err();
    match err {
        Error::MalformedCallSyntax { line } => {
            assert_eq!(line, "EPOST_LOG [1]: foo(a(b) START");
        },
        other => panic!("wrong error: {:?}", other),
    }
}

#[test]
fn signature_line_without_colon_is_malformed() {
    let err = parse_trace_lines(lines(&["EPOST_LOG [1] foo START"])).unwrap_err();
    match err {
        Error::MalformedCallSyntax { .. } => {},
        other => panic!("wrong error: {:?}", other),
    }
}

#[test]
fn empty_input_yields_empty_script() {
    let out = transform_traces_to_perf_script(Vec::new()).unwrap();
    assert_eq!(out.len(), 0);
}

#[test]
fn format_log_record_renders_arguments_in_order() {
    let rec = LogRecord {
        time: "9".to_string(),
        record_type: LogRecordType::Start,
        function_name: "apply".to_string(),
        arguments: vec![
            KeyValuePair { key: "rule".to_string(), value: "commute".to_string() },
            KeyValuePair { key: "depth".to_string(), value: "2".to_string() },
        ],
    };
    assert_eq!(format_log_record(&rec), "apply(rule=commute, depth=2)");
}

#[test]
fn snapshot_lists_stack_top_first() {
    let stack = vec!["bottom()".to_string(), "top()".to_string()];
    let mut out: Vec<String> = Vec::new();
    print_perf_style_stack(&stack, "42", &mut out);
    assert_eq!(out.len(), 1);
    assert_eq!(
        out[0],
        "egg-run-program 1   42:   1 cycles:\n\
         \t1234 top() ([egg-func-lib])\n\
         \t1234 bottom() ([egg-func-lib])\n\n"
    );
}

#[test]
fn empty_stack_snapshot_keeps_its_header() {
    let stack: Vec<String> = Vec::new();
    let mut out: Vec<String> = Vec::new();
    print_perf_style_stack(&stack, "42", &mut out);
    assert_eq!(out, vec!["egg-run-program 1   42:   1 cycles:\n\n".to_string()]);
}

#[test]
fn generator_runs_directly_on_validated_records() {
    let recs = parse_trace_lines(lines(&[
        "EPOST_LOG [1]: f() START",
        "EPOST_LOG [2]: f() END",
    ]))
    .unwrap();
    let out = generate_perf_style_script(&recs).unwrap();
    assert_eq!(out.len(), 2);
    assert_eq!(
        out[0],
        "egg-run-program 1   1:   1 cycles:\n\t1234 f() ([egg-func-lib])\n\n"
    );
}

#[test]
fn whitespace_runs_collapse_to_single_spaces() {
    let recs = parse_trace_lines(lines(&[
        "EPOST_LOG [1]: foo(a=1,   b=2)   START",
        "EPOST_LOG [2]: foo(a=1, b=2) END",
    ]))
    .unwrap();
    assert!(matches!(recs[0].record_type, LogRecordType::Start));
    // The body is whitespace-tokenized and rejoined, so runs of blanks
    // inside the argument list shrink to the single-space separator.
    assert_eq!(format_log_record(&recs[0]), "foo(a=1, b=2)");
}

#[test]
fn sibling_spans_form_a_forest() {
    let out = transform_traces_to_perf_script(lines(&[
        "EPOST_LOG [1]: a() START",
        "EPOST_LOG [2]: a() END",
        "EPOST_LOG [3]: b() START",
        "EPOST_LOG [4]: b() END",
    ]))
    .unwrap();
    assert_eq!(out.len(), 4);
    assert_eq!(
        out[2],
        "egg-run-program 1   3:   1 cycles:\n\t1234 b() ([egg-func-lib])\n\n"
    );
}

#[test]
fn error_messages_name_the_culprits() {
    let m = Error::StackMismatch { expected: "baz".to_string(), found: "foo".to_string() }
        .message();
    assert!(m.contains("baz"));
    assert!(m.contains("foo"));
    let u = Error::UnbalancedAtEof { remaining: vec!["foo".to_string()] }.message();
    assert!(u.contains("foo"));
    let s = Error::SignatureMismatch { line: "bad line".to_string() }.message();
    assert!(s.contains("bad line"));
    let io = Error::IOFailure { message: "no such file".to_string() }.message();
    assert!(io.contains("no such file"));
}
