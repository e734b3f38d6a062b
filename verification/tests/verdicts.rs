//! Correlation assignment, output partitioning, matching, and the verdicts
//! they produce, end to end over the null backend.

use dbt::debugger::{generate_debugger_script, Debugger, TestDefinition};
use dbt::directive::{assign_correlation_ids, extract_correlation_id, CorrelationId, Statement};
use dbt::kind::{mock_debugger_output, DebuggerExitStatus, DebuggerOutput};
use dbt::outcome::{debugger_output_by_correlation_id, process_debugger_output, Status};

fn from_lines(lines: &[&str]) -> String {
    let mut output = String::new();
    for line in lines {
        output.push_str(line);
        output.push('\n');
    }
    output
}

fn exec(command: &str) -> Statement {
    Statement::Exec(command.to_string(), None)
}

fn check(pattern: &str) -> Statement {
    Statement::Check(pattern.to_string(), None)
}

fn mock_test_def(script: Vec<Statement>) -> TestDefinition {
    TestDefinition::new("project/main".to_string(), script, vec![])
}

fn output_of(stdout: String) -> DebuggerOutput {
    DebuggerOutput {
        stdout,
        stderr: String::new(),
        exit_status: DebuggerExitStatus::Success,
    }
}

fn slot_of(statement: &Statement) -> Option<CorrelationId> {
    match statement {
        Statement::Exec(_, slot) => *slot,
        Statement::Check(_, slot) => *slot,
        Statement::CheckUnorderedBlock(_, slot) => *slot,
    }
}

#[test]
fn alternating_commands_get_increasing_ids() {
    let mut script = vec![
        exec("a"),
        check("ok a"),
        exec("b"),
        check("ok b"),
        exec("c"),
        check("ok c"),
    ];
    let warnings = assign_correlation_ids(&mut script);
    assert!(warnings.is_empty());
    let slots: Vec<Option<CorrelationId>> = script.iter().map(slot_of).collect();
    assert_eq!(
        slots,
        vec![
            Some(CorrelationId(0)),
            Some(CorrelationId(0)),
            Some(CorrelationId(1)),
            Some(CorrelationId(1)),
            Some(CorrelationId(2)),
            Some(CorrelationId(2)),
        ]
    );
}

#[test]
fn command_run_shares_one_id() {
    let mut script = vec![exec("a"), exec("b"), exec("c"), check("done"), exec("d")];
    let warnings = assign_correlation_ids(&mut script);
    assert!(warnings.is_empty());
    let slots: Vec<Option<CorrelationId>> = script.iter().map(slot_of).collect();
    assert_eq!(
        slots,
        vec![
            Some(CorrelationId(0)),
            Some(CorrelationId(0)),
            Some(CorrelationId(0)),
            Some(CorrelationId(0)),
            Some(CorrelationId(1)),
        ]
    );
}

#[test]
fn dangling_check_is_warned_and_unassigned() {
    let mut script = vec![check("nothing before me"), exec("a"), check("after")];
    let warnings = assign_correlation_ids(&mut script);
    assert_eq!(warnings, vec![0]);
    let slots: Vec<Option<CorrelationId>> = script.iter().map(slot_of).collect();
    assert_eq!(
        slots,
        vec![None, Some(CorrelationId(0)), Some(CorrelationId(0))]
    );
}

#[test]
fn extract_correlation_id_reads_the_digits() {
    let id = extract_correlation_id("__output_with_correlation_id_begin__=42");
    assert_eq!(id, CorrelationId(42));
    let id = extract_correlation_id("__output_with_correlation_id_end__=0");
    assert_eq!(id, CorrelationId(0));
}

#[test]
fn partition_inverts_the_mock_script() {
    let test_def = mock_test_def(vec![
        exec("print abc"),
        check("abc"),
        exec("print xyz"),
        check("xyz"),
    ]);
    let script = generate_debugger_script(&Debugger::mock(), &test_def);
    let output = mock_debugger_output(script);
    let entries = debugger_output_by_correlation_id(&output).unwrap();
    assert_eq!(entries.len(), 2);
    assert_eq!(entries[0].0, CorrelationId(0));
    assert_eq!(entries[0].1, vec!["print abc".to_string()]);
    assert_eq!(entries[1].0, CorrelationId(1));
    assert_eq!(entries[1].1, vec!["print xyz".to_string()]);
}

#[test]
fn lines_outside_spans_are_discarded() {
    let stdout = from_lines(&[
        "debugger banner",
        "__output_with_correlation_id_begin__=7",
        "inside",
        "__output_with_correlation_id_end__=7",
        "prompt noise",
    ]);
    let entries = debugger_output_by_correlation_id(&output_of(stdout)).unwrap();
    assert_eq!(entries.len(), 1);
    assert_eq!(entries[0].0, CorrelationId(7));
    assert_eq!(entries[0].1, vec!["inside".to_string()]);
}

#[test]
fn two_begin_markers_are_malformed() {
    let stdout = from_lines(&[
        "__output_with_correlation_id_begin__=0",
        "__output_with_correlation_id_begin__=1",
    ]);
    assert!(debugger_output_by_correlation_id(&output_of(stdout)).is_err());
}

#[test]
fn end_marker_without_begin_is_malformed() {
    let stdout = from_lines(&["__output_with_correlation_id_end__=0"]);
    assert!(debugger_output_by_correlation_id(&output_of(stdout)).is_err());
}

#[test]
fn missing_end_marker_is_malformed() {
    let stdout = from_lines(&["__output_with_correlation_id_begin__=0", "inside"]);
    assert!(debugger_output_by_correlation_id(&output_of(stdout)).is_err());
}

#[test]
fn malformed_output_yields_errored_verdict() {
    let test_def = mock_test_def(vec![exec("print abc"), check("abc")]);
    let stdout = from_lines(&[
        "__output_with_correlation_id_begin__=0",
        "__output_with_correlation_id_begin__=0",
    ]);
    let result = process_debugger_output(&Debugger::mock(), &test_def, output_of(stdout));
    assert!(matches!(result.status, Status::Errored));
}

#[test]
fn matching_is_a_subsequence_test() {
    let test_def = mock_test_def(vec![exec("go"), check("P1"), check("P2")]);
    let stdout = from_lines(&[
        "__output_with_correlation_id_begin__=0",
        "noise",
        "a P1 match",
        "noise",
        "a P2 match",
        "__output_with_correlation_id_end__=0",
    ]);
    let result = process_debugger_output(&Debugger::mock(), &test_def, output_of(stdout));
    assert!(matches!(result.status, Status::Passed));

    let wrong_order = from_lines(&[
        "__output_with_correlation_id_begin__=0",
        "a P2 match",
        "a P1 match",
        "__output_with_correlation_id_end__=0",
    ]);
    let result = process_debugger_output(&Debugger::mock(), &test_def, output_of(wrong_order));
    match result.status {
        Status::Failed(message, _) => {
            assert!(message.contains("Could not find 'P2'"));
            assert!(message.contains("> a P2 match"));
            assert!(message.contains("> a P1 match"));
        }
        _ => panic!("expected a failed verdict"),
    }
}

#[test]
fn missing_span_fails_naming_the_first_check() {
    let test_def = mock_test_def(vec![exec("go"), check("expected text")]);
    let stdout = String::new();
    let result = process_debugger_output(&Debugger::mock(), &test_def, output_of(stdout));
    match result.status {
        Status::Failed(message, _) => {
            assert_eq!(message, "check 'expected text' failed");
        }
        _ => panic!("expected a failed verdict"),
    }
}

#[test]
fn dangling_check_passes_with_no_output() {
    let test_def = mock_test_def(vec![check("never reachable")]);
    let result = process_debugger_output(&Debugger::mock(), &test_def, output_of(String::new()));
    assert!(matches!(result.status, Status::Passed));
}

#[test]
fn null_backend_end_to_end() {
    // the null backend echoes the script back, so a check matching the
    // emitted command line passes and one that cannot occur always fails
    let passing = mock_test_def(vec![exec("print abc"), check("abc")]);
    let script = generate_debugger_script(&Debugger::mock(), &passing);
    let result =
        process_debugger_output(&Debugger::mock(), &passing, mock_debugger_output(script));
    assert!(matches!(result.status, Status::Passed));

    let failing = mock_test_def(vec![exec("print abc"), check("__never_emitted__")]);
    let script = generate_debugger_script(&Debugger::mock(), &failing);
    let result =
        process_debugger_output(&Debugger::mock(), &failing, mock_debugger_output(script));
    assert!(matches!(result.status, Status::Failed(_, _)));
}

#[test]
fn empty_directive_sequence() {
    let test_def = mock_test_def(vec![]);
    let script = generate_debugger_script(&Debugger::mock(), &test_def);
    assert_eq!(script, "");
    let result = process_debugger_output(&Debugger::mock(), &test_def, output_of(String::new()));
    assert!(matches!(result.status, Status::Passed));
}

#[test]
fn unordered_block_consumes_the_open_identifier() {
    // an unordered block takes part in identifier assignment like any
    // other check, so the next command opens a fresh span
    let mut script = vec![
        exec("a"),
        Statement::CheckUnorderedBlock(vec!["x".to_string(), "y".to_string()], None),
        exec("b"),
    ];
    let warnings = assign_correlation_ids(&mut script);
    assert!(warnings.is_empty());
    let slots: Vec<Option<CorrelationId>> = script.iter().map(slot_of).collect();
    assert_eq!(
        slots,
        vec![
            Some(CorrelationId(0)),
            Some(CorrelationId(0)),
            Some(CorrelationId(1)),
        ]
    );
}

#[test]
fn exit_status_success() {
    assert!(DebuggerExitStatus::Success.success());
    assert!(!DebuggerExitStatus::Failure.success());
}

#[test]
fn mock_output_echoes_the_script() {
    let output = mock_debugger_output("some script".to_string());
    assert_eq!(output.stdout, "some script");
    assert_eq!(output.stderr, "");
    assert_eq!(output.exit_status, DebuggerExitStatus::Success);
}
