//! Script synthesis and version extraction, driven exactly as a caller
//! would drive them.

use dbt::debugger::{BreakPoint, Debugger, TestDefinition};
use dbt::directive::{CorrelationId, Statement};
use dbt::kind::DebuggerKind;
use dbt::version::{extract_cdb_version, extract_gdb_version, version_probe_arg};

fn from_lines(lines: &[&str]) -> String {
    let mut output = String::new();
    for line in lines {
        output.push_str(line);
        output.push('\n');
    }
    output
}

fn mock_test_def(script: Vec<Statement>) -> TestDefinition {
    TestDefinition::new("project/main".to_string(), script, vec![])
}

fn exec(command: &str) -> Statement {
    Statement::Exec(command.to_string(), None)
}

fn check(pattern: &str) -> Statement {
    Statement::Check(pattern.to_string(), None)
}

#[test]
fn generate_debugger_script() {
    let test_def = mock_test_def(vec![
        exec("print abc"),
        check("__abc__"),
        exec("print xyz"),
        check("__xyz__"),
    ]);

    let script = dbt::debugger::generate_debugger_script(&Debugger::mock(), &test_def);

    assert_eq!(
        script,
        from_lines(&[
            "__output_with_correlation_id_begin__=0",
            "print abc",
            "__output_with_correlation_id_end__=0",
            "__output_with_correlation_id_begin__=1",
            "print xyz",
            "__output_with_correlation_id_end__=1",
        ])
    );
}

#[test]
fn gdb_version_extraction() {
    assert_eq!(
        extract_gdb_version("GNU gdb (GDB) 8.2.1").as_deref(),
        Some("8.2.1")
    );
    assert_eq!(
        extract_gdb_version("GNU gdb (Ubuntu 9.2-0ubuntu1~20.04) 9.2").as_deref(),
        Some("9.2")
    );
    assert_eq!(extract_gdb_version("cdb version 10.0.21349.1004"), None);
}

#[test]
fn cdb_version_extraction() {
    assert_eq!(
        extract_cdb_version("cdb version 10.0.21349.1004").as_deref(),
        Some("10.0.21349.1004")
    );
    assert_eq!(extract_cdb_version("GNU gdb (GDB) 8.2.1"), None);
    assert_eq!(
        extract_cdb_version("GNU gdb (Ubuntu 9.2-0ubuntu1~20.04) 9.2"),
        None
    );
}

#[test]
fn consecutive_commands_share_one_span() {
    let test_def = mock_test_def(vec![
        exec("print a"),
        exec("print b"),
        exec("print c"),
        check("a"),
    ]);

    let script = dbt::debugger::generate_debugger_script(&Debugger::mock(), &test_def);

    assert_eq!(
        script,
        from_lines(&[
            "__output_with_correlation_id_begin__=0",
            "print a",
            "print b",
            "print c",
            "__output_with_correlation_id_end__=0",
        ])
    );
}

#[test]
fn script_with_prelude_and_breakpoints_for_cdb() {
    let debugger = Debugger::new(
        DebuggerKind::Cdb,
        "10.0".to_string(),
        "cdb".to_string(),
        vec![".symfix".to_string()],
    );
    let test_def = TestDefinition::new(
        "project/main.rs".to_string(),
        vec![exec("dv"), check("x = 7")],
        vec![BreakPoint { line_index: 9 }],
    );

    let script = dbt::debugger::generate_debugger_script(&debugger, &test_def);

    assert_eq!(
        script,
        from_lines(&[
            ".lines -e",
            ".symfix",
            "bp `main.rs:10`",
            ".echo __output_with_correlation_id_begin__=0",
            "dv",
            ".echo __output_with_correlation_id_end__=0",
        ])
    );
}

#[test]
fn gdb_markers_are_python_prints() {
    let debugger = Debugger::new(
        DebuggerKind::Gdb,
        "8.2.1".to_string(),
        "gdb".to_string(),
        vec![],
    );
    let mut output = String::new();
    debugger.maybe_emit_correlation_id_command(true, Some(CorrelationId(5)), &mut output);
    debugger.maybe_emit_correlation_id_command(false, Some(CorrelationId(5)), &mut output);
    assert_eq!(
        output,
        from_lines(&[
            "python print('__output_with_correlation_id_begin__=5')",
            "python print('__output_with_correlation_id_end__=5')",
        ])
    );

    let mut nothing = String::new();
    debugger.maybe_emit_correlation_id_command(false, None, &mut nothing);
    assert_eq!(nothing, "");
}

#[test]
fn version_probe_flag_depends_on_file_name() {
    assert_eq!(version_probe_arg("CDB.EXE"), "-version");
    assert_eq!(version_probe_arg("cdb"), "-version");
    assert_eq!(version_probe_arg("gdb"), "--version");
    assert_eq!(version_probe_arg("lldb"), "--version");
}

#[test]
fn batch_flags_per_backend() {
    assert_eq!(
        DebuggerKind::Gdb.batch_flags(),
        vec!["--batch", "--quiet", "--command"]
    );
    assert_eq!(DebuggerKind::Cdb.batch_flags(), vec!["-cf"]);
}

#[test]
fn debugger_kind_names() {
    assert_eq!(DebuggerKind::Gdb.name(), "gdb");
    assert_eq!(DebuggerKind::Cdb.name(), "cdb");
    assert_eq!(DebuggerKind::Lldb.name(), "lldb");
    assert_eq!(DebuggerKind::Mock.name(), "mock");
    assert!(!DebuggerKind::Lldb.is_implemented());
    assert!(DebuggerKind::Mock.is_implemented());
}
