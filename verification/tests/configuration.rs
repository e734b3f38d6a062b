//! Prelude configuration scanning and version inference from probe output.

use dbt::kind::DebuggerKind;
use dbt::setup::{kind_from_name, prelude_for, scan_preludes};
use dbt::version::infer_kind_and_version;

#[test]
fn kind_names_parse_with_whitespace() {
    assert_eq!(kind_from_name("gdb"), Some(DebuggerKind::Gdb));
    assert_eq!(kind_from_name("  cdb "), Some(DebuggerKind::Cdb));
    assert_eq!(kind_from_name("lldb"), Some(DebuggerKind::Lldb));
    assert_eq!(kind_from_name("mock"), Some(DebuggerKind::Mock));
    assert_eq!(kind_from_name("windbg"), None);
}

#[test]
fn preludes_are_scanned_per_backend() {
    let preludes = vec![
        "gdb: set print pretty on".to_string(),
        "cdb:.symfix".to_string(),
        "gdb: set language rust".to_string(),
        "no kind in here".to_string(),
        "windbg: .echo hi".to_string(),
    ];
    let (pairs, rejects) = scan_preludes(&preludes);
    assert_eq!(pairs.len(), 3);
    assert_eq!(pairs[0], (DebuggerKind::Gdb, "set print pretty on".to_string()));
    assert_eq!(pairs[1], (DebuggerKind::Cdb, ".symfix".to_string()));
    assert_eq!(pairs[2], (DebuggerKind::Gdb, "set language rust".to_string()));
    assert_eq!(
        rejects,
        vec!["no kind in here".to_string(), "windbg: .echo hi".to_string()]
    );

    let gdb_prelude = prelude_for(&pairs, DebuggerKind::Gdb);
    assert_eq!(
        gdb_prelude,
        vec!["set print pretty on".to_string(), "set language rust".to_string()]
    );
    let mock_prelude = prelude_for(&pairs, DebuggerKind::Mock);
    assert!(mock_prelude.is_empty());
}

#[test]
fn version_inference_scans_stdout_then_stderr() {
    let inferred = infer_kind_and_version("GNU gdb (GDB) 8.2.1\n", "");
    assert_eq!(inferred, Some((DebuggerKind::Gdb, "8.2.1".to_string())));

    let inferred = infer_kind_and_version(
        "Microsoft (R) Windows Debugger\n",
        "cdb version 10.0.21349.1004\n",
    );
    assert_eq!(inferred, Some((DebuggerKind::Cdb, "10.0.21349.1004".to_string())));

    let inferred = infer_kind_and_version("no banner here\n", "none here either\n");
    assert_eq!(inferred, None);
}
