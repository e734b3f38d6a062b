//! The closed set of supported debugger backends and the plain values
//! captured from one debugger invocation.

use vstd::prelude::*;

verus! {

/// One of the debugger backends the engine knows how to drive.
///
/// `Lldb` is a declared but unimplemented backend: it has no command mapping,
/// and every command-emission entry point excludes it explicitly rather than
/// silently skipping it. `Mock` is the null backend used for deterministic
/// self-tests: running it never spawns a process and instead echoes the
/// synthesized script back as captured output.
#[derive(Clone, Copy, PartialEq, Eq, Structural, Debug, Hash)]
pub enum DebuggerKind {
    Gdb,
    Cdb,
    Lldb,
    Mock,
}

impl DebuggerKind {
    /// The lower-case name of the backend, as it appears in prelude
    /// configuration entries.
    pub fn name(self) -> (r: &'static str)
        ensures
            r@ == self.spec_name(),
    {
        match self {
            DebuggerKind::Gdb => "gdb",
            DebuggerKind::Cdb => "cdb",
            DebuggerKind::Lldb => "lldb",
            DebuggerKind::Mock => "mock",
        }
    }

    /// What `name` returns for each variant.
    pub open spec fn spec_name(self) -> Seq<char> {
        match self {
            DebuggerKind::Gdb => "gdb"@,
            DebuggerKind::Cdb => "cdb"@,
            DebuggerKind::Lldb => "lldb"@,
            DebuggerKind::Mock => "mock"@,
        }
    }

    /// Whether the backend has a command mapping at all: `Lldb` is a declared
    /// gap, and callers must not reach its command-emission paths.
    pub fn is_implemented(self) -> (r: bool)
        ensures
            r == self.spec_is_implemented(),
    {
        !matches!(self, DebuggerKind::Lldb)
    }

    pub open spec fn spec_is_implemented(self) -> bool {
        self != DebuggerKind::Lldb
    }
}

impl DebuggerKind {
    /// The flags that put the backend into non-interactive batch mode; the
    /// script file path, then the debuggee, follow them on the command
    /// line. The null backend spawns no process and the third native
    /// backend has no command mapping, so both are excluded.
    pub fn batch_flags(self) -> (r: Vec<&'static str>)
        requires
            self.spec_is_implemented(),
            self != DebuggerKind::Mock,
        ensures
            ({
                let views = r@.map_values(|f: &str| f@);
                match self {
                    DebuggerKind::Gdb => views =~= seq!["--batch"@, "--quiet"@, "--command"@],
                    DebuggerKind::Cdb => views =~= seq!["-cf"@],
                    _ => false,
                }
            }),
    {
        let mut flags: Vec<&'static str> = Vec::new();
        match self {
            DebuggerKind::Gdb => {
                flags.push("--batch");
                flags.push("--quiet");
                flags.push("--command");
            },
            DebuggerKind::Cdb => {
                flags.push("-cf");
            },
            DebuggerKind::Lldb => {
            },
            DebuggerKind::Mock => {
            },
        }
        proof {
            match self {
                DebuggerKind::Gdb => {
                    assert(flags@.map_values(|f: &str| f@) =~= seq![
                        "--batch"@,
                        "--quiet"@,
                        "--command"@,
                    ]);
                },
                DebuggerKind::Cdb => {
                    assert(flags@.map_values(|f: &str| f@) =~= seq!["-cf"@]);
                },
                _ => {},
            }
        }
        flags
    }
}

/// Success or failure as reported by the debugger process's exit code.
#[derive(Clone, Copy, PartialEq, Eq, Structural, Debug, Hash)]
pub enum DebuggerExitStatus {
    Success,
    Failure,
}

impl DebuggerExitStatus {
    pub fn success(self) -> (r: bool)
        ensures
            r == (self == DebuggerExitStatus::Success),
    {
        match self {
            DebuggerExitStatus::Success => true,
            DebuggerExitStatus::Failure => false,
        }
    }
}

/// Everything captured from one debugger invocation. Immutable once produced.
#[derive(Clone, Debug)]
pub struct DebuggerOutput {
    pub stdout: String,
    pub stderr: String,
    pub exit_status: DebuggerExitStatus,
}

/// The output the null backend reports without spawning a process: the
/// synthesized script itself echoed back as stdout, with forced success.
pub fn mock_debugger_output(script: String) -> (r: DebuggerOutput)
    ensures
        r.stdout@ == script@,
        r.stderr@ == Seq::<char>::empty(),
        r.exit_status == DebuggerExitStatus::Success,
{
    DebuggerOutput {
        stdout: script,
        stderr: String::new(),
        exit_status: DebuggerExitStatus::Success,
    }
}

} // verus!
