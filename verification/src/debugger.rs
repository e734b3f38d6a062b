//! The debugger instance and the script synthesizer.
//!
//! A `Debugger` owns one backend kind, the probed version, the resolved
//! command, and the configured prelude lines. The synthesizer walks an
//! assigned directive sequence and emits one textual script: the prelude,
//! the breakpoint commands, and the command stream, each span of commands
//! bracketed by correlation-marker lines.

use vstd::prelude::*;
use crate::kind::DebuggerKind;
use crate::directive::{
    assign_correlation_ids, assigned_slots, clone_statements, opt_cid_eq, opt_cid_view,
    stmts_view, with_slot, slot_of, CorrelationId, Statement, StmtView,
};
use crate::text::{
    append_dec_u32, append_newline, dec_digits, join_lines, last_index_c, lemma_last_index_c,
    lemma_join_lines_append, lemma_join_lines_singleton, rfind_char, str_views,
};
use vstd::string::StrSliceExecFns;
use vstd::string::StringExecFns;

verus! {

/// A breakpoint request: the zero-based line index that a `#break` directive
/// was found on. The emitted breakpoint command uses the one-based line
/// number.
#[derive(Clone, Copy, PartialEq, Eq, Structural, Debug)]
pub struct BreakPoint {
    pub line_index: u32,
}

/// One test to drive: its slash-separated name (whose final segment is the
/// source file's base name), the filtered directive sequence, and the
/// requested breakpoints.
pub struct TestDefinition {
    pub name: String,
    pub script: Vec<Statement>,
    pub breakpoints: Vec<BreakPoint>,
}

impl TestDefinition {
    pub fn new(name: String, script: Vec<Statement>, breakpoints: Vec<BreakPoint>) -> (r:
        TestDefinition)
        ensures
            r.name == name,
            r.script == script,
            r.breakpoints == breakpoints,
    {
        TestDefinition { name, script, breakpoints }
    }
}

/// One configured debugger: a backend kind, the version string it reported,
/// the command it is invoked by, and backend-specific prelude commands.
/// Read-only for the duration of a test run.
pub struct Debugger {
    pub kind: DebuggerKind,
    pub version: String,
    pub command: String,
    pub evaluation_context: Vec<(String, String)>,
    pub prelude: Vec<String>,
}

impl Debugger {
    /// Builds a debugger instance; the evaluation context binds `debugger`
    /// to the backend's name and `version` to the reported version, for the
    /// external conditional-evaluation walker.
    pub fn new(kind: DebuggerKind, version: String, command: String, prelude: Vec<String>) -> (r:
        Debugger)
        ensures
            r.kind == kind,
            r.version == version,
            r.command == command,
            r.prelude == prelude,
            r.evaluation_context@.len() == 2,
            r.evaluation_context@[0].0@ == "debugger"@,
            r.evaluation_context@[0].1@ == kind.spec_name(),
            r.evaluation_context@[1].0@ == "version"@,
            r.evaluation_context@[1].1@ == version@,
    {
        let mut evaluation_context: Vec<(String, String)> = Vec::new();
        evaluation_context.push(("debugger".to_owned(), kind.name().to_owned()));
        evaluation_context.push(("version".to_owned(), version.clone()));
        Debugger { kind, version, command, evaluation_context, prelude }
    }

    /// The null-backend instance used for deterministic self-tests.
    pub fn mock() -> (r: Debugger)
        ensures
            r.kind == DebuggerKind::Mock,
            r.version@ == "1.0"@,
            r.command@ == "mockdbg"@,
            r.prelude@.len() == 0,
    {
        Debugger::new(DebuggerKind::Mock, "1.0".to_owned(), "mockdbg".to_owned(), Vec::new())
    }
}

// ---------------------------------------------------------------------------
// Correlation-marker lines
// ---------------------------------------------------------------------------

/// The literal prefix of a span-begin marker; the decimal identifier follows
/// with no separator. This exact string must survive the backend's echo
/// mechanism unbroken, as output partitioning looks for it again.
pub fn correlation_id_begin_marker() -> (r: &'static str)
    ensures
        r@ == spec_begin_marker(),
{
    "__output_with_correlation_id_begin__="
}

/// The literal prefix of a span-end marker.
pub fn correlation_id_end_marker() -> (r: &'static str)
    ensures
        r@ == spec_end_marker(),
{
    "__output_with_correlation_id_end__="
}

pub open spec fn spec_begin_marker() -> Seq<char> {
    "__output_with_correlation_id_begin__="@
}

pub open spec fn spec_end_marker() -> Seq<char> {
    "__output_with_correlation_id_end__="@
}

/// The text a marker carries in the captured output: the prefix for the
/// span boundary, then the decimal identifier.
pub open spec fn spec_marker_text(begin: bool, id: int) -> Seq<char> {
    (if begin {
        spec_begin_marker()
    } else {
        spec_end_marker()
    }) + dec_digits(id as nat)
}

/// The single script line that makes the backend echo a marker: `cdb` uses
/// `.echo`, `gdb` a python `print`, `lldb` a script `print`, and the null
/// backend writes the marker itself, since its output is the script.
pub open spec fn spec_marker_command_line(kind: DebuggerKind, begin: bool, id: int) -> Seq<char> {
    match kind {
        DebuggerKind::Cdb => ".echo "@ + spec_marker_text(begin, id),
        DebuggerKind::Gdb => "python print('"@ + spec_marker_text(begin, id) + "')"@,
        DebuggerKind::Mock => spec_marker_text(begin, id),
        DebuggerKind::Lldb => "script print('"@ + spec_marker_text(begin, id) + "')"@,
    }
}

/// The marker lines an optional identifier produces: none when no span is
/// open, one marker command line otherwise.
pub open spec fn spec_maybe_marker_lines(kind: DebuggerKind, begin: bool, cid: Option<int>) -> Seq<
    Seq<char>,
> {
    match cid {
        None => Seq::empty(),
        Some(id) => seq![spec_marker_command_line(kind, begin, id)],
    }
}

impl Debugger {
    /// Appends the marker command for `correlation_id` to the script, as one
    /// line, or nothing when no identifier is given.
    pub fn maybe_emit_correlation_id_command(
        &self,
        begin: bool,
        correlation_id: Option<CorrelationId>,
        output: &mut String,
    )
        ensures
            final(output)@ == old(output)@ + join_lines(
                spec_maybe_marker_lines(self.kind, begin, opt_cid_view(correlation_id)),
            ),
    {
        match correlation_id {
            None => {
                proof {
                    assert(old(output)@ + join_lines(Seq::<Seq<char>>::empty()) =~= old(output)@);
                }
            },
            Some(cid) => {
                let marker = if begin {
                    correlation_id_begin_marker()
                } else {
                    correlation_id_end_marker()
                };
                match self.kind {
                    DebuggerKind::Cdb => {
                        output.append(".echo ");
                        output.append(marker);
                        append_dec_u32(output, cid.0);
                    },
                    DebuggerKind::Gdb => {
                        output.append("python print('");
                        output.append(marker);
                        append_dec_u32(output, cid.0);
                        output.append("')");
                    },
                    DebuggerKind::Mock => {
                        output.append(marker);
                        append_dec_u32(output, cid.0);
                    },
                    DebuggerKind::Lldb => {
                        output.append("script print('");
                        output.append(marker);
                        append_dec_u32(output, cid.0);
                        output.append("')");
                    },
                }
                append_newline(output);
                proof {
                    let line = spec_marker_command_line(self.kind, begin, cid.0 as int);
                    lemma_join_lines_singleton(line);
                    assert(final(output)@ =~= old(output)@ + (line + seq!['\n']));
                    assert(old(output)@ + (line + seq!['\n']) =~= old(output)@ + join_lines(
                        seq![line],
                    ));
                }
            },
        }
    }
}

// ---------------------------------------------------------------------------
// Prelude and breakpoints
// ---------------------------------------------------------------------------

/// The backend-specific first line of every script: `cdb` enables source
/// line reporting; the others need nothing. The third native backend has no
/// mapping and is excluded by the emitters' preconditions.
pub open spec fn spec_prelude_head_lines(kind: DebuggerKind) -> Seq<Seq<char>> {
    match kind {
        DebuggerKind::Cdb => seq![".lines -e"@],
        DebuggerKind::Gdb => Seq::empty(),
        DebuggerKind::Mock => Seq::empty(),
        DebuggerKind::Lldb => Seq::empty(),
    }
}

impl Debugger {
    /// Writes the backend prelude line and the configured prelude commands.
    /// Invoked before anything else is written to the script.
    pub fn emit_script_prelude(&self, script: &mut String)
        requires
            self.kind.spec_is_implemented(),
        ensures
            final(script)@ == old(script)@ + join_lines(
                spec_prelude_head_lines(self.kind) + str_views(self.prelude@),
            ),
    {
        let ghost head = spec_prelude_head_lines(self.kind);
        let ghost user = str_views(self.prelude@);
        match self.kind {
            DebuggerKind::Cdb => {
                script.append(".lines -e");
                append_newline(script);
                proof {
                    lemma_join_lines_singleton(".lines -e"@);
                    assert(script@ =~= old(script)@ + join_lines(head));
                }
            },
            DebuggerKind::Gdb => {
                proof {
                    assert(script@ =~= old(script)@ + join_lines(head));
                }
            },
            DebuggerKind::Lldb => {
                // excluded by the precondition: no command mapping exists
                proof {
                    assert(script@ =~= old(script)@ + join_lines(head));
                }
            },
            DebuggerKind::Mock => {
                proof {
                    assert(script@ =~= old(script)@ + join_lines(head));
                }
            },
        }
        let mut i: usize = 0;
        while i < self.prelude.len()
            invariant
                i <= self.prelude@.len(),
                user == str_views(self.prelude@),
                script@ == old(script)@ + join_lines(head) + join_lines(user.take(i as int)),
            decreases self.prelude@.len() - i,
        {
            proof {
                assert(user.take(i + 1) =~= user.take(i as int) + seq![user[i as int]]);
                lemma_join_lines_append(user.take(i as int), seq![user[i as int]]);
                lemma_join_lines_singleton(user[i as int]);
                assert(user[i as int] == self.prelude@[i as int]@);
            }
            script.append(self.prelude[i].as_str());
            append_newline(script);
            proof {
                assert(script@ =~= old(script)@ + join_lines(head) + join_lines(
                    user.take(i + 1),
                ));
            }
            i += 1;
        }
        proof {
            assert(user.take(user.len() as int) =~= user);
            lemma_join_lines_append(head, user);
            assert(old(script)@ + join_lines(head) + join_lines(user) =~= old(script)@
                + join_lines(head + user));
        }
    }
}

/// The final path segment of a slash-separated test name: the base name of
/// the source file that breakpoints refer to.
pub open spec fn spec_base_name(name: Seq<char>) -> Seq<char> {
    name.skip(last_index_c(name, '/') + 1)
}

/// The breakpoint command for one requested line: `cdb` syntax (also used
/// by the null backend) or `gdb` syntax, with the one-based line number.
pub open spec fn spec_bp_line(kind: DebuggerKind, base: Seq<char>, line_index: int) -> Seq<char> {
    match kind {
        DebuggerKind::Cdb | DebuggerKind::Mock => "bp `"@ + base + ":"@ + dec_digits(
            (line_index + 1) as nat,
        ) + "`"@,
        DebuggerKind::Gdb => "break '"@ + base + ":"@ + dec_digits((line_index + 1) as nat)
            + "'"@,
        DebuggerKind::Lldb => Seq::empty(),
    }
}

pub open spec fn spec_bp_lines(kind: DebuggerKind, base: Seq<char>, bps: Seq<BreakPoint>) -> Seq<
    Seq<char>,
> {
    bps.map_values(|b: BreakPoint| spec_bp_line(kind, base, b.line_index as int))
}

impl Debugger {
    /// Emits one breakpoint-setting command per requested breakpoint,
    /// naming the test's base file name and the one-based line number.
    pub fn emit_breakpoints(&self, test_definition: &TestDefinition, script: &mut String)
        requires
            self.kind.spec_is_implemented(),
            test_definition.breakpoints@.len() > 0 ==> last_index_c(test_definition.name@, '/')
                >= 0,
            forall|j: int|
                0 <= j < test_definition.breakpoints@.len() ==> (
                #[trigger] test_definition.breakpoints@[j]).line_index < u32::MAX,
        ensures
            final(script)@ == old(script)@ + join_lines(
                spec_bp_lines(
                    self.kind,
                    spec_base_name(test_definition.name@),
                    test_definition.breakpoints@,
                ),
            ),
    {
        if test_definition.breakpoints.len() == 0 {
            proof {
                let lines = spec_bp_lines(
                    self.kind,
                    spec_base_name(test_definition.name@),
                    test_definition.breakpoints@,
                );
                assert(lines.len() == 0);
                assert(join_lines(lines) == Seq::<char>::empty());
                assert(script@ =~= old(script)@ + join_lines(lines));
            }
            return ;
        }
        let name = test_definition.name.as_str();
        let len = name.unicode_len();
        proof {
            lemma_last_index_c(name@, '/');
        }
        let slash = match rfind_char(name, '/') {
            Some(i) => i,
            None => 0,  // unreachable under the precondition
        };
        let base = name.substring_char(slash + 1, len).to_owned();
        proof {
            assert(base@ =~= spec_base_name(test_definition.name@));
        }
        let ghost bps = test_definition.breakpoints@;
        let ghost lines = spec_bp_lines(self.kind, base@, bps);
        let mut i: usize = 0;
        while i < test_definition.breakpoints.len()
            invariant
                i <= bps.len(),
                bps == test_definition.breakpoints@,
                lines == spec_bp_lines(self.kind, base@, bps),
                base@ == spec_base_name(test_definition.name@),
                self.kind.spec_is_implemented(),
                forall|j: int| 0 <= j < bps.len() ==> (#[trigger] bps[j]).line_index < u32::MAX,
                script@ == old(script)@ + join_lines(lines.take(i as int)),
            decreases bps.len() - i,
        {
            let bp = test_definition.breakpoints[i];
            proof {
                assert(lines.take(i + 1) =~= lines.take(i as int) + seq![lines[i as int]]);
                lemma_join_lines_append(lines.take(i as int), seq![lines[i as int]]);
                lemma_join_lines_singleton(lines[i as int]);
                assert(lines[i as int] == spec_bp_line(self.kind, base@, bp.line_index as int));
            }
            match self.kind {
                DebuggerKind::Cdb | DebuggerKind::Mock => {
                    script.append("bp `");
                    script.append(base.as_str());
                    script.append(":");
                    append_dec_u32(script, bp.line_index + 1);
                    script.append("`");
                },
                DebuggerKind::Gdb => {
                    script.append("break '");
                    script.append(base.as_str());
                    script.append(":");
                    append_dec_u32(script, bp.line_index + 1);
                    script.append("'");
                },
                DebuggerKind::Lldb => {
                    // excluded by the precondition: no command mapping exists
                },
            }
            append_newline(script);
            proof {
                assert(script@ =~= old(script)@ + join_lines(lines.take(i + 1)));
            }
            i += 1;
        }
        proof {
            assert(lines.take(lines.len() as int) =~= lines);
        }
    }
}

// ---------------------------------------------------------------------------
// The command stream
// ---------------------------------------------------------------------------

/// The lines of the command stream: whenever a command's identifier differs
/// from the identifier of the open span, the open span is closed and a new
/// one opened; after the last command the open span is closed. Checks emit
/// nothing.
pub open spec fn spec_cmd_section_lines(
    kind: DebuggerKind,
    stmts: Seq<StmtView>,
    last: Option<int>,
) -> Seq<Seq<char>>
    decreases stmts.len(),
{
    if stmts.len() == 0 {
        spec_maybe_marker_lines(kind, false, last)
    } else {
        match stmts[0] {
            StmtView::Exec(text, cid) => {
                if cid == last {
                    seq![text] + spec_cmd_section_lines(kind, stmts.drop_first(), last)
                } else {
                    spec_maybe_marker_lines(kind, false, last) + spec_maybe_marker_lines(
                        kind,
                        true,
                        cid,
                    ) + seq![text] + spec_cmd_section_lines(kind, stmts.drop_first(), cid)
                }
            },
            _ => spec_cmd_section_lines(kind, stmts.drop_first(), last),
        }
    }
}

/// The leaves with the slots the correlation protocol assigns to them.
pub open spec fn spec_with_assigned(stmts: Seq<StmtView>) -> Seq<StmtView> {
    Seq::new(stmts.len(), |i: int| with_slot(stmts[i], assigned_slots(stmts)[i]))
}

/// Every line of the script synthesized for one test: the backend prelude,
/// the configured prelude commands, the breakpoint commands, then the
/// command stream with its correlation-marker lines.
pub open spec fn spec_script_lines(
    kind: DebuggerKind,
    prelude: Seq<Seq<char>>,
    name: Seq<char>,
    bps: Seq<BreakPoint>,
    stmts: Seq<StmtView>,
) -> Seq<Seq<char>> {
    spec_prelude_head_lines(kind) + prelude + spec_bp_lines(kind, spec_base_name(name), bps)
        + spec_cmd_section_lines(kind, spec_with_assigned(stmts), None)
}

/// Generates the debugger script for the given combination of test
/// definition and debugger: every line of
/// `spec_script_lines` in order, each terminated by a newline.
pub fn generate_debugger_script(debugger: &Debugger, test_definition: &TestDefinition) -> (r:
    String)
    requires
        debugger.kind.spec_is_implemented(),
        test_definition.breakpoints@.len() > 0 ==> last_index_c(test_definition.name@, '/') >= 0,
        forall|j: int|
            0 <= j < test_definition.breakpoints@.len() ==> (
            #[trigger] test_definition.breakpoints@[j]).line_index < u32::MAX,
        test_definition.script@.len() <= u32::MAX,
        forall|i: int|
            0 <= i < test_definition.script@.len() ==> slot_of(
                #[trigger] stmts_view(test_definition.script@)[i],
            ) is None,
    ensures
        r@ == join_lines(
            spec_script_lines(
                debugger.kind,
                str_views(debugger.prelude@),
                test_definition.name@,
                test_definition.breakpoints@,
                stmts_view(test_definition.script@),
            ),
        ),
{
    let ghost v0 = stmts_view(test_definition.script@);
    let mut debugger_script = String::new();
    debugger.emit_script_prelude(&mut debugger_script);
    debugger.emit_breakpoints(test_definition, &mut debugger_script);
    let ghost base_text = debugger_script@;

    let mut script = clone_statements(&test_definition.script);
    proof {
        assert(stmts_view(script@).len() == script@.len());
        assert(stmts_view(test_definition.script@).len() == test_definition.script@.len());
    }
    let _warnings = assign_correlation_ids(&mut script);
    let ghost av = stmts_view(script@);
    proof {
        assert(av =~= spec_with_assigned(v0));
        crate::directive::lemma_assign_slots_len(v0, 0, None, false);
        assert(av.skip(0) =~= av);
    }

    let mut last: Option<CorrelationId> = None;
    let n = script.len();
    let mut i: usize = 0;
    while i < n
        invariant
            i <= n,
            n == script@.len(),
            av == stmts_view(script@),
            av.len() == n,
            debugger_script@ + join_lines(
                spec_cmd_section_lines(debugger.kind, av.skip(i as int), opt_cid_view(last)),
            ) == base_text + join_lines(spec_cmd_section_lines(debugger.kind, av, None)),
        decreases n - i,
    {
        proof {
            assert(av.skip(i as int)[0] == av[i as int]);
            assert(av.skip(i as int).drop_first() =~= av.skip(i + 1));
            assert(av[i as int] == script@[i as int]@);
        }
        let stmt = &script[i];
        match stmt {
            Statement::Exec(command, correlation_id) => {
                let ghost pre = debugger_script@;
                let ghost cid_v = opt_cid_view(*correlation_id);
                let ghost last_v = opt_cid_view(last);
                if !opt_cid_eq(correlation_id, &last) {
                    debugger.maybe_emit_correlation_id_command(false, last, &mut debugger_script);
                    debugger.maybe_emit_correlation_id_command(
                        true,
                        *correlation_id,
                        &mut debugger_script,
                    );
                    last = *correlation_id;
                }
                debugger_script.append(command.as_str());
                append_newline(&mut debugger_script);
                proof {
                    let tail = spec_cmd_section_lines(
                        debugger.kind,
                        av.skip(i + 1),
                        opt_cid_view(last),
                    );
                    lemma_join_lines_singleton(command@);
                    if cid_v == last_v {
                        assert(spec_cmd_section_lines(debugger.kind, av.skip(i as int), last_v)
                            == seq![command@] + tail);
                        lemma_join_lines_append(seq![command@], tail);
                        assert(debugger_script@ + join_lines(tail) =~= pre + join_lines(
                            seq![command@] + tail,
                        ));
                    } else {
                        let closing = spec_maybe_marker_lines(debugger.kind, false, last_v);
                        let opening = spec_maybe_marker_lines(debugger.kind, true, cid_v);
                        assert(spec_cmd_section_lines(debugger.kind, av.skip(i as int), last_v)
                            == closing + opening + seq![command@] + tail);
                        lemma_join_lines_append(closing, opening);
                        lemma_join_lines_append(closing + opening, seq![command@]);
                        lemma_join_lines_append(closing + opening + seq![command@], tail);
                        assert(debugger_script@ + join_lines(tail) =~= pre + join_lines(
                            closing + opening + seq![command@] + tail,
                        ));
                    }
                }
            },
            Statement::Check(_, _) => {
                proof {
                    assert(spec_cmd_section_lines(
                        debugger.kind,
                        av.skip(i as int),
                        opt_cid_view(last),
                    ) == spec_cmd_section_lines(debugger.kind, av.skip(i + 1), opt_cid_view(last)));
                }
            },
            Statement::CheckUnorderedBlock(_, _) => {
                proof {
                    assert(spec_cmd_section_lines(
                        debugger.kind,
                        av.skip(i as int),
                        opt_cid_view(last),
                    ) == spec_cmd_section_lines(debugger.kind, av.skip(i + 1), opt_cid_view(last)));
                }
            },
        }
        i += 1;
    }
    proof {
        assert(av.skip(n as int).len() == 0);
        assert(spec_cmd_section_lines(debugger.kind, av.skip(n as int), opt_cid_view(last))
            == spec_maybe_marker_lines(debugger.kind, false, opt_cid_view(last)));
    }
    debugger.maybe_emit_correlation_id_command(false, last, &mut debugger_script);
    proof {
        let head = spec_prelude_head_lines(debugger.kind);
        let user = str_views(debugger.prelude@);
        let bp_lines = spec_bp_lines(
            debugger.kind,
            spec_base_name(test_definition.name@),
            test_definition.breakpoints@,
        );
        let cmd = spec_cmd_section_lines(debugger.kind, av, None);
        lemma_join_lines_append(head + user, bp_lines);
        lemma_join_lines_append(head + user + bp_lines, cmd);
        assert(base_text =~= join_lines(head + user) + join_lines(bp_lines));
        assert(debugger_script@ =~= join_lines(head + user + bp_lines + cmd));
        assert(spec_script_lines(
            debugger.kind,
            user,
            test_definition.name@,
            test_definition.breakpoints@,
            v0,
        ) == head + user + bp_lines + cmd);
    }
    debugger_script
}

} // verus!
