//! Output partitioning, check matching, and the verdict.
//!
//! The captured stdout is split into lines and partitioned into spans by the
//! correlation markers the synthesizer emitted. Each identifier's span is
//! then matched against that identifier's checks by a subsequence test, and
//! the result is a `Passed`, `Failed` or `Errored` verdict.

use vstd::prelude::*;
use vstd::map::*;
use crate::kind::{DebuggerKind, DebuggerOutput};
use crate::debugger::{spec_begin_marker, spec_end_marker, spec_with_assigned,
    correlation_id_begin_marker, correlation_id_end_marker, Debugger, TestDefinition};
use crate::directive::{
    assign_correlation_ids, clone_statements, stmts_view, slot_of, CorrelationId, Statement,
    StmtView,
};
use crate::text::{
    contains_sub, digits_value, is_digit, last_index_c, lemma_last_index_c, parse_u32_digits,
    rfind_char, spec_lines, split_lines, str_contains_sub, str_starts_with, str_views,
};
use vstd::string::StringExecFns;

verus! {

/// The debugger produced span markers that do not nest properly or cannot be
/// read back: the output cannot be partitioned.
#[derive(Clone, Copy, PartialEq, Eq, Structural, Debug)]
pub struct MalformedOutput;

/// The outcome of one (test, debugger) pair: `Errored` for malformed
/// debugger output, `Failed` with a diagnostic and the captured output for a
/// well-formed mismatch, `Passed` when every span fully matches.
pub enum Status {
    Passed,
    Failed(String, DebuggerOutput),
    Errored,
}

/// The verdict for one test under one debugger, as handed to reporting.
pub struct TestResult {
    pub test_name: String,
    pub debugger_kind: DebuggerKind,
    pub debugger_version: String,
    pub status: Status,
}

impl TestResult {
    pub fn new(test_definition: &TestDefinition, debugger: &Debugger, status: Status) -> (r:
        TestResult)
        ensures
            r.test_name@ == test_definition.name@,
            r.debugger_kind == debugger.kind,
            r.debugger_version@ == debugger.version@,
            r.status == status,
    {
        TestResult {
            test_name: test_definition.name.clone(),
            debugger_kind: debugger.kind,
            debugger_version: debugger.version.clone(),
            status,
        }
    }
}

// ---------------------------------------------------------------------------
// Partitioning captured output by correlation identifier
// ---------------------------------------------------------------------------

pub open spec fn is_begin_marker_line(l: Seq<char>) -> bool {
    spec_begin_marker().is_prefix_of(l)
}

pub open spec fn is_end_marker_line(l: Seq<char>) -> bool {
    spec_end_marker().is_prefix_of(l)
}

/// The identifier a marker line carries: the decimal digits after the last
/// `=`, if they form a number that fits.
pub open spec fn spec_marker_id(l: Seq<char>) -> Option<int> {
    let e = last_index_c(l, '=');
    if e < 0 {
        None
    } else {
        let t = l.skip(e + 1);
        if t.len() > 0 && (forall|i: int| 0 <= i < t.len() ==> is_digit(t[i])) && digits_value(t)
            <= u32::MAX {
            Some(digits_value(t) as int)
        } else {
            None
        }
    }
}

/// Partitions lines into spans. A begin marker opens a span; a second begin
/// marker before the matching end, an end marker with no open span, an
/// unreadable marker identifier, or a span still open at the end of the
/// output, all make the output malformed (`None`). Lines outside any span
/// are discarded.
pub open spec fn spec_partition_from(
    lines: Seq<Seq<char>>,
    open_id: Option<int>,
    cur: Seq<Seq<char>>,
    acc: Map<int, Seq<Seq<char>>>,
) -> Option<Map<int, Seq<Seq<char>>>>
    decreases lines.len(),
{
    if lines.len() == 0 {
        if open_id is Some {
            None
        } else {
            Some(acc)
        }
    } else {
        let l = lines[0];
        if is_begin_marker_line(l) {
            if open_id is Some {
                None
            } else {
                match spec_marker_id(l) {
                    Some(id) => spec_partition_from(lines.drop_first(), Some(id), Seq::empty(), acc),
                    None => None,
                }
            }
        } else if is_end_marker_line(l) {
            match open_id {
                Some(id) => spec_partition_from(
                    lines.drop_first(),
                    None,
                    Seq::empty(),
                    acc.insert(id, cur),
                ),
                None => None,
            }
        } else if open_id is Some {
            spec_partition_from(lines.drop_first(), open_id, cur.push(l), acc)
        } else {
            spec_partition_from(lines.drop_first(), open_id, cur, acc)
        }
    }
}

/// The mapping from correlation identifier to the ordered lines of its span,
/// or `None` when the output is malformed.
pub open spec fn spec_partition(stdout: Seq<char>) -> Option<Map<int, Seq<Seq<char>>>> {
    spec_partition_from(spec_lines(stdout), None, Seq::empty(), Map::empty())
}

/// The mapping that a list of (identifier, lines) entries denotes; a later
/// entry with the same identifier supersedes an earlier one.
pub open spec fn assoc_map(entries: Seq<(CorrelationId, Vec<String>)>) -> Map<int, Seq<Seq<char>>>
    decreases entries.len(),
{
    if entries.len() == 0 {
        Map::empty()
    } else {
        assoc_map(entries.drop_last()).insert(
            entries.last().0.0 as int,
            str_views(entries.last().1@),
        )
    }
}

proof fn lemma_assoc_get(entries: Seq<(CorrelationId, Vec<String>)>, id: int, j: int)
    requires
        0 <= j < entries.len(),
        entries[j].0.0 as int == id,
        forall|k: int| j < k < entries.len() ==> (#[trigger] entries[k]).0.0 as int != id,
    ensures
        assoc_map(entries).dom().contains(id),
        assoc_map(entries)[id] == str_views(entries[j].1@),
    decreases entries.len(),
{
    if j == entries.len() - 1 {
    } else {
        assert(entries.drop_last()[j] == entries[j]);
        assert(forall|k: int|
            j < k < entries.drop_last().len() ==> (#[trigger] entries.drop_last()[k]).0.0 as int
                != id);
        lemma_assoc_get(entries.drop_last(), id, j);
        assert(entries.last().0.0 as int != id);
    }
}

proof fn lemma_assoc_absent(entries: Seq<(CorrelationId, Vec<String>)>, id: int)
    requires
        forall|k: int| 0 <= k < entries.len() ==> (#[trigger] entries[k]).0.0 as int != id,
    ensures
        !assoc_map(entries).dom().contains(id),
    decreases entries.len(),
{
    if entries.len() > 0 {
        assert(forall|k: int|
            0 <= k < entries.drop_last().len() ==> (#[trigger] entries.drop_last()[k]).0.0 as int
                != id);
        lemma_assoc_absent(entries.drop_last(), id);
        assert(entries.last().0.0 as int != id);
    }
}

/// The span for `cid`, copied out of the entry list, or `None` when no span
/// with that identifier was captured.
fn assoc_get(entries: &Vec<(CorrelationId, Vec<String>)>, cid: CorrelationId) -> (r: Option<
    Vec<String>,
>)
    ensures
        match r {
            Some(v) => assoc_map(entries@).dom().contains(cid.0 as int) && str_views(v@)
                == assoc_map(entries@)[cid.0 as int],
            None => !assoc_map(entries@).dom().contains(cid.0 as int),
        },
{
    let mut i: usize = entries.len();
    while i > 0
        invariant
            i <= entries@.len(),
            forall|k: int|
                i <= k < entries@.len() ==> (#[trigger] entries@[k]).0.0 as int != cid.0 as int,
        decreases i,
    {
        i -= 1;
        if entries[i].0.0 == cid.0 {
            let lines = crate::directive::clone_strings(&entries[i].1);
            proof {
                lemma_assoc_get(entries@, cid.0 as int, i as int);
            }
            return Some(lines);
        }
    }
    proof {
        lemma_assoc_absent(entries@, cid.0 as int);
    }
    None
}

/// Splits captured stdout into one ordered line list per correlation
/// identifier, using the same textual markers the synthesizer emitted.
/// Returns `Err` exactly when the output is malformed: overlapping or
/// unmatched span markers, an unreadable marker identifier, or a span left
/// open at the end of the output.
pub fn debugger_output_by_correlation_id(debugger_output: &DebuggerOutput) -> (r: Result<
    Vec<(CorrelationId, Vec<String>)>,
    MalformedOutput,
>)
    ensures
        match r {
            Ok(entries) => spec_partition(debugger_output.stdout@) == Some(assoc_map(entries@)),
            Err(_) => spec_partition(debugger_output.stdout@) is None,
        },
{
    let lines = split_lines(debugger_output.stdout.as_str());
    let ghost lv = spec_lines(debugger_output.stdout@);
    proof {
        assert(lv == str_views(lines@));
        assert(lv.skip(0) =~= lv);
    }
    let mut entries: Vec<(CorrelationId, Vec<String>)> = Vec::new();
    let mut current_id: Option<CorrelationId> = None;
    let mut current_lines: Vec<String> = Vec::new();
    let n = lines.len();
    let mut i: usize = 0;
    proof {
        assert(str_views(current_lines@) =~= Seq::<Seq<char>>::empty());
        assert(entries@.len() == 0);
        assert(assoc_map(entries@) == Map::<int, Seq<Seq<char>>>::empty());
    }
    while i < n
        invariant
            i <= n,
            n == lines@.len(),
            lv == str_views(lines@),
            current_id is None ==> current_lines@.len() == 0,
            spec_partition_from(
                lv.skip(i as int),
                crate::directive::opt_cid_view(current_id),
                str_views(current_lines@),
                assoc_map(entries@),
            ) == spec_partition(debugger_output.stdout@),
        decreases n - i,
    {
        proof {
            assert(lv.skip(i as int)[0] == lv[i as int]);
            assert(lv.skip(i as int).drop_first() =~= lv.skip(i + 1));
            assert(lv[i as int] == lines@[i as int]@);
        }
        let ghost old_entries = entries@;
        let ghost old_cur = current_lines@;
        let line = &lines[i];
        if str_starts_with(line.as_str(), correlation_id_begin_marker()) {
            if current_id.is_some() {
                return Err(MalformedOutput);
            }
            proof {
                lemma_last_index_c(line@, '=');
            }
            let llen = line.unicode_len();
            let eq = match rfind_char(line.as_str(), '=') {
                Some(e) => e,
                None => {
                    return Err(MalformedOutput);
                },
            };
            proof {
                assert(eq < llen);
            }
            let id = match parse_u32_digits(line.as_str(), eq + 1) {
                Some(v) => v,
                None => {
                    return Err(MalformedOutput);
                },
            };
            proof {
                assert(spec_marker_id(lv[i as int]) == Some(id as int));
            }
            current_id = Some(CorrelationId(id));
            current_lines = Vec::new();
            proof {
                assert(str_views(current_lines@) =~= Seq::<Seq<char>>::empty());
            }
        } else if str_starts_with(line.as_str(), correlation_id_end_marker()) {
            match current_id {
                Some(cid) => {
                    let done = current_lines;
                    current_lines = Vec::new();
                    entries.push((cid, done));
                    proof {
                        assert(entries@.drop_last() =~= old_entries);
                        assert(entries@.last() == (cid, done));
                        assert(assoc_map(entries@) == assoc_map(old_entries).insert(
                            cid.0 as int,
                            str_views(done@),
                        ));
                        assert(str_views(current_lines@) =~= Seq::<Seq<char>>::empty());
                    }
                    current_id = None;
                },
                None => {
                    return Err(MalformedOutput);
                },
            }
        } else if current_id.is_some() {
            current_lines.push(line.clone());
            proof {
                assert(str_views(current_lines@) =~= str_views(old_cur).push(lv[i as int]));
            }
        }
        i += 1;
    }
    if current_id.is_some() {
        return Err(MalformedOutput);
    }
    proof {
        assert(lv.skip(n as int).len() == 0);
    }
    Ok(entries)
}

// ---------------------------------------------------------------------------
// Matching checks against spans
// ---------------------------------------------------------------------------

/// Whether an output line satisfies a check: the check's pattern occurs in
/// the line as a literal substring.
pub open spec fn line_matches_check(line: Seq<char>, pattern: Seq<char>) -> bool {
    contains_sub(line, pattern)
}

/// The subsequence match: walk the lines in order with a pointer into the
/// check list; a line that satisfies the current check advances the pointer,
/// any other line is skipped. The result is where the pointer ends.
pub open spec fn spec_match_idx(checks: Seq<Seq<char>>, lines: Seq<Seq<char>>, idx: int) -> int
    decreases lines.len(),
{
    if idx >= checks.len() || lines.len() == 0 {
        idx
    } else if line_matches_check(lines[0], checks[idx]) {
        spec_match_idx(checks, lines.drop_first(), idx + 1)
    } else {
        spec_match_idx(checks, lines.drop_first(), idx)
    }
}

/// The distinct identifiers assigned to checks, in first-occurrence order.
pub open spec fn check_cids(stmts: Seq<StmtView>) -> Seq<int>
    decreases stmts.len(),
{
    if stmts.len() == 0 {
        Seq::empty()
    } else {
        let pre = check_cids(stmts.drop_last());
        match stmts.last() {
            StmtView::Check(_, slot) => match slot {
                Some(id) => if pre.contains(id) {
                    pre
                } else {
                    pre.push(id)
                },
                None => pre,
            },
            StmtView::CheckUnorderedBlock(_, slot) => match slot {
                Some(id) => if pre.contains(id) {
                    pre
                } else {
                    pre.push(id)
                },
                None => pre,
            },
            _ => pre,
        }
    }
}

/// The patterns of the ordered checks assigned to `id`, in document order.
pub open spec fn checks_of(stmts: Seq<StmtView>, id: int) -> Seq<Seq<char>>
    decreases stmts.len(),
{
    if stmts.len() == 0 {
        Seq::empty()
    } else {
        let pre = checks_of(stmts.drop_last(), id);
        match stmts.last() {
            StmtView::Check(pat, slot) => if slot == Some(id) {
                pre.push(pat)
            } else {
                pre
            },
            _ => pre,
        }
    }
}

/// The diagnostic for an identifier whose span is missing from the output
/// entirely, naming the first expected check.
pub open spec fn spec_missing_output_message(first_check: Seq<char>) -> Seq<char> {
    "check '"@ + first_check + "' failed"@
}

/// The captured lines quoted in a failure diagnostic: every line of the
/// span, each prefixed with `> `, marker-bearing lines excluded.
pub open spec fn spec_context_lines(lines: Seq<Seq<char>>) -> Seq<char>
    decreases lines.len(),
{
    if lines.len() == 0 {
        Seq::empty()
    } else {
        (if contains_sub(lines[0], spec_begin_marker()) || contains_sub(
            lines[0],
            spec_end_marker(),
        ) {
            Seq::empty()
        } else {
            "> "@ + lines[0] + seq!['\n']
        }) + spec_context_lines(lines.drop_first())
    }
}

/// The diagnostic for an expected pattern that the span does not satisfy,
/// quoting the span's captured lines.
pub open spec fn spec_failure_message(expected: Seq<char>, lines: Seq<Seq<char>>) -> Seq<char> {
    "Could not find '"@ + expected
        + "' in debugger output. Expected to find it within the following lines:\n\n"@
        + spec_context_lines(lines)
}

/// The first failing identifier's diagnostic, walking the identifiers in
/// order: a missing span fails with `spec_missing_output_message`, an
/// incomplete match with `spec_failure_message`; `None` when every
/// identifier's checks pass.
pub open spec fn spec_first_failure(
    keys: Seq<int>,
    stmts: Seq<StmtView>,
    part: Map<int, Seq<Seq<char>>>,
) -> Option<Seq<char>>
    decreases keys.len(),
{
    if keys.len() == 0 {
        None
    } else {
        let k = keys[0];
        let checks = checks_of(stmts, k);
        if checks.len() == 0 {
            spec_first_failure(keys.drop_first(), stmts, part)
        } else if !part.dom().contains(k) {
            Some(spec_missing_output_message(checks[0]))
        } else {
            let end = spec_match_idx(checks, part[k], 0);
            if end == checks.len() {
                spec_first_failure(keys.drop_first(), stmts, part)
            } else {
                Some(spec_failure_message(checks[end], part[k]))
            }
        }
    }
}

proof fn lemma_match_complete(checks: Seq<Seq<char>>, lines: Seq<Seq<char>>, idx: int)
    requires
        0 <= idx <= checks.len(),
        spec_match_idx(checks, lines, idx) == checks.len(),
    ensures
        forall|j: int|
            idx <= j < checks.len() ==> exists|li: int|
                0 <= li < lines.len() && contains_sub(lines[li], #[trigger] checks[j]),
    decreases lines.len(),
{
    if idx >= checks.len() || lines.len() == 0 {
    } else if line_matches_check(lines[0], checks[idx]) {
        lemma_match_complete(checks, lines.drop_first(), idx + 1);
        assert forall|j: int| idx <= j < checks.len() implies exists|li: int|
            0 <= li < lines.len() && contains_sub(lines[li], #[trigger] checks[j]) by {
            if j == idx {
                assert(contains_sub(lines[0], checks[j]));
            } else {
                let w = choose|li: int|
                    0 <= li < lines.drop_first().len() && contains_sub(
                        #[trigger] lines.drop_first()[li],
                        checks[j],
                    );
                assert(lines[w + 1] == lines.drop_first()[w]);
                assert(contains_sub(lines[w + 1], checks[j]));
            }
        }
    } else {
        lemma_match_complete(checks, lines.drop_first(), idx);
        assert forall|j: int| idx <= j < checks.len() implies exists|li: int|
            0 <= li < lines.len() && contains_sub(lines[li], #[trigger] checks[j]) by {
            let w = choose|li: int|
                0 <= li < lines.drop_first().len() && contains_sub(
                    #[trigger] lines.drop_first()[li],
                    checks[j],
                );
            assert(lines[w + 1] == lines.drop_first()[w]);
            assert(contains_sub(lines[w + 1], checks[j]));
        }
    }
}

/// Law: a check whose pattern occurs in no line of its identifier's span —
/// or whose span is missing entirely — always produces a failure, never a
/// passing verdict.
pub proof fn lemma_unmatchable_check_fails(
    keys: Seq<int>,
    stmts: Seq<StmtView>,
    part: Map<int, Seq<Seq<char>>>,
    ki: int,
    cj: int,
)
    requires
        0 <= ki < keys.len(),
        0 <= cj < checks_of(stmts, keys[ki]).len(),
        part.dom().contains(keys[ki]) ==> forall|li: int|
            0 <= li < part[keys[ki]].len() ==> !contains_sub(
                #[trigger] part[keys[ki]][li],
                checks_of(stmts, keys[ki])[cj],
            ),
    ensures
        spec_first_failure(keys, stmts, part) is Some,
    decreases keys.len(),
{
    let k = keys[0];
    let checks = checks_of(stmts, k);
    if ki == 0 {
        if checks.len() == 0 {
        } else if !part.dom().contains(k) {
        } else {
            let end = spec_match_idx(checks, part[k], 0);
            if end == checks.len() {
                lemma_match_complete(checks, part[k], 0);
                let w = choose|li: int|
                    0 <= li < part[k].len() && contains_sub(#[trigger] part[k][li], checks[cj]);
                assert(!contains_sub(part[k][w], checks[cj]));
                assert(false);
            }
        }
    } else {
        if checks.len() == 0 {
            assert(keys.drop_first()[ki - 1] == keys[ki]);
            lemma_unmatchable_check_fails(keys.drop_first(), stmts, part, ki - 1, cj);
        } else if !part.dom().contains(k) {
        } else {
            let end = spec_match_idx(checks, part[k], 0);
            if end == checks.len() {
                assert(keys.drop_first()[ki - 1] == keys[ki]);
                lemma_unmatchable_check_fails(keys.drop_first(), stmts, part, ki - 1, cj);
            }
        }
    }
}

pub open spec fn cids_view(keys: Seq<CorrelationId>) -> Seq<int> {
    keys.map_values(|c: CorrelationId| c.0 as int)
}

fn keys_contain(keys: &Vec<CorrelationId>, cid: CorrelationId) -> (r: bool)
    ensures
        r == cids_view(keys@).contains(cid.0 as int),
{
    let mut i: usize = 0;
    while i < keys.len()
        invariant
            i <= keys@.len(),
            forall|j: int| 0 <= j < i ==> (#[trigger] keys@[j]).0 as int != cid.0 as int,
        decreases keys@.len() - i,
    {
        if keys[i].0 == cid.0 {
            proof {
                assert(cids_view(keys@)[i as int] == cid.0 as int);
            }
            return true;
        }
        i += 1;
    }
    proof {
        assert forall|j: int| 0 <= j < cids_view(keys@).len() implies cids_view(keys@)[j]
            != cid.0 as int by {
            assert(cids_view(keys@)[j] == keys@[j].0 as int);
        }
    }
    false
}

/// The distinct identifiers assigned to the checks of an assigned script,
/// in first-occurrence order.
fn collect_check_cids(script: &Vec<Statement>) -> (keys: Vec<CorrelationId>)
    ensures
        cids_view(keys@) == check_cids(stmts_view(script@)),
{
    let ghost av = stmts_view(script@);
    let mut keys: Vec<CorrelationId> = Vec::new();
    let mut i: usize = 0;
    proof {
        assert(av.take(0) =~= Seq::<StmtView>::empty());
        assert(cids_view(keys@) =~= Seq::<int>::empty());
    }
    while i < script.len()
        invariant
            i <= script@.len(),
            av == stmts_view(script@),
            av.len() == script@.len(),
            cids_view(keys@) == check_cids(av.take(i as int)),
        decreases script@.len() - i,
    {
        proof {
            assert(av.take(i + 1).drop_last() =~= av.take(i as int));
            assert(av.take(i + 1).last() == av[i as int]);
            assert(av[i as int] == script@[i as int]@);
        }
        let ghost old_keys = keys@;
        let slot: Option<CorrelationId> = match &script[i] {
            Statement::Exec(_, _) => None,
            Statement::Check(_, s) => *s,
            Statement::CheckUnorderedBlock(_, s) => *s,
        };
        let is_check = match &script[i] {
            Statement::Exec(_, _) => false,
            _ => true,
        };
        if is_check {
            match slot {
                Some(cid) => {
                    if !keys_contain(&keys, cid) {
                        keys.push(cid);
                        proof {
                            assert(cids_view(keys@) =~= cids_view(old_keys).push(cid.0 as int));
                        }
                    }
                },
                None => {},
            }
        }
        i += 1;
    }
    proof {
        assert(av.take(av.len() as int) =~= av);
    }
    keys
}

/// The patterns of the ordered checks assigned to `cid`, in document order.
fn collect_checks(script: &Vec<Statement>, cid: CorrelationId) -> (r: Vec<String>)
    ensures
        str_views(r@) == checks_of(stmts_view(script@), cid.0 as int),
{
    let ghost av = stmts_view(script@);
    let mut r: Vec<String> = Vec::new();
    let mut i: usize = 0;
    proof {
        assert(av.take(0) =~= Seq::<StmtView>::empty());
        assert(str_views(r@) =~= Seq::<Seq<char>>::empty());
    }
    while i < script.len()
        invariant
            i <= script@.len(),
            av == stmts_view(script@),
            av.len() == script@.len(),
            str_views(r@) == checks_of(av.take(i as int), cid.0 as int),
        decreases script@.len() - i,
    {
        proof {
            assert(av.take(i + 1).drop_last() =~= av.take(i as int));
            assert(av.take(i + 1).last() == av[i as int]);
            assert(av[i as int] == script@[i as int]@);
        }
        let ghost old_r = r@;
        match &script[i] {
            Statement::Check(pat, slot) => {
                let matches_cid = match slot {
                    Some(c) => c.0 == cid.0,
                    None => false,
                };
                if matches_cid {
                    r.push(pat.clone());
                    proof {
                        assert(str_views(r@) =~= str_views(old_r).push(pat@));
                    }
                }
            },
            _ => {},
        }
        i += 1;
    }
    proof {
        assert(av.take(av.len() as int) =~= av);
    }
    r
}

/// Builds the failure diagnostic for an unmatched expected pattern,
/// quoting the span's captured lines.
fn build_failure_message(expected: &String, out_lines: &Vec<String>) -> (r: String)
    ensures
        r@ == spec_failure_message(expected@, str_views(out_lines@)),
{
    let ghost olv = str_views(out_lines@);
    let mut message = String::new();
    message.append("Could not find '");
    message.append(expected.as_str());
    message.append("' in debugger output. Expected to find it within the following lines:\n\n");
    let ghost head = message@;
    proof {
        assert(olv.skip(0) =~= olv);
    }
    let mut j: usize = 0;
    while j < out_lines.len()
        invariant
            j <= out_lines@.len(),
            olv == str_views(out_lines@),
            message@ + spec_context_lines(olv.skip(j as int)) == head + spec_context_lines(olv),
        decreases out_lines@.len() - j,
    {
        proof {
            assert(olv.skip(j as int)[0] == olv[j as int]);
            assert(olv.skip(j as int).drop_first() =~= olv.skip(j + 1));
            assert(olv[j as int] == out_lines@[j as int]@);
        }
        let ghost pre = message@;
        let line = &out_lines[j];
        let has_marker = str_contains_sub(line.as_str(), correlation_id_begin_marker())
            || str_contains_sub(line.as_str(), correlation_id_end_marker());
        if !has_marker {
            message.append("> ");
            message.append(line.as_str());
            crate::text::append_newline(&mut message);
            proof {
                assert(message@ =~= pre + ("> "@ + olv[j as int] + seq!['\n']));
            }
        }
        proof {
            assert(message@ + spec_context_lines(olv.skip(j + 1)) =~= pre + spec_context_lines(
                olv.skip(j as int),
            ));
        }
        j += 1;
    }
    proof {
        assert(olv.skip(olv.len() as int).len() == 0);
        assert(message@ =~= head + spec_context_lines(olv));
        assert(head + spec_context_lines(olv) =~= spec_failure_message(expected@, olv));
    }
    message
}

/// Replays the expected checks for each identifier against that
/// identifier's span of captured output and builds the verdict. Malformed
/// markers make the verdict `Errored`; a span that does not satisfy its
/// checks makes it `Failed`, with a diagnostic and the captured output;
/// when every span satisfies its checks the verdict is `Passed`. Checks
/// left unassigned (dangling) own no identifier and contribute nothing.
pub fn process_debugger_output(
    debugger: &Debugger,
    test_definition: &TestDefinition,
    debugger_output: DebuggerOutput,
) -> (r: TestResult)
    requires
        test_definition.script@.len() <= u32::MAX,
        forall|i: int|
            0 <= i < test_definition.script@.len() ==> slot_of(
                #[trigger] stmts_view(test_definition.script@)[i],
            ) is None,
        forall|i: int|
            0 <= i < test_definition.script@.len() ==> !(#[trigger] stmts_view(
                test_definition.script@,
            )[i] is CheckUnorderedBlock),
    ensures
        r.test_name@ == test_definition.name@,
        r.debugger_kind == debugger.kind,
        r.debugger_version@ == debugger.version@,
        ({
            let av = spec_with_assigned(stmts_view(test_definition.script@));
            match spec_partition(debugger_output.stdout@) {
                None => r.status is Errored,
                Some(part) => match spec_first_failure(check_cids(av), av, part) {
                    None => r.status is Passed,
                    Some(msg) => r.status is Failed && r.status->Failed_0@ == msg
                        && r.status->Failed_1 == debugger_output,
                },
            }
        }),
{
    let ghost v0 = stmts_view(test_definition.script@);
    let mut script = clone_statements(&test_definition.script);
    proof {
        assert(stmts_view(script@).len() == script@.len());
        assert(stmts_view(test_definition.script@).len() == test_definition.script@.len());
    }
    let _warnings = assign_correlation_ids(&mut script);
    let ghost av = stmts_view(script@);
    proof {
        assert(av =~= spec_with_assigned(v0));
    }

    let keys = collect_check_cids(&script);
    let ghost kv = cids_view(keys@);

    let entries = match debugger_output_by_correlation_id(&debugger_output) {
        Ok(e) => e,
        Err(_) => {
            return TestResult::new(test_definition, debugger, Status::Errored);
        },
    };
    let ghost part = assoc_map(entries@);
    proof {
        assert(kv.skip(0) =~= kv);
    }

    let mut ki: usize = 0;
    while ki < keys.len()
        invariant
            ki <= keys@.len(),
            kv == cids_view(keys@),
            kv.len() == keys@.len(),
            av == stmts_view(script@),
            v0 == stmts_view(test_definition.script@),
            av == spec_with_assigned(v0),
            kv == check_cids(av),
            part == assoc_map(entries@),
            spec_partition(debugger_output.stdout@) == Some(part),
            spec_first_failure(kv.skip(ki as int), av, part) == spec_first_failure(kv, av, part),
        decreases keys@.len() - ki,
    {
        proof {
            assert(kv.skip(ki as int)[0] == kv[ki as int]);
            assert(kv.skip(ki as int).drop_first() =~= kv.skip(ki + 1));
            assert(kv[ki as int] == keys@[ki as int].0 as int);
        }
        let cid = keys[ki];
        let checks = collect_checks(&script, cid);
        let ghost cv = str_views(checks@);
        proof {
            assert(cv == checks_of(av, cid.0 as int));
            assert(cv.len() == checks@.len());
        }
        if checks.len() > 0 {
            match assoc_get(&entries, cid) {
                None => {
                    let mut message = String::new();
                    message.append("check '");
                    message.append(checks[0].as_str());
                    message.append("' failed");
                    proof {
                        assert(cv[0] == checks@[0]@);
                        assert(message@ =~= spec_missing_output_message(cv[0]));
                        assert(kv.skip(ki as int)[0] == cid.0 as int);
                        assert(checks_of(av, kv.skip(ki as int)[0]) == cv);
                        assert(!part.dom().contains(cid.0 as int));
                        assert(spec_first_failure(kv.skip(ki as int), av, part) == Some(
                            spec_missing_output_message(cv[0]),
                        ));
                        assert(spec_first_failure(kv, av, part) == Some(message@));
                    }
                    return TestResult::new(
                        test_definition,
                        debugger,
                        Status::Failed(message, debugger_output),
                    );
                },
                Some(out_lines) => {
                    let ghost olv = str_views(out_lines@);
                    proof {
                        assert(olv == part[cid.0 as int]);
                        assert(olv.skip(0) =~= olv);
                    }
                    let mut check_index: usize = 0;
                    let mut li: usize = 0;
                    while li < out_lines.len() && check_index < checks.len()
                        invariant
                            li <= out_lines@.len(),
                            check_index <= checks@.len(),
                            cv.len() == checks@.len(),
                            olv == str_views(out_lines@),
                            cv == str_views(checks@),
                            spec_match_idx(cv, olv.skip(li as int), check_index as int)
                                == spec_match_idx(cv, olv, 0),
                        decreases out_lines@.len() - li,
                    {
                        proof {
                            assert(olv.skip(li as int)[0] == olv[li as int]);
                            assert(olv.skip(li as int).drop_first() =~= olv.skip(li + 1));
                            assert(olv[li as int] == out_lines@[li as int]@);
                            assert(cv[check_index as int] == checks@[check_index as int]@);
                        }
                        if str_contains_sub(
                            out_lines[li].as_str(),
                            checks[check_index].as_str(),
                        ) {
                            check_index += 1;
                        }
                        li += 1;
                    }
                    proof {
                        if check_index < checks@.len() {
                            assert(olv.skip(li as int).len() == 0);
                        }
                        assert(spec_match_idx(cv, olv, 0) == check_index as int);
                    }
                    if check_index != checks.len() {
                        let message = build_failure_message(&checks[check_index], &out_lines);
                        proof {
                            assert(checks@[check_index as int]@ == cv[check_index as int]);
                        }
                        return TestResult::new(
                            test_definition,
                            debugger,
                            Status::Failed(message, debugger_output),
                        );
                    }
                },
            }
        }
        proof {
            assert(spec_first_failure(kv.skip(ki as int), av, part) == spec_first_failure(
                kv.skip(ki + 1),
                av,
                part,
            ));
        }
        ki += 1;
    }
    proof {
        assert(kv.skip(keys@.len() as int).len() == 0);
        assert(spec_first_failure(kv, av, part) is None);
    }
    TestResult::new(test_definition, debugger, Status::Passed)
}

} // verus!
