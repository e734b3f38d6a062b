//! The filtered directive sequence and the correlation protocol.
//!
//! A test script, after conditional filtering, is a sequence of leaf
//! statements: executable commands and checks. The correlation protocol walks
//! that sequence once and writes a correlation identifier into each leaf's
//! slot, so that the very same walk can later align synthesized commands with
//! partitioned output spans.

use vstd::prelude::*;
use crate::text::{last_index_c, lemma_last_index_c, is_digit, digits_value, parse_u32_digits, rfind_char};
use vstd::string::StrSliceExecFns;

verus! {

/// An opaque, totally ordered token linking one or more commands to the
/// output span they are expected to produce.
#[derive(Clone, Copy, PartialEq, Eq, Structural, Debug, Hash)]
pub struct CorrelationId(pub u32);

/// One leaf of the filtered directive sequence.
///
/// An `Exec` leaf carries the command text handed verbatim to the debugger.
/// A `Check` leaf carries a pattern that an output line satisfies when the
/// pattern occurs in the line as a literal substring. A
/// `CheckUnorderedBlock` carries a set of such patterns; matching it is a
/// declared but unimplemented capability, excluded explicitly by the
/// functions that would need it. Each leaf has a slot for the correlation
/// identifier, written exactly once per assignment pass.
pub enum Statement {
    Exec(String, Option<CorrelationId>),
    Check(String, Option<CorrelationId>),
    CheckUnorderedBlock(Vec<String>, Option<CorrelationId>),
}

/// The mathematical shape of a leaf: its text payload and identifier slot.
pub enum StmtView {
    Exec(Seq<char>, Option<int>),
    Check(Seq<char>, Option<int>),
    CheckUnorderedBlock(Seq<Seq<char>>, Option<int>),
}

pub open spec fn opt_cid_view(o: Option<CorrelationId>) -> Option<int> {
    match o {
        Some(c) => Some(c.0 as int),
        None => None,
    }
}

impl View for Statement {
    type V = StmtView;

    open spec fn view(&self) -> StmtView {
        match self {
            Statement::Exec(t, slot) => StmtView::Exec(t@, opt_cid_view(*slot)),
            Statement::Check(t, slot) => StmtView::Check(t@, opt_cid_view(*slot)),
            Statement::CheckUnorderedBlock(ts, slot) => StmtView::CheckUnorderedBlock(
                crate::text::str_views(ts@),
                opt_cid_view(*slot),
            ),
        }
    }
}

pub open spec fn stmts_view(v: Seq<Statement>) -> Seq<StmtView> {
    v.map_values(|s: Statement| s@)
}

pub open spec fn is_exec_stmt(s: StmtView) -> bool {
    s is Exec
}

pub open spec fn is_check_stmt(s: StmtView) -> bool {
    s is Check || s is CheckUnorderedBlock
}

pub open spec fn slot_of(s: StmtView) -> Option<int> {
    match s {
        StmtView::Exec(_, slot) => slot,
        StmtView::Check(_, slot) => slot,
        StmtView::CheckUnorderedBlock(_, slot) => slot,
    }
}

/// The same leaf with its identifier slot replaced.
pub open spec fn with_slot(s: StmtView, slot: Option<int>) -> StmtView {
    match s {
        StmtView::Exec(t, _) => StmtView::Exec(t, slot),
        StmtView::Check(t, _) => StmtView::Check(t, slot),
        StmtView::CheckUnorderedBlock(ts, _) => StmtView::CheckUnorderedBlock(ts, slot),
    }
}

// ---------------------------------------------------------------------------
// The correlation protocol
// ---------------------------------------------------------------------------

/// Whether the next executable command must open a fresh identifier: it must
/// when none has been emitted yet, or when the last emitted identifier has
/// already been consumed by a check.
pub open spec fn fresh_needed(last: Option<int>, last_checked: bool) -> bool {
    last is None || last_checked
}

/// The identifier slots the protocol assigns to `stmts`, starting from the
/// given state: `next` is the next unused identifier, `last` the identifier
/// most recently emitted, `last_checked` whether a check has consumed `last`.
///
/// An executable command allocates `next` when a fresh identifier is needed
/// and otherwise reuses `last`; a check reuses `last` and consumes it, or is
/// left unassigned (dangling) when nothing has been emitted yet.
pub open spec fn spec_assign_slots(
    stmts: Seq<StmtView>,
    next: int,
    last: Option<int>,
    last_checked: bool,
) -> Seq<Option<int>>
    decreases stmts.len(),
{
    if stmts.len() == 0 {
        Seq::empty()
    } else {
        let s = stmts[0];
        if is_exec_stmt(s) {
            if fresh_needed(last, last_checked) {
                seq![Some(next)] + spec_assign_slots(
                    stmts.drop_first(),
                    next + 1,
                    Some(next),
                    false,
                )
            } else {
                seq![last] + spec_assign_slots(stmts.drop_first(), next, last, false)
            }
        } else {
            match last {
                Some(l) => seq![Some(l)] + spec_assign_slots(stmts.drop_first(), next, last, true),
                None => seq![None] + spec_assign_slots(stmts.drop_first(), next, last, last_checked),
            }
        }
    }
}

/// The slots assigned to a freshly filtered sequence, whose slots are still
/// unset.
pub open spec fn assigned_slots(stmts: Seq<StmtView>) -> Seq<Option<int>> {
    spec_assign_slots(stmts, 0, None, false)
}

pub proof fn lemma_assign_slots_len(
    stmts: Seq<StmtView>,
    next: int,
    last: Option<int>,
    last_checked: bool,
)
    ensures
        spec_assign_slots(stmts, next, last, last_checked).len() == stmts.len(),
    decreases stmts.len(),
{
    if stmts.len() > 0 {
        let s = stmts[0];
        if is_exec_stmt(s) {
            if fresh_needed(last, last_checked) {
                lemma_assign_slots_len(stmts.drop_first(), next + 1, Some(next), false);
            } else {
                lemma_assign_slots_len(stmts.drop_first(), next, last, false);
            }
        } else {
            match last {
                Some(_) => lemma_assign_slots_len(stmts.drop_first(), next, last, true),
                None => lemma_assign_slots_len(stmts.drop_first(), next, last, last_checked),
            }
        }
    }
}

/// A deep copy of a list of owned strings, preserving their views.
pub fn clone_strings(v: &Vec<String>) -> (r: Vec<String>)
    ensures
        crate::text::str_views(r@) == crate::text::str_views(v@),
{
    let mut r: Vec<String> = Vec::new();
    let mut i: usize = 0;
    while i < v.len()
        invariant
            i <= v@.len(),
            r@.len() == i,
            forall|j: int| 0 <= j < i ==> r@[j]@ == v@[j]@,
        decreases v@.len() - i,
    {
        r.push(v[i].clone());
        i += 1;
    }
    proof {
        assert(crate::text::str_views(r@) =~= crate::text::str_views(v@));
    }
    r
}

fn clone_statement(s: &Statement) -> (r: Statement)
    ensures
        r@ == s@,
{
    match s {
        Statement::Exec(text, slot) => Statement::Exec(text.clone(), *slot),
        Statement::Check(text, slot) => Statement::Check(text.clone(), *slot),
        Statement::CheckUnorderedBlock(texts, slot) => Statement::CheckUnorderedBlock(
            clone_strings(texts),
            *slot,
        ),
    }
}

/// A deep copy of a leaf sequence, so that one synthesis-then-verification
/// cycle can write identifier slots without touching the shared original.
pub fn clone_statements(v: &Vec<Statement>) -> (r: Vec<Statement>)
    ensures
        stmts_view(r@) == stmts_view(v@),
{
    let mut r: Vec<Statement> = Vec::new();
    let mut i: usize = 0;
    while i < v.len()
        invariant
            i <= v@.len(),
            r@.len() == i,
            forall|j: int| 0 <= j < i ==> r@[j]@ == v@[j]@,
        decreases v@.len() - i,
    {
        r.push(clone_statement(&v[i]));
        i += 1;
    }
    proof {
        assert(stmts_view(r@) =~= stmts_view(v@));
    }
    r
}

/// Whether two identifier slots hold the same value.
pub fn opt_cid_eq(a: &Option<CorrelationId>, b: &Option<CorrelationId>) -> (r: bool)
    ensures
        r == (opt_cid_view(*a) == opt_cid_view(*b)),
{
    match (a, b) {
        (None, None) => true,
        (Some(x), Some(y)) => x.0 == y.0,
        _ => false,
    }
}

/// Runs the correlation protocol over the filtered leaf sequence, writing an
/// identifier into each leaf's slot. Returns the indices of dangling checks:
/// checks with no preceding executable command, which are left unassigned and
/// reported as warnings, in order.
pub fn assign_correlation_ids(script: &mut Vec<Statement>) -> (warnings: Vec<usize>)
    requires
        old(script)@.len() <= u32::MAX,
        forall|i: int|
            0 <= i < old(script)@.len() ==> slot_of(#[trigger] stmts_view(old(script)@)[i])
                is None,
    ensures
        final(script)@.len() == old(script)@.len(),
        forall|i: int|
            0 <= i < old(script)@.len() ==> stmts_view(final(script)@)[i] == with_slot(
                stmts_view(old(script)@)[i],
                assigned_slots(stmts_view(old(script)@))[i],
            ),
        forall|k: int|
            0 <= k < warnings@.len() ==> 0 <= #[trigger] warnings@[k] < old(script)@.len()
                && is_check_stmt(stmts_view(old(script)@)[warnings@[k] as int]) && assigned_slots(
                stmts_view(old(script)@),
            )[warnings@[k] as int] is None,
        forall|i: int|
            0 <= i < old(script)@.len() && is_check_stmt(stmts_view(old(script)@)[i])
                && assigned_slots(stmts_view(old(script)@))[i] is None ==> exists|k: int|
                0 <= k < warnings@.len() && warnings@[k] == i,
        forall|k: int| 0 <= k < warnings@.len() - 1 ==> #[trigger] warnings@[k] < warnings@[k + 1],
{
    let ghost v0 = stmts_view(old(script)@);
    let ghost slots = assigned_slots(v0);
    proof {
        lemma_assign_slots_len(v0, 0, None, false);
        assert(v0.skip(0) =~= v0);
        assert(slots.skip(0) =~= slots);
    }
    let n = script.len();
    let mut out: Vec<Statement> = Vec::new();
    let mut warnings: Vec<usize> = Vec::new();
    let mut next: u32 = 0;
    let mut last: Option<CorrelationId> = None;
    let mut last_checked: bool = false;
    let mut i: usize = 0;
    while i < n
        invariant
            i <= n,
            n == script@.len(),
            v0 == stmts_view(script@),
            v0.len() == n,
            slots == assigned_slots(v0),
            slots.len() == n,
            next as int <= i,
            n <= u32::MAX,
            forall|j: int| 0 <= j < v0.len() ==> slot_of(#[trigger] v0[j]) is None,
            spec_assign_slots(v0.skip(i as int), next as int, opt_cid_view(last), last_checked)
                == slots.skip(i as int),
            out@.len() == i,
            forall|j: int| 0 <= j < i ==> stmts_view(out@)[j] == with_slot(v0[j], slots[j]),
            forall|k: int|
                0 <= k < warnings@.len() ==> 0 <= #[trigger] warnings@[k] < i && is_check_stmt(
                    v0[warnings@[k] as int],
                ) && slots[warnings@[k] as int] is None,
            forall|j: int|
                0 <= j < i && is_check_stmt(v0[j]) && slots[j] is None ==> exists|k: int|
                    0 <= k < warnings@.len() && warnings@[k] == j,
            forall|k: int| 0 <= k < warnings@.len() - 1 ==> #[trigger] warnings@[k] < warnings@[k + 1],
        decreases n - i,
    {
        proof {
            assert(v0.skip(i as int)[0] == v0[i as int]);
            assert(v0.skip(i as int).drop_first() =~= v0.skip(i + 1));
            assert(slots.skip(i as int)[0] == slots[i as int]);
            assert(slots.skip(i as int).drop_first() =~= slots.skip(i + 1));
            assert(v0[i as int] == script@[i as int]@);
        }
        let ghost w_old = warnings@;
        let ghost out_old = out@;
        let stmt = &script[i];
        match stmt {
            Statement::Exec(text, _) => {
                let fresh = match last {
                    None => true,
                    Some(_) => last_checked,
                };
                let cid = if fresh {
                    let c = CorrelationId(next);
                    next = next + 1;
                    c
                } else {
                    match last {
                        Some(c) => c,
                        None => CorrelationId(0),  // unreachable: fresh is true when last is None
                    }
                };
                out.push(Statement::Exec(text.clone(), Some(cid)));
                last = Some(cid);
                last_checked = false;
            },
            Statement::Check(text, _) => {
                match last {
                    Some(c) => {
                        out.push(Statement::Check(text.clone(), Some(c)));
                        last_checked = true;
                    },
                    None => {
                        out.push(Statement::Check(text.clone(), None));
                        warnings.push(i);
                    },
                }
            },
            Statement::CheckUnorderedBlock(texts, _) => {
                match last {
                    Some(c) => {
                        out.push(Statement::CheckUnorderedBlock(clone_strings(texts), Some(c)));
                        last_checked = true;
                    },
                    None => {
                        out.push(Statement::CheckUnorderedBlock(clone_strings(texts), None));
                        warnings.push(i);
                    },
                }
            },
        }
        proof {
            assert forall|j: int| 0 <= j < i + 1 implies stmts_view(out@)[j] == with_slot(
                v0[j],
                slots[j],
            ) by {
                assert(stmts_view(out@)[j] == out@[j]@);
                if j < i {
                    assert(out@[j] == out_old[j]);
                    assert(stmts_view(out_old)[j] == out_old[j]@);
                }
            }
            assert forall|j: int|
                0 <= j < i + 1 && is_check_stmt(v0[j]) && slots[j] is None implies exists|k: int|
                0 <= k < warnings@.len() && warnings@[k] == j by {
                if j < i {
                    let k0 = choose|k: int| 0 <= k < w_old.len() && w_old[k] == j;
                    assert(warnings@[k0] == j);
                } else {
                    // a leaf at `i` that is a dangling check was just recorded
                    assert(warnings@[warnings@.len() - 1] == j);
                }
            }
        }
        i += 1;
    }
    proof {
        assert(v0.skip(n as int).len() == 0);
    }
    *script = out;
    warnings
}

// ---------------------------------------------------------------------------
// Laws of the protocol
// ---------------------------------------------------------------------------

/// How many executable commands a sequence holds.
pub open spec fn count_execs(stmts: Seq<StmtView>) -> int
    decreases stmts.len(),
{
    if stmts.len() == 0 {
        0
    } else {
        (if is_exec_stmt(stmts[0]) {
            1int
        } else {
            0int
        }) + count_execs(stmts.drop_first())
    }
}

pub proof fn lemma_count_execs_append(a: Seq<StmtView>, b: Seq<StmtView>)
    ensures
        count_execs(a + b) == count_execs(a) + count_execs(b),
    decreases a.len(),
{
    if a.len() == 0 {
        assert(a + b =~= b);
    } else {
        assert((a + b).drop_first() =~= a.drop_first() + b);
        assert((a + b)[0] == a[0]);
        lemma_count_execs_append(a.drop_first(), b);
    }
}

pub proof fn lemma_step_index(stmts: Seq<StmtView>, next: int, last: Option<int>, checked: bool, i: int)
    requires
        1 <= i < stmts.len(),
    ensures
        ({
            let slots = spec_assign_slots(stmts, next, last, checked);
            let s = stmts[0];
            let tail = stmts.drop_first();
            if is_exec_stmt(s) {
                if fresh_needed(last, checked) {
                    slots[i] == spec_assign_slots(tail, next + 1, Some(next), false)[i - 1]
                } else {
                    slots[i] == spec_assign_slots(tail, next, last, false)[i - 1]
                }
            } else {
                match last {
                    Some(_) => slots[i] == spec_assign_slots(tail, next, last, true)[i - 1],
                    None => slots[i] == spec_assign_slots(tail, next, last, checked)[i - 1],
                }
            }
        }),
{
    let s = stmts[0];
    let tail = stmts.drop_first();
    if is_exec_stmt(s) {
        if fresh_needed(last, checked) {
            let rest = spec_assign_slots(tail, next + 1, Some(next), false);
            lemma_assign_slots_len(tail, next + 1, Some(next), false);
            assert(spec_assign_slots(stmts, next, last, checked) == seq![Some(next)] + rest);
            assert((seq![Some(next)] + rest)[i] == rest[i - 1]);
        } else {
            let rest = spec_assign_slots(tail, next, last, false);
            lemma_assign_slots_len(tail, next, last, false);
            assert(spec_assign_slots(stmts, next, last, checked) == seq![last] + rest);
            assert((seq![last] + rest)[i] == rest[i - 1]);
        }
    } else {
        match last {
            Some(l) => {
                let rest = spec_assign_slots(tail, next, last, true);
                lemma_assign_slots_len(tail, next, last, true);
                assert(spec_assign_slots(stmts, next, last, checked) == seq![Some(l)] + rest);
                assert((seq![Some(l)] + rest)[i] == rest[i - 1]);
            },
            None => {
                let rest = spec_assign_slots(tail, next, last, checked);
                lemma_assign_slots_len(tail, next, last, checked);
                let none_slot: Option<int> = None;
                assert(spec_assign_slots(stmts, next, last, checked) == seq![none_slot] + rest);
                assert((seq![none_slot] + rest)[i] == rest[i - 1]);
            },
        }
    }
}

/// Law: consecutive executable commands with no intervening check all share
/// one identifier. Stated for any protocol state, for any run `[a, b]` of
/// executable leaves.
pub proof fn lemma_exec_run_shares_id(
    stmts: Seq<StmtView>,
    next: int,
    last: Option<int>,
    checked: bool,
    a: int,
    b: int,
)
    requires
        0 <= a <= b < stmts.len(),
        forall|j: int| a <= j <= b ==> is_exec_stmt(#[trigger] stmts[j]),
    ensures
        spec_assign_slots(stmts, next, last, checked)[b] == spec_assign_slots(
            stmts,
            next,
            last,
            checked,
        )[a],
    decreases stmts.len(), b - a,
{
    let slots = spec_assign_slots(stmts, next, last, checked);
    let tail = stmts.drop_first();
    if a == 0 {
        if b == 0 {
        } else {
            // head is executable; whatever identifier it got becomes `last`,
            // unconsumed, so the next leaf of the run reuses it.
            assert(is_exec_stmt(stmts[0]));
            assert(forall|j: int| 0 <= j <= b - 1 ==> is_exec_stmt(#[trigger] tail[j]));
            if fresh_needed(last, checked) {
                lemma_exec_run_shares_id(tail, next + 1, Some(next), false, 0, b - 1);
                assert(tail[0] == stmts[1]);
                assert(spec_assign_slots(tail, next + 1, Some(next), false)[0] == Some(next));
                lemma_step_index(stmts, next, last, checked, b);
            } else {
                lemma_exec_run_shares_id(tail, next, last, false, 0, b - 1);
                assert(spec_assign_slots(tail, next, last, false)[0] == last);
                lemma_step_index(stmts, next, last, checked, b);
            }
        }
    } else {
        let s = stmts[0];
        assert(forall|j: int| a - 1 <= j <= b - 1 ==> is_exec_stmt(#[trigger] tail[j]));
        if is_exec_stmt(s) {
            if fresh_needed(last, checked) {
                lemma_exec_run_shares_id(tail, next + 1, Some(next), false, a - 1, b - 1);
            } else {
                lemma_exec_run_shares_id(tail, next, last, false, a - 1, b - 1);
            }
        } else {
            match last {
                Some(_) => lemma_exec_run_shares_id(tail, next, last, true, a - 1, b - 1),
                None => lemma_exec_run_shares_id(tail, next, last, checked, a - 1, b - 1),
            }
        }
        lemma_step_index(stmts, next, last, checked, a);
        lemma_step_index(stmts, next, last, checked, b);
    }
}

proof fn lemma_alt_assign(stmts: Seq<StmtView>, next: int, last: Option<int>, checked: bool)
    requires
        forall|i: int|
            0 <= i < stmts.len() && is_exec_stmt(#[trigger] stmts[i]) ==> i + 1 < stmts.len()
                && is_check_stmt(stmts[i + 1]),
        fresh_needed(last, checked),
    ensures
        forall|i: int|
            0 <= i < stmts.len() && is_exec_stmt(#[trigger] stmts[i]) ==> spec_assign_slots(
                stmts,
                next,
                last,
                checked,
            )[i] == Some(next + count_execs(stmts.take(i))),
    decreases stmts.len(),
{
    if stmts.len() == 0 {
        return ;
    }
    let slots = spec_assign_slots(stmts, next, last, checked);
    let s = stmts[0];
    let tail = stmts.drop_first();
    if is_exec_stmt(s) {
        // the command takes the fresh identifier `next`, and the check that
        // must follow it consumes that identifier before the next command.
        assert(is_check_stmt(stmts[1]));
        let tail2 = tail.drop_first();
        assert(slots[0] == Some(next));
        assert(count_execs(stmts.take(0)) == 0);
        let tslots = spec_assign_slots(tail, next + 1, Some(next), false);
        assert(tail[0] == stmts[1]);
        assert(!is_exec_stmt(tail[0]));
        assert(tslots == seq![Some(next)] + spec_assign_slots(tail2, next + 1, Some(next), true));
        assert forall|j: int|
            0 <= j < tail2.len() && is_exec_stmt(#[trigger] tail2[j]) implies j + 1 < tail2.len()
            && is_check_stmt(tail2[j + 1]) by {
            assert(tail2[j] == stmts[j + 2]);
            assert(stmts[j + 3] == tail2[j + 1]);
        }
        lemma_alt_assign(tail2, next + 1, Some(next), true);
        assert forall|i: int|
            0 <= i < stmts.len() && is_exec_stmt(#[trigger] stmts[i]) implies slots[i] == Some(
            next + count_execs(stmts.take(i)),
        ) by {
            if i == 0 {
            } else if i == 1 {
                assert(!is_exec_stmt(stmts[1]));
            } else {
                lemma_step_index(stmts, next, last, checked, i);
                lemma_step_index(tail, next + 1, Some(next), false, i - 1);
                assert(tail2[i - 2] == stmts[i]);
                assert(slots[i] == spec_assign_slots(tail2, next + 1, Some(next), true)[i - 2]);
                assert(spec_assign_slots(tail2, next + 1, Some(next), true)[i - 2] == Some(
                    next + 1 + count_execs(tail2.take(i - 2)),
                ));
                assert(stmts.take(i) =~= seq![stmts[0], stmts[1]] + tail2.take(i - 2));
                lemma_count_execs_append(seq![stmts[0], stmts[1]], tail2.take(i - 2));
                assert(count_execs(seq![stmts[0], stmts[1]]) == 1) by {
                    let p = seq![stmts[0], stmts[1]];
                    let q = seq![stmts[1]];
                    assert(p[0] == stmts[0]);
                    assert(q[0] == stmts[1]);
                    assert(p.drop_first() =~= q);
                    assert(q.drop_first() =~= Seq::<StmtView>::empty());
                    assert(count_execs(Seq::<StmtView>::empty()) == 0);
                    assert(count_execs(q) == 0);
                    assert(count_execs(p) == 1 + count_execs(q));
                }
            }
        }
    } else {
        let st_last = if last is Some {
            last
        } else {
            last
        };
        let new_checked = if last is Some {
            true
        } else {
            checked
        };
        assert forall|j: int|
            0 <= j < tail.len() && is_exec_stmt(#[trigger] tail[j]) implies j + 1 < tail.len()
            && is_check_stmt(tail[j + 1]) by {
            assert(tail[j] == stmts[j + 1]);
            assert(stmts[j + 2] == tail[j + 1]);
        }
        lemma_alt_assign(tail, next, last, new_checked);
        assert forall|i: int|
            0 <= i < stmts.len() && is_exec_stmt(#[trigger] stmts[i]) implies slots[i] == Some(
            next + count_execs(stmts.take(i)),
        ) by {
            assert(i >= 1);
            lemma_step_index(stmts, next, last, checked, i);
            assert(tail[i - 1] == stmts[i]);
            assert(slots[i] == spec_assign_slots(tail, next, last, new_checked)[i - 1]);
            assert(stmts.take(i) =~= seq![stmts[0]] + tail.take(i - 1));
            lemma_count_execs_append(seq![stmts[0]], tail.take(i - 1));
            assert(count_execs(seq![stmts[0]]) == 0) by {
                let q = seq![stmts[0]];
                assert(q[0] == stmts[0]);
                assert(q.drop_first() =~= Seq::<StmtView>::empty());
                assert(count_execs(Seq::<StmtView>::empty()) == 0);
                assert(count_execs(q) == 0 + count_execs(Seq::<StmtView>::empty()));
            }
        }
    }
}

/// Law: when every executable command is immediately followed by a check,
/// the protocol assigns the commands the identifiers 0, 1, 2, ... in
/// document order — one fresh, strictly increasing identifier per command.
pub proof fn lemma_alternating_commands_get_increasing_ids(stmts: Seq<StmtView>)
    requires
        forall|i: int|
            0 <= i < stmts.len() && is_exec_stmt(#[trigger] stmts[i]) ==> i + 1 < stmts.len()
                && is_check_stmt(stmts[i + 1]),
    ensures
        forall|i: int|
            0 <= i < stmts.len() && is_exec_stmt(#[trigger] stmts[i]) ==> assigned_slots(stmts)[i]
                == Some(count_execs(stmts.take(i))),
        forall|i: int, j: int|
            0 <= i < j < stmts.len() && is_exec_stmt(#[trigger] stmts[i]) && is_exec_stmt(
                #[trigger] stmts[j],
            ) ==> assigned_slots(stmts)[i]->Some_0 < assigned_slots(stmts)[j]->Some_0,
{
    lemma_alt_assign(stmts, 0, None, false);
    assert forall|i: int, j: int|
        0 <= i < j < stmts.len() && is_exec_stmt(#[trigger] stmts[i]) && is_exec_stmt(
            #[trigger] stmts[j],
        ) implies assigned_slots(stmts)[i]->Some_0 < assigned_slots(stmts)[j]->Some_0 by {
        assert(stmts.take(j) =~= stmts.take(i) + stmts.subrange(i, j));
        lemma_count_execs_append(stmts.take(i), stmts.subrange(i, j));
        assert(is_exec_stmt(stmts.subrange(i, j)[0]));
        assert(count_execs(stmts.subrange(i, j)) >= 1) by {
            lemma_count_execs_nonneg(stmts.subrange(i, j).drop_first());
        }
    }
}

pub proof fn lemma_count_execs_nonneg(stmts: Seq<StmtView>)
    ensures
        count_execs(stmts) >= 0,
    decreases stmts.len(),
{
    if stmts.len() > 0 {
        lemma_count_execs_nonneg(stmts.drop_first());
    }
}

/// Law: a check with no preceding executable command is left unassigned.
pub proof fn lemma_dangling_check_unassigned(stmts: Seq<StmtView>, i: int)
    requires
        0 <= i < stmts.len(),
        is_check_stmt(stmts[i]),
        forall|j: int| 0 <= j < i ==> !is_exec_stmt(#[trigger] stmts[j]),
    ensures
        assigned_slots(stmts)[i] is None,
{
    lemma_dangling_helper(stmts, 0, false, i);
}

proof fn lemma_dangling_helper(stmts: Seq<StmtView>, next: int, checked: bool, i: int)
    requires
        0 <= i < stmts.len(),
        is_check_stmt(stmts[i]),
        forall|j: int| 0 <= j < i ==> !is_exec_stmt(#[trigger] stmts[j]),
    ensures
        spec_assign_slots(stmts, next, None, checked)[i] is None,
    decreases stmts.len(),
{
    let tail = stmts.drop_first();
    if i == 0 {
        assert(!is_exec_stmt(stmts[0]));
    } else {
        assert(!is_exec_stmt(stmts[0]));
        assert(forall|j: int| 0 <= j < i - 1 ==> !is_exec_stmt(#[trigger] tail[j]));
        assert(tail[i - 1] == stmts[i]);
        lemma_dangling_helper(tail, next, checked, i - 1);
        lemma_step_index(stmts, next, None, checked, i);
    }
}

// ---------------------------------------------------------------------------
// Reading identifiers back out of marker lines
// ---------------------------------------------------------------------------

/// Parses the decimal identifier that follows the last `=` of a marker line.
pub fn extract_correlation_id(line: &str) -> (r: CorrelationId)
    requires
        last_index_c(line@, '=') >= 0,
        ({
            let t = line@.skip(last_index_c(line@, '=') + 1);
            t.len() > 0 && (forall|i: int| 0 <= i < t.len() ==> is_digit(t[i])) && digits_value(t)
                <= u32::MAX
        }),
    ensures
        r.0 as nat == digits_value(line@.skip(last_index_c(line@, '=') + 1)),
{
    let len = line.unicode_len();
    proof {
        lemma_last_index_c(line@, '=');
    }
    let eq = match rfind_char(line, '=') {
        Some(i) => i,
        None => 0,  // unreachable under the precondition
    };
    proof {
        assert(eq < len);
    }
    let id = match parse_u32_digits(line, eq + 1) {
        Some(v) => v,
        None => 0,  // unreachable under the precondition
    };
    CorrelationId(id)
}

} // verus!
