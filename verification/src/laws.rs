//! Laws tying the synthesizer and the partitioner together: over the null
//! backend, partitioning a synthesized script recovers, per correlation
//! identifier, exactly the command lines emitted for that identifier.

use vstd::prelude::*;
use vstd::map::*;
use crate::debugger::{
    spec_begin_marker, spec_cmd_section_lines, spec_end_marker, spec_marker_text,
    spec_maybe_marker_lines,
};
use crate::directive::{slot_of, StmtView};
use crate::kind::DebuggerKind;
use crate::outcome::{
    is_begin_marker_line, is_end_marker_line, spec_marker_id, spec_partition_from,
};
use crate::text::{
    dec_digits, digits_value, is_digit, last_index_c, lemma_dec_digits, plain_line,
};

verus! {

/// The command texts of the executable leaves whose slot is `Some(id)`, in
/// document order.
pub open spec fn exec_texts_with(stmts: Seq<StmtView>, id: int) -> Seq<Seq<char>>
    decreases stmts.len(),
{
    if stmts.len() == 0 {
        Seq::empty()
    } else {
        (if stmts[0] is Exec && slot_of(stmts[0]) == Some(id) {
            seq![stmts[0]->Exec_0]
        } else {
            Seq::empty()
        }) + exec_texts_with(stmts.drop_first(), id)
    }
}

proof fn lemma_exec_texts_empty(stmts: Seq<StmtView>, id: int)
    requires
        forall|i: int|
            0 <= i < stmts.len() && #[trigger] stmts[i] is Exec ==> slot_of(stmts[i]) != Some(id),
    ensures
        exec_texts_with(stmts, id) == Seq::<Seq<char>>::empty(),
    decreases stmts.len(),
{
    if stmts.len() > 0 {
        assert(forall|i: int|
            0 <= i < stmts.drop_first().len() && #[trigger] stmts.drop_first()[i] is Exec
                ==> stmts.drop_first()[i] == stmts[i + 1] && slot_of(stmts.drop_first()[i])
                != Some(id));
        lemma_exec_texts_empty(stmts.drop_first(), id);
        assert(exec_texts_with(stmts, id) =~= Seq::<Seq<char>>::empty());
    }
}

/// Position of the last `=` in a prefix-plus-digits marker line: the last
/// character of the prefix.
proof fn lemma_last_eq_pos(p: Seq<char>, d: Seq<char>)
    requires
        p.len() > 0,
        p.last() == '=',
        forall|j: int| 0 <= j < d.len() ==> #[trigger] d[j] != '=',
    ensures
        last_index_c(p + d, '=') == p.len() - 1,
    decreases d.len(),
{
    if d.len() == 0 {
        assert(p + d =~= p);
    } else {
        assert((p + d).last() == d.last());
        assert(d.last() != '=');
        assert((p + d).drop_last() =~= p + d.drop_last());
        assert(forall|j: int| 0 <= j < d.drop_last().len() ==> #[trigger] d.drop_last()[j] == d[j]);
        lemma_last_eq_pos(p, d.drop_last());
    }
}

/// Everything the rest of the proof needs of one marker line of the null
/// backend: it is recognized as exactly the boundary it marks, it parses
/// back to its identifier, and it survives the line round trip.
proof fn lemma_marker_line_facts(id: int)
    requires
        0 <= id <= u32::MAX,
    ensures
        ({
            let bl = spec_marker_text(true, id);
            let el = spec_marker_text(false, id);
            &&& is_begin_marker_line(bl)
            &&& !is_end_marker_line(bl)
            &&& !is_begin_marker_line(el)
            &&& is_end_marker_line(el)
            &&& spec_marker_id(bl) == Some(id)
            &&& plain_line(bl)
            &&& plain_line(el)
        }),
{
    reveal_strlit("__output_with_correlation_id_begin__=");
    reveal_strlit("__output_with_correlation_id_end__=");
    let b = spec_begin_marker();
    let e = spec_end_marker();
    let dd = dec_digits(id as nat);
    let bl = spec_marker_text(true, id);
    let el = spec_marker_text(false, id);
    lemma_dec_digits(id as nat);
    assert(b.len() == 37);
    assert(e.len() == 35);
    assert(dd.len() >= 1);
    assert(forall|j: int| 0 <= j < dd.len() ==> is_digit(#[trigger] dd[j]));
    assert(forall|j: int| 0 <= j < dd.len() ==> #[trigger] dd[j] != '=' && dd[j] != '\n' && dd[j]
        != '\r');

    // recognized boundaries
    assert(b =~= bl.subrange(0, b.len() as int));
    assert(is_begin_marker_line(bl));
    assert(e =~= el.subrange(0, e.len() as int));
    assert(is_end_marker_line(el));
    assert(b[29] == 'b');
    assert(e[29] == 'e');
    if is_end_marker_line(bl) {
        assert(e =~= bl.subrange(0, e.len() as int));
        assert(bl.subrange(0, e.len() as int)[29] == bl[29]);
        assert(bl[29] == b[29]);
        assert(false);
    }
    if is_begin_marker_line(el) {
        assert(b.len() <= el.len());
        assert(dd.len() >= 2);
        assert(b =~= el.subrange(0, b.len() as int));
        assert(el.subrange(0, b.len() as int)[29] == el[29]);
        assert(el[29] == e[29]);
        assert(false);
    }

    // the identifier parses back
    assert(b.last() == '=');
    lemma_last_eq_pos(b, dd);
    assert(last_index_c(bl, '=') == 36);
    assert(bl.skip(37) =~= dd);
    assert(digits_value(dd) == id as nat);
    assert(spec_marker_id(bl) == Some(id));

    // both lines are plain
    assert(forall|j: int| 0 <= j < b.len() ==> #[trigger] b[j] != '\n');
    assert(forall|j: int| 0 <= j < e.len() ==> #[trigger] e[j] != '\n');
    assert(forall|j: int| 0 <= j < bl.len() ==> #[trigger] bl[j] != '\n');
    assert(forall|j: int| 0 <= j < el.len() ==> #[trigger] el[j] != '\n');
    assert(bl.last() == dd.last());
    assert(el.last() == dd.last());
    assert(crate::text::strip_cr(bl) == bl);
    assert(crate::text::strip_cr(el) == el);
}

/// What partitioning the null backend's command stream must produce,
/// computed directly from the leaves: commands extend the open span, an
/// identifier change closes the open span into the map and opens a new one,
/// and the final close files the last open span.
pub open spec fn spec_cmd_partition(
    stmts: Seq<StmtView>,
    last: Option<int>,
    cur: Seq<Seq<char>>,
    acc: Map<int, Seq<Seq<char>>>,
) -> Map<int, Seq<Seq<char>>>
    decreases stmts.len(),
{
    if stmts.len() == 0 {
        match last {
            Some(l) => acc.insert(l, cur),
            None => acc,
        }
    } else {
        match stmts[0] {
            StmtView::Exec(t, cid) => {
                if cid == last {
                    spec_cmd_partition(stmts.drop_first(), last, cur.push(t), acc)
                } else {
                    spec_cmd_partition(
                        stmts.drop_first(),
                        cid,
                        seq![t],
                        match last {
                            Some(l) => acc.insert(l, cur),
                            None => acc,
                        },
                    )
                }
            },
            _ => spec_cmd_partition(stmts.drop_first(), last, cur, acc),
        }
    }
}

/// A leaf sequence whose executable commands can appear verbatim in a
/// partitionable script: every command has an identifier in range, and its
/// text is an ordinary line that cannot be mistaken for a marker.
pub open spec fn partitionable_cmds(stmts: Seq<StmtView>) -> bool {
    forall|i: int|
        0 <= i < stmts.len() && #[trigger] stmts[i] is Exec ==> slot_of(stmts[i]) is Some && 0
            <= slot_of(stmts[i])->Some_0 <= u32::MAX && plain_line(stmts[i]->Exec_0)
            && !is_begin_marker_line(stmts[i]->Exec_0) && !is_end_marker_line(stmts[i]->Exec_0)
}

/// Partitioning the command-stream lines of the null backend, from any
/// partition state, lands exactly on `spec_cmd_partition`.
proof fn lemma_cmd_mirror(
    stmts: Seq<StmtView>,
    last: Option<int>,
    cur: Seq<Seq<char>>,
    acc: Map<int, Seq<Seq<char>>>,
)
    requires
        partitionable_cmds(stmts),
        last is Some ==> 0 <= last->Some_0 <= u32::MAX,
    ensures
        spec_partition_from(spec_cmd_section_lines(DebuggerKind::Mock, stmts, last), last, cur, acc)
            == Some(spec_cmd_partition(stmts, last, cur, acc)),
    decreases stmts.len(),
{
    let kind = DebuggerKind::Mock;
    let lines = spec_cmd_section_lines(kind, stmts, last);
    if stmts.len() == 0 {
        match last {
            Some(l) => {
                lemma_marker_line_facts(l);
                let el = spec_marker_text(false, l);
                assert(lines == seq![el]);
                assert(lines[0] == el);
                assert(lines.drop_first() =~= Seq::<Seq<char>>::empty());
                assert(spec_partition_from(lines, last, cur, acc) == spec_partition_from(
                    lines.drop_first(),
                    None,
                    Seq::empty(),
                    acc.insert(l, cur),
                ));
            },
            None => {
                assert(lines.len() == 0);
            },
        }
    } else {
        let tail = stmts.drop_first();
        assert(partitionable_cmds(tail)) by {
            assert(forall|i: int|
                0 <= i < tail.len() ==> #[trigger] tail[i] == stmts[i + 1]);
        }
        match stmts[0] {
            StmtView::Exec(t, cid) => {
                assert(stmts[0] is Exec);
                let c = cid->Some_0;
                assert(cid == Some(c) && 0 <= c <= u32::MAX && plain_line(t)
                    && !is_begin_marker_line(t) && !is_end_marker_line(t));
                if cid == last {
                    let rest = spec_cmd_section_lines(kind, tail, last);
                    assert(lines == seq![t] + rest);
                    assert(lines[0] == t);
                    assert(lines.drop_first() =~= rest);
                    // the command line joins the open span
                    assert(spec_partition_from(lines, last, cur, acc) == spec_partition_from(
                        rest,
                        last,
                        cur.push(t),
                        acc,
                    ));
                    lemma_cmd_mirror(tail, last, cur.push(t), acc);
                } else {
                    let closing = spec_maybe_marker_lines(kind, false, last);
                    let opening = spec_maybe_marker_lines(kind, true, cid);
                    let rest = spec_cmd_section_lines(kind, tail, cid);
                    assert(lines == closing + opening + seq![t] + rest);
                    lemma_marker_line_facts(c);
                    let bl = spec_marker_text(true, c);
                    assert(opening == seq![bl]);
                    let acc2 = match last {
                        Some(l) => acc.insert(l, cur),
                        None => acc,
                    };
                    let after_close = opening + seq![t] + rest;
                    match last {
                        Some(l) => {
                            lemma_marker_line_facts(l);
                            let el = spec_marker_text(false, l);
                            assert(closing == seq![el]);
                            assert(lines[0] == el);
                            assert(lines.drop_first() =~= after_close);
                            assert(spec_partition_from(lines, last, cur, acc)
                                == spec_partition_from(after_close, None, Seq::empty(), acc2));
                        },
                        None => {
                            assert(closing.len() == 0);
                            assert(lines =~= after_close);
                            assert(cur == cur);
                            assert(spec_partition_from(lines, last, cur, acc)
                                == spec_partition_from(after_close, None, cur, acc2));
                        },
                    }
                    // the begin marker opens span `c`
                    assert(after_close[0] == bl);
                    assert(after_close.drop_first() =~= seq![t] + rest);
                    assert(spec_marker_id(bl) == Some(c));
                    assert(spec_partition_from(after_close, None, Seq::empty(), acc2)
                        == spec_partition_from(seq![t] + rest, Some(c), Seq::empty(), acc2));
                    assert(spec_partition_from(after_close, None, cur, acc2)
                        == spec_partition_from(seq![t] + rest, Some(c), Seq::empty(), acc2));
                    // the command line becomes the span's first line
                    assert((seq![t] + rest)[0] == t);
                    assert((seq![t] + rest).drop_first() =~= rest);
                    assert(spec_partition_from(seq![t] + rest, Some(c), Seq::empty(), acc2)
                        == spec_partition_from(rest, Some(c), Seq::empty().push(t), acc2));
                    assert(Seq::<Seq<char>>::empty().push(t) =~= seq![t]);
                    lemma_cmd_mirror(tail, cid, seq![t], acc2);
                }
            },
            _ => {
                assert(lines == spec_cmd_section_lines(kind, tail, last));
                lemma_cmd_mirror(tail, last, cur, acc);
            },
        }
    }
}

/// What `spec_cmd_partition` holds once the identifiers are monotone: the
/// open span collects its remaining commands, every other identifier maps
/// to exactly its commands, and nothing else appears.
#[verifier::rlimit(100)]
#[verifier::spinoff_prover]
proof fn lemma_cmd_partition_props(
    stmts: Seq<StmtView>,
    last: Option<int>,
    cur: Seq<Seq<char>>,
    acc: Map<int, Seq<Seq<char>>>,
)
    requires
        forall|i: int| 0 <= i < stmts.len() && #[trigger] stmts[i] is Exec ==> slot_of(stmts[i])
            is Some,
        forall|i: int, j: int|
            0 <= i < j < stmts.len() && #[trigger] stmts[i] is Exec && #[trigger] stmts[j] is Exec
                ==> slot_of(stmts[i])->Some_0 <= slot_of(stmts[j])->Some_0,
        last is Some ==> forall|i: int|
            0 <= i < stmts.len() && #[trigger] stmts[i] is Exec ==> slot_of(stmts[i])->Some_0
                >= last->Some_0,
        last is Some ==> !acc.dom().contains(last->Some_0),
        forall|i: int| 0 <= i < stmts.len() && #[trigger] stmts[i] is Exec ==> !acc.dom().contains(
            slot_of(stmts[i])->Some_0,
        ),
    ensures
        forall|id: int|
            #[trigger] acc.dom().contains(id) ==> spec_cmd_partition(
                stmts,
                last,
                cur,
                acc,
            ).dom().contains(id) && spec_cmd_partition(stmts, last, cur, acc)[id] == acc[id],
        last is Some ==> spec_cmd_partition(stmts, last, cur, acc).dom().contains(last->Some_0)
            && spec_cmd_partition(stmts, last, cur, acc)[last->Some_0] == cur + exec_texts_with(
            stmts,
            last->Some_0,
        ),
        forall|i: int|
            0 <= i < stmts.len() && #[trigger] stmts[i] is Exec && last != slot_of(stmts[i])
                ==> spec_cmd_partition(stmts, last, cur, acc).dom().contains(
                slot_of(stmts[i])->Some_0,
            ) && spec_cmd_partition(stmts, last, cur, acc)[slot_of(stmts[i])->Some_0]
                == exec_texts_with(stmts, slot_of(stmts[i])->Some_0),
        forall|id: int|
            #[trigger] spec_cmd_partition(stmts, last, cur, acc).dom().contains(id)
                ==> acc.dom().contains(id) || last == Some(id) || exists|i: int|
                0 <= i < stmts.len() && #[trigger] stmts[i] is Exec && slot_of(stmts[i]) == Some(
                    id,
                ),
    decreases stmts.len(),
{
    let m = spec_cmd_partition(stmts, last, cur, acc);
    if stmts.len() == 0 {
        match last {
            Some(l) => {
                assert(m == acc.insert(l, cur));
                assert(exec_texts_with(stmts, l) =~= Seq::<Seq<char>>::empty());
                assert(m[l] =~= cur + exec_texts_with(stmts, l));
                assert forall|id: int| #[trigger] acc.dom().contains(id) implies m.dom().contains(id)
                    && m[id] == acc[id] by {
                    assert(id != l);
                }
            },
            None => {},
        }
    } else {
        let tail = stmts.drop_first();
        assert(forall|i: int| 0 <= i < tail.len() ==> #[trigger] tail[i] == stmts[i + 1]);
        match stmts[0] {
            StmtView::Exec(t, cid) => {
                assert(stmts[0] is Exec);
                assert(slot_of(stmts[0]) is Some);
                assert(cid is Some);
                let c = cid->Some_0;
                if cid == last {
                    let l = last->Some_0;
                    lemma_cmd_partition_props(tail, last, cur.push(t), acc);
                    let m2 = spec_cmd_partition(tail, last, cur.push(t), acc);
                    assert(m == m2);
                    assert forall|id: int| #[trigger] acc.dom().contains(id) implies m.dom().contains(id)
                        && m[id] == acc[id] by {
                        assert(m2.dom().contains(id) && m2[id] == acc[id]);
                    }
                    assert(m[l] == cur.push(t) + exec_texts_with(tail, l));
                    assert(exec_texts_with(stmts, l) == seq![t] + exec_texts_with(tail, l));
                    assert(cur.push(t) + exec_texts_with(tail, l) =~= cur + (seq![t]
                        + exec_texts_with(tail, l)));
                    assert forall|i: int|
                        0 <= i < stmts.len() && #[trigger] stmts[i] is Exec && last != slot_of(
                            stmts[i],
                        ) implies m.dom().contains(slot_of(stmts[i])->Some_0) && m[slot_of(
                        stmts[i],
                    )->Some_0] == exec_texts_with(stmts, slot_of(stmts[i])->Some_0) by {
                        let s = slot_of(stmts[i])->Some_0;
                        assert(i >= 1);
                        assert(tail[i - 1] == stmts[i]);
                        assert(exec_texts_with(stmts, s) =~= exec_texts_with(tail, s));
                    }
                    assert forall|id: int| m.dom().contains(id) implies acc.dom().contains(id)
                        || last == Some(id) || exists|i: int|
                        0 <= i < stmts.len() && #[trigger] stmts[i] is Exec && slot_of(stmts[i])
                            == Some(id) by {
                        if !acc.dom().contains(id) && last != Some(id) {
                            let w = choose|i: int|
                                0 <= i < tail.len() && #[trigger] tail[i] is Exec && slot_of(
                                    tail[i],
                                ) == Some(id);
                            assert(stmts[w + 1] is Exec && slot_of(stmts[w + 1]) == Some(id));
                        }
                    }
                } else {
                    // identifier changes: span for `last` is closed, a new
                    // span for `c` opens with this command as its first line
                    let acc2 = match last {
                        Some(l) => acc.insert(l, cur),
                        None => acc,
                    };
                    assert(stmts[0] is Exec);
                    assert(cid is Some);
                    if last is Some {
                        let l = last->Some_0;
                        assert(c >= l);
                        assert(c != l);
                    }
                    assert(forall|i: int|
                        0 <= i < tail.len() && #[trigger] tail[i] is Exec ==> slot_of(
                            tail[i],
                        )->Some_0 >= c);
                    assert(forall|i: int|
                        0 <= i < tail.len() && #[trigger] tail[i] is Exec ==> !acc2.dom().contains(
                            slot_of(tail[i])->Some_0,
                        ));
                    assert(!acc2.dom().contains(c));
                    lemma_cmd_partition_props(tail, cid, seq![t], acc2);
                    let m2 = spec_cmd_partition(tail, cid, seq![t], acc2);
                    assert(m == m2);
                    // the new span holds this command then the rest
                    assert(m[c] == seq![t] + exec_texts_with(tail, c));
                    assert(exec_texts_with(stmts, c) =~= seq![t] + exec_texts_with(tail, c));
                    // the closed span keeps what it had
                    if last is Some {
                        let l = last->Some_0;
                        assert(acc2.dom().contains(l));
                        assert(acc2[l] == cur);
                        assert(m.dom().contains(l) && m[l] == acc2[l]);
                        lemma_exec_texts_empty(tail, l);
                        assert(exec_texts_with(stmts, l) =~= Seq::<Seq<char>>::empty());
                        assert(m[l] =~= cur + exec_texts_with(stmts, l));
                    }
                    assert forall|i: int|
                        0 <= i < stmts.len() && #[trigger] stmts[i] is Exec && last != slot_of(
                            stmts[i],
                        ) implies m.dom().contains(slot_of(stmts[i])->Some_0) && m[slot_of(
                        stmts[i],
                    )->Some_0] == exec_texts_with(stmts, slot_of(stmts[i])->Some_0) by {
                        let s = slot_of(stmts[i])->Some_0;
                        if i == 0 {
                        } else {
                            assert(tail[i - 1] == stmts[i]);
                            if s == c {
                            } else {
                                assert(s > c);
                                assert(exec_texts_with(stmts, s) =~= exec_texts_with(tail, s));
                            }
                        }
                    }
                    assert forall|id: int| m.dom().contains(id) implies acc.dom().contains(id)
                        || last == Some(id) || exists|i: int|
                        0 <= i < stmts.len() && #[trigger] stmts[i] is Exec && slot_of(stmts[i])
                            == Some(id) by {
                        if !acc.dom().contains(id) && last != Some(id) {
                            if id == c {
                                assert(stmts[0] is Exec && slot_of(stmts[0]) == Some(id));
                            } else {
                                assert(!acc2.dom().contains(id));
                                let w = choose|i: int|
                                    0 <= i < tail.len() && #[trigger] tail[i] is Exec && slot_of(
                                        tail[i],
                                    ) == Some(id);
                                assert(stmts[w + 1] is Exec && slot_of(stmts[w + 1]) == Some(id));
                            }
                        }
                    }
                    assert forall|id: int| #[trigger] acc.dom().contains(id) implies m.dom().contains(id)
                        && m[id] == acc[id] by {
                        assert(acc2.dom().contains(id));
                        assert(acc2[id] == acc[id]);
                    }
                }
            },
            _ => {
                lemma_cmd_partition_props(tail, last, cur, acc);
                let m2 = spec_cmd_partition(tail, last, cur, acc);
                assert(m == m2);
                assert forall|id: int| #[trigger] acc.dom().contains(id) implies m.dom().contains(id)
                    && m[id] == acc[id] by {
                    assert(m2.dom().contains(id) && m2[id] == acc[id]);
                }
                if last is Some {
                    let l = last->Some_0;
                    assert(exec_texts_with(stmts, l) =~= exec_texts_with(tail, l));
                }
                assert forall|i: int|
                    0 <= i < stmts.len() && #[trigger] stmts[i] is Exec && last != slot_of(
                        stmts[i],
                    ) implies m.dom().contains(slot_of(stmts[i])->Some_0) && m[slot_of(
                    stmts[i],
                )->Some_0] == exec_texts_with(stmts, slot_of(stmts[i])->Some_0) by {
                    let s = slot_of(stmts[i])->Some_0;
                    assert(i >= 1);
                    assert(tail[i - 1] == stmts[i]);
                    assert(exec_texts_with(stmts, s) =~= exec_texts_with(tail, s));
                }
                assert forall|id: int| m.dom().contains(id) implies acc.dom().contains(id) || last
                    == Some(id) || exists|i: int|
                    0 <= i < stmts.len() && #[trigger] stmts[i] is Exec && slot_of(stmts[i])
                        == Some(id) by {
                    if !acc.dom().contains(id) && last != Some(id) {
                        let w = choose|i: int|
                            0 <= i < tail.len() && #[trigger] tail[i] is Exec && slot_of(tail[i])
                                == Some(id);
                        assert(stmts[w + 1] is Exec && slot_of(stmts[w + 1]) == Some(id));
                    }
                }
            },
        }
    }
}

/// The identifiers the protocol hands to executable commands are defined,
/// bounded, and nondecreasing in document order.
proof fn lemma_assign_monotone(stmts: Seq<StmtView>, next: int, last: Option<int>, checked: bool)
    requires
        next >= 0,
        last is Some ==> 0 <= last->Some_0 < next,
    ensures
        ({
            let slots = crate::directive::spec_assign_slots(stmts, next, last, checked);
            &&& forall|i: int|
                0 <= i < stmts.len() && #[trigger] stmts[i] is Exec ==> slots[i] is Some && 0
                    <= slots[i]->Some_0 < next + stmts.len()
            &&& (last is Some ==> forall|i: int|
                0 <= i < stmts.len() && #[trigger] stmts[i] is Exec ==> slots[i]->Some_0
                    >= last->Some_0)
            &&& forall|i: int, j: int|
                0 <= i < j < stmts.len() && #[trigger] stmts[i] is Exec && #[trigger] stmts[j]
                    is Exec ==> slots[i]->Some_0 <= slots[j]->Some_0
        }),
    decreases stmts.len(),
{
    if stmts.len() == 0 {
        return ;
    }
    let slots = crate::directive::spec_assign_slots(stmts, next, last, checked);
    let tail = stmts.drop_first();
    assert(forall|i: int| 0 <= i < tail.len() ==> #[trigger] tail[i] == stmts[i + 1]);
    let s = stmts[0];
    let head_exec = crate::directive::is_exec_stmt(s);
    let fresh = crate::directive::fresh_needed(last, checked);
    // the state the protocol continues with after the head leaf
    let n2: int = if head_exec && fresh {
        next + 1
    } else {
        next
    };
    let l2: Option<int> = if head_exec && fresh {
        Some(next)
    } else {
        last
    };
    let c2: bool = if head_exec {
        false
    } else if last is Some {
        true
    } else {
        checked
    };
    lemma_assign_monotone(tail, n2, l2, c2);
    let ts = crate::directive::spec_assign_slots(tail, n2, l2, c2);
    assert forall|i: int| 1 <= i < stmts.len() implies slots[i] == ts[i - 1] by {
        crate::directive::lemma_step_index(stmts, next, last, checked, i);
    }
    if head_exec {
        if fresh {
            assert(slots[0] == Some(next));
        } else {
            assert(slots[0] == last);
        }
    }
    assert forall|i: int|
        0 <= i < stmts.len() && #[trigger] stmts[i] is Exec implies slots[i] is Some
        && 0 <= slots[i]->Some_0 && slots[i]->Some_0 < next + stmts.len() by {
        if i >= 1 {
            assert(tail[i - 1] == stmts[i]);
            assert(slots[i] == ts[i - 1]);
        }
    }
    if last is Some {
        assert forall|i: int|
            0 <= i < stmts.len() && #[trigger] stmts[i] is Exec implies slots[i]->Some_0
            >= last->Some_0 by {
            if i >= 1 {
                assert(tail[i - 1] == stmts[i]);
                assert(slots[i] == ts[i - 1]);
                assert(l2 is Some && l2->Some_0 >= last->Some_0);
            }
        }
    }
    assert forall|i: int, j: int|
        0 <= i < j < stmts.len() && #[trigger] stmts[i] is Exec && #[trigger] stmts[j]
            is Exec implies slots[i]->Some_0 <= slots[j]->Some_0 by {
        assert(tail[j - 1] == stmts[j]);
        assert(slots[j] == ts[j - 1]);
        if i == 0 {
            assert(l2 is Some);
            assert(ts[j - 1]->Some_0 >= l2->Some_0);
        } else {
            assert(tail[i - 1] == stmts[i]);
            assert(slots[i] == ts[i - 1]);
        }
    }
}

/// Law: partitioning is the exact inverse of synthesis. For any test the
/// null backend synthesizes a script for, partitioning that same text
/// recovers, per correlation identifier, exactly the command lines that
/// were emitted for that identifier — and yields spans for no other
/// identifier. Holds for commands and prelude lines that are single lines
/// and do not themselves begin with a span marker.
pub proof fn lemma_partition_inverts_synthesis(
    prelude: Seq<Seq<char>>,
    name: Seq<char>,
    bps: Seq<crate::debugger::BreakPoint>,
    stmts: Seq<StmtView>,
)
    requires
        forall|k: int|
            0 <= k < prelude.len() ==> plain_line(#[trigger] prelude[k]) && !is_begin_marker_line(
                prelude[k],
            ) && !is_end_marker_line(prelude[k]),
        forall|j: int| 0 <= j < name.len() ==> #[trigger] name[j] != '\n',
        stmts.len() <= u32::MAX,
        forall|i: int|
            0 <= i < stmts.len() && #[trigger] stmts[i] is Exec ==> plain_line(stmts[i]->Exec_0)
                && !is_begin_marker_line(stmts[i]->Exec_0) && !is_end_marker_line(
                stmts[i]->Exec_0,
            ),
    ensures
        ({
            let av = crate::debugger::spec_with_assigned(stmts);
            let p = crate::outcome::spec_partition(
                crate::text::join_lines(
                    crate::debugger::spec_script_lines(
                        DebuggerKind::Mock,
                        prelude,
                        name,
                        bps,
                        stmts,
                    ),
                ),
            );
            &&& p is Some
            &&& forall|i: int|
                0 <= i < av.len() && #[trigger] av[i] is Exec ==> p->Some_0.dom().contains(
                    slot_of(av[i])->Some_0,
                ) && p->Some_0[slot_of(av[i])->Some_0] == exec_texts_with(
                    av,
                    slot_of(av[i])->Some_0,
                )
            &&& forall|id: int|
                #[trigger] p->Some_0.dom().contains(id) ==> exists|i: int|
                    0 <= i < av.len() && #[trigger] av[i] is Exec && slot_of(av[i]) == Some(id)
        }),
{
    let av = crate::debugger::spec_with_assigned(stmts);
    let slots = crate::directive::assigned_slots(stmts);
    crate::directive::lemma_assign_slots_len(stmts, 0, None, false);
    lemma_assign_monotone(stmts, 0, None, false);
    assert(av.len() == stmts.len());
    assert(forall|i: int|
        0 <= i < av.len() ==> #[trigger] av[i] == crate::directive::with_slot(
            stmts[i],
            slots[i],
        ));
    assert forall|i: int| 0 <= i < av.len() implies (av[i] is Exec <==> stmts[i] is Exec) && (av[i]
        is Exec ==> slot_of(av[i]) == slots[i] && av[i]->Exec_0 == stmts[i]->Exec_0) by {
        assert(av[i] == crate::directive::with_slot(stmts[i], slots[i]));
    }
    assert(partitionable_cmds(av));
    assert forall|i: int, j: int|
        0 <= i < j < av.len() && #[trigger] av[i] is Exec && #[trigger] av[j]
            is Exec implies slot_of(av[i])->Some_0 <= slot_of(av[j])->Some_0 by {
        assert(stmts[i] is Exec && stmts[j] is Exec);
    }

    let base = crate::debugger::spec_base_name(name);
    let bv = crate::debugger::spec_bp_lines(DebuggerKind::Mock, base, bps);
    let cmd = spec_cmd_section_lines(DebuggerKind::Mock, av, None);
    let lines = crate::debugger::spec_script_lines(DebuggerKind::Mock, prelude, name, bps, stmts);
    assert(crate::debugger::spec_prelude_head_lines(DebuggerKind::Mock).len() == 0);
    assert(lines =~= (prelude + bv) + cmd);

    // breakpoint commands are single unmarked lines
    reveal_strlit("bp `");
    reveal_strlit(":");
    reveal_strlit("`");
    reveal_strlit("__output_with_correlation_id_begin__=");
    reveal_strlit("__output_with_correlation_id_end__=");
    assert forall|k: int| 0 <= k < bv.len() implies plain_line(#[trigger] bv[k])
        && !is_begin_marker_line(bv[k]) && !is_end_marker_line(bv[k]) by {
        let li = bps[k].line_index as int;
        let dd = dec_digits((li + 1) as nat);
        lemma_dec_digits((li + 1) as nat);
        let line = crate::debugger::spec_bp_line(DebuggerKind::Mock, base, li);
        assert(bv[k] == line);
        assert(line =~= "bp `"@ + base + ":"@ + dd + "`"@);
        crate::text::lemma_last_index_c(name, '/');
        let off = last_index_c(name, '/') + 1;
        assert(0 <= off <= name.len());
        assert forall|j: int| 0 <= j < base.len() implies #[trigger] base[j] != '\n' by {
            assert(base[j] == name[j + off]);
        }
        assert(forall|j: int| 0 <= j < dd.len() ==> is_digit(#[trigger] dd[j]) && dd[j] != '\n');
        assert(forall|j: int| 0 <= j < line.len() ==> #[trigger] line[j] != '\n');
        assert(line.last() == '`');
        assert(crate::text::strip_cr(line) == line);
        assert(line[0] == 'b');
        assert(spec_begin_marker()[0] == '_');
        assert(spec_end_marker()[0] == '_');
        if is_begin_marker_line(line) {
            assert(line.subrange(0, spec_begin_marker().len() as int)[0] == line[0]);
            assert(false);
        }
        if is_end_marker_line(line) {
            assert(line.subrange(0, spec_end_marker().len() as int)[0] == line[0]);
            assert(false);
        }
    }

    // every synthesized line survives the split into lines
    lemma_cmd_lines_plain(av, None);
    assert forall|k: int| 0 <= k < lines.len() implies plain_line(#[trigger] lines[k]) by {
        if k < prelude.len() {
            assert(lines[k] == prelude[k]);
        } else if k < prelude.len() + bv.len() {
            assert(lines[k] == bv[k - prelude.len()]);
        } else {
            assert(lines[k] == cmd[k - prelude.len() - bv.len()]);
        }
    }
    crate::text::lemma_lines_roundtrip(lines);

    // prelude and breakpoint lines stand outside any span and are discarded
    assert forall|k: int|
        0 <= k < (prelude + bv).len() implies !is_begin_marker_line(#[trigger] (prelude + bv)[k])
        && !is_end_marker_line((prelude + bv)[k]) by {
        if k < prelude.len() {
            assert((prelude + bv)[k] == prelude[k]);
        } else {
            assert((prelude + bv)[k] == bv[k - prelude.len()]);
        }
    }
    lemma_partition_skip_content(
        prelude + bv,
        cmd,
        Seq::empty(),
        Map::<int, Seq<Seq<char>>>::empty(),
    );

    // the command stream partitions to exactly its per-identifier commands
    lemma_cmd_mirror(av, None, Seq::empty(), Map::<int, Seq<Seq<char>>>::empty());
    lemma_cmd_partition_props(av, None, Seq::empty(), Map::<int, Seq<Seq<char>>>::empty());

    let text = crate::text::join_lines(lines);
    assert(crate::text::spec_lines(text) == lines);
    assert(crate::outcome::spec_partition(text) == spec_partition_from(
        lines,
        None,
        Seq::empty(),
        Map::<int, Seq<Seq<char>>>::empty(),
    ));
    assert(spec_partition_from(lines, None, Seq::empty(), Map::<int, Seq<Seq<char>>>::empty())
        == spec_partition_from(cmd, None, Seq::empty(), Map::<int, Seq<Seq<char>>>::empty()));
    let m = spec_cmd_partition(av, None, Seq::empty(), Map::<int, Seq<Seq<char>>>::empty());
    assert(crate::outcome::spec_partition(text) == Some(m));
    assert forall|i: int| 0 <= i < av.len() && #[trigger] av[i] is Exec implies m.dom().contains(
        slot_of(av[i])->Some_0,
    ) && m[slot_of(av[i])->Some_0] == exec_texts_with(av, slot_of(av[i])->Some_0) by {
        assert(Some(slot_of(av[i])->Some_0) != None::<int>);
    }
}

/// Lines that carry no span marker, scanned with no span open, are
/// discarded without touching the partition state.
proof fn lemma_partition_skip_content(
    a: Seq<Seq<char>>,
    b: Seq<Seq<char>>,
    cur: Seq<Seq<char>>,
    acc: Map<int, Seq<Seq<char>>>,
)
    requires
        forall|k: int|
            0 <= k < a.len() ==> !is_begin_marker_line(#[trigger] a[k]) && !is_end_marker_line(
                a[k],
            ),
    ensures
        spec_partition_from(a + b, None, cur, acc) == spec_partition_from(b, None, cur, acc),
    decreases a.len(),
{
    if a.len() == 0 {
        assert(a + b =~= b);
    } else {
        assert((a + b)[0] == a[0]);
        assert((a + b).drop_first() =~= a.drop_first() + b);
        assert(forall|k: int|
            0 <= k < a.drop_first().len() ==> #[trigger] a.drop_first()[k] == a[k + 1]);
        lemma_partition_skip_content(a.drop_first(), b, cur, acc);
    }
}

/// Every line of the null backend's command stream is plain: markers by
/// construction, commands by assumption.
proof fn lemma_cmd_lines_plain(stmts: Seq<StmtView>, last: Option<int>)
    requires
        partitionable_cmds(stmts),
        last is Some ==> 0 <= last->Some_0 <= u32::MAX,
    ensures
        forall|k: int|
            0 <= k < spec_cmd_section_lines(DebuggerKind::Mock, stmts, last).len() ==> plain_line(
                #[trigger] spec_cmd_section_lines(DebuggerKind::Mock, stmts, last)[k],
            ),
    decreases stmts.len(),
{
    let kind = DebuggerKind::Mock;
    let lines = spec_cmd_section_lines(kind, stmts, last);
    if stmts.len() == 0 {
        match last {
            Some(l) => {
                lemma_marker_line_facts(l);
                assert(lines == seq![spec_marker_text(false, l)]);
            },
            None => {},
        }
    } else {
        let tail = stmts.drop_first();
        assert(partitionable_cmds(tail)) by {
            assert(forall|i: int| 0 <= i < tail.len() ==> #[trigger] tail[i] == stmts[i + 1]);
        }
        match stmts[0] {
            StmtView::Exec(t, cid) => {
                let c = cid->Some_0;
                lemma_marker_line_facts(c);
                if cid == last {
                    let rest = spec_cmd_section_lines(kind, tail, last);
                    lemma_cmd_lines_plain(tail, last);
                    assert(lines == seq![t] + rest);
                    assert forall|k: int| 0 <= k < lines.len() implies plain_line(
                        #[trigger] lines[k],
                    ) by {
                        if k == 0 {
                            assert(lines[k] == t);
                        } else {
                            assert(lines[k] == rest[k - 1]);
                        }
                    }
                } else {
                    let closing = spec_maybe_marker_lines(kind, false, last);
                    let opening = spec_maybe_marker_lines(kind, true, cid);
                    let rest = spec_cmd_section_lines(kind, tail, cid);
                    lemma_cmd_lines_plain(tail, cid);
                    if last is Some {
                        lemma_marker_line_facts(last->Some_0);
                    }
                    assert(lines == closing + opening + seq![t] + rest);
                    assert forall|k: int| 0 <= k < lines.len() implies plain_line(
                        #[trigger] lines[k],
                    ) by {
                        let cl = closing.len() as int;
                        if k < cl {
                            assert(lines[k] == closing[0]);
                        } else if k < cl + 1 {
                            assert(lines[k] == opening[0]);
                            assert(opening[0] == spec_marker_text(true, c));
                        } else if k < cl + 2 {
                            assert(lines[k] == t);
                        } else {
                            assert(lines[k] == rest[k - cl - 2]);
                        }
                    }
                }
            },
            _ => {
                lemma_cmd_lines_plain(tail, last);
                assert(lines == spec_cmd_section_lines(kind, tail, last));
            },
        }
    }
}

} // verus!
