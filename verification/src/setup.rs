//! Parsing the debugger-prelude configuration.
//!
//! Setup hands the engine a list of `<backend-kind>:<command>` strings; each
//! well-formed entry contributes one prelude command for one backend, and a
//! malformed entry is rejected and reported, never fatal.

use vstd::prelude::*;
use crate::kind::DebuggerKind;
use crate::text::{first_index_c, str_views, trim_str, trim_ws};
use vstd::string::StrSliceExecFns;
use vstd::string::StringExecFns;

verus! {

/// The backend kind a configuration name denotes, after trimming.
pub open spec fn spec_kind_from_name(n: Seq<char>) -> Option<DebuggerKind> {
    if n == "gdb"@ {
        Some(DebuggerKind::Gdb)
    } else if n == "cdb"@ {
        Some(DebuggerKind::Cdb)
    } else if n == "lldb"@ {
        Some(DebuggerKind::Lldb)
    } else if n == "mock"@ {
        Some(DebuggerKind::Mock)
    } else {
        None
    }
}

/// Parses a backend name as it appears in configuration, ignoring
/// surrounding whitespace; `None` for an unknown name.
pub fn kind_from_name(value: &str) -> (r: Option<DebuggerKind>)
    ensures
        r == spec_kind_from_name(trim_ws(value@)),
{
    let trimmed = trim_str(value);
    if trimmed == "gdb".to_owned() {
        Some(DebuggerKind::Gdb)
    } else if trimmed == "cdb".to_owned() {
        Some(DebuggerKind::Cdb)
    } else if trimmed == "lldb".to_owned() {
        Some(DebuggerKind::Lldb)
    } else if trimmed == "mock".to_owned() {
        Some(DebuggerKind::Mock)
    } else {
        None
    }
}

/// What one prelude entry contributes: the backend kind before the first
/// `:` and the trimmed command after it, or `None` for an entry with no `:`
/// or an unknown backend name.
pub open spec fn spec_prelude_entry(e: Seq<char>) -> Option<(DebuggerKind, Seq<char>)> {
    let ci = first_index_c(e, ':');
    if ci < 0 {
        None
    } else {
        match spec_kind_from_name(trim_ws(e.take(ci))) {
            Some(k) => Some((k, trim_ws(e.skip(ci + 1)))),
            None => None,
        }
    }
}

pub open spec fn pairs_view(v: Seq<(DebuggerKind, String)>) -> Seq<(DebuggerKind, Seq<char>)> {
    v.map_values(|p: (DebuggerKind, String)| (p.0, p.1@))
}

/// The well-formed entries' contributions, in order.
pub open spec fn spec_scan_pairs(entries: Seq<Seq<char>>) -> Seq<(DebuggerKind, Seq<char>)>
    decreases entries.len(),
{
    if entries.len() == 0 {
        Seq::empty()
    } else {
        let pre = spec_scan_pairs(entries.drop_last());
        match spec_prelude_entry(entries.last()) {
            Some(p) => pre.push(p),
            None => pre,
        }
    }
}

/// The malformed entries, in order, for warning reports.
pub open spec fn spec_scan_rejects(entries: Seq<Seq<char>>) -> Seq<Seq<char>>
    decreases entries.len(),
{
    if entries.len() == 0 {
        Seq::empty()
    } else {
        let pre = spec_scan_rejects(entries.drop_last());
        match spec_prelude_entry(entries.last()) {
            Some(_) => pre,
            None => pre.push(entries.last()),
        }
    }
}

/// Scans the configured prelude entries: each `<kind>:<command>` entry
/// yields one (kind, trimmed command) pair, and every entry that does not
/// parse is returned as a rejected entry to be reported, never fatal.
pub fn scan_preludes(preludes: &Vec<String>) -> (r: (Vec<(DebuggerKind, String)>, Vec<String>))
    ensures
        pairs_view(r.0@) == spec_scan_pairs(str_views(preludes@)),
        str_views(r.1@) == spec_scan_rejects(str_views(preludes@)),
{
    let ghost ev = str_views(preludes@);
    let mut pairs: Vec<(DebuggerKind, String)> = Vec::new();
    let mut rejects: Vec<String> = Vec::new();
    let mut i: usize = 0;
    proof {
        assert(ev.take(0) =~= Seq::<Seq<char>>::empty());
        assert(pairs_view(pairs@) =~= Seq::<(DebuggerKind, Seq<char>)>::empty());
        assert(str_views(rejects@) =~= Seq::<Seq<char>>::empty());
    }
    while i < preludes.len()
        invariant
            i <= preludes@.len(),
            ev == str_views(preludes@),
            ev.len() == preludes@.len(),
            pairs_view(pairs@) == spec_scan_pairs(ev.take(i as int)),
            str_views(rejects@) == spec_scan_rejects(ev.take(i as int)),
        decreases preludes@.len() - i,
    {
        proof {
            assert(ev.take(i + 1).drop_last() =~= ev.take(i as int));
            assert(ev.take(i + 1).last() == ev[i as int]);
            assert(ev[i as int] == preludes@[i as int]@);
        }
        let ghost old_pairs = pairs@;
        let ghost old_rejects = rejects@;
        let entry = &preludes[i];
        let len = entry.unicode_len();
        let mut parsed = false;
        match crate::text::find_char(entry.as_str(), ':') {
            Some(ci) => {
                proof {
                    crate::text::lemma_first_index_c(entry@, ':');
                }
                let name_part = entry.as_str().substring_char(0, ci);
                proof {
                    assert(name_part@ =~= entry@.take(ci as int));
                }
                match kind_from_name(name_part) {
                    Some(kind) => {
                        let command_part = entry.as_str().substring_char(ci + 1, len);
                        proof {
                            assert(command_part@ =~= entry@.skip(ci + 1));
                        }
                        let command = trim_str(command_part);
                        pairs.push((kind, command));
                        parsed = true;
                        proof {
                            assert(pairs_view(pairs@) =~= pairs_view(old_pairs).push(
                                (kind, trim_ws(entry@.skip(ci + 1))),
                            ));
                        }
                    },
                    None => {},
                }
            },
            None => {},
        }
        if !parsed {
            rejects.push(entry.clone());
            proof {
                assert(str_views(rejects@) =~= str_views(old_rejects).push(ev[i as int]));
            }
        }
        i += 1;
    }
    proof {
        assert(ev.take(ev.len() as int) =~= ev);
    }
    (pairs, rejects)
}

/// The prelude for one backend: the commands of that backend's pairs, in
/// configuration order.
pub open spec fn spec_prelude_for(
    pairs: Seq<(DebuggerKind, Seq<char>)>,
    kind: DebuggerKind,
) -> Seq<Seq<char>>
    decreases pairs.len(),
{
    if pairs.len() == 0 {
        Seq::empty()
    } else {
        let pre = spec_prelude_for(pairs.drop_last(), kind);
        if pairs.last().0 == kind {
            pre.push(pairs.last().1)
        } else {
            pre
        }
    }
}

/// Collects the prelude commands configured for `kind`, in order.
pub fn prelude_for(pairs: &Vec<(DebuggerKind, String)>, kind: DebuggerKind) -> (r: Vec<String>)
    ensures
        str_views(r@) == spec_prelude_for(pairs_view(pairs@), kind),
{
    let ghost pv = pairs_view(pairs@);
    let mut r: Vec<String> = Vec::new();
    let mut i: usize = 0;
    proof {
        assert(pv.take(0) =~= Seq::<(DebuggerKind, Seq<char>)>::empty());
        assert(str_views(r@) =~= Seq::<Seq<char>>::empty());
    }
    while i < pairs.len()
        invariant
            i <= pairs@.len(),
            pv == pairs_view(pairs@),
            pv.len() == pairs@.len(),
            str_views(r@) == spec_prelude_for(pv.take(i as int), kind),
        decreases pairs@.len() - i,
    {
        proof {
            assert(pv.take(i + 1).drop_last() =~= pv.take(i as int));
            assert(pv.take(i + 1).last() == pv[i as int]);
            assert(pv[i as int] == (pairs@[i as int].0, pairs@[i as int].1@));
        }
        let ghost old_r = r@;
        if pairs[i].0 == kind {
            r.push(pairs[i].1.clone());
            proof {
                assert(str_views(r@) =~= str_views(old_r).push(pv[i as int].1));
            }
        }
        i += 1;
    }
    proof {
        assert(pv.take(pv.len() as int) =~= pv);
    }
    r
}

} // verus!
