//! Probing a debugger command for its backend kind and version.
//!
//! The two version-string extractors are fixed regular expressions applied
//! to each line of the probe's combined output; the first line that either
//! pattern matches determines both the backend kind and its version string.
//! Spawning the probe process is the caller's concern: everything here works
//! on the captured text alone.

use vstd::prelude::*;
use crate::kind::DebuggerKind;
use crate::text::{spec_lines, split_lines, str_ends_with, str_views};
use vstd::string::StrSliceExecFns;

verus! {

/// The first capture group of the leftmost match of `pattern` in `line`:
/// `None` when the pattern does not match the line (or is not a valid
/// pattern, or has no first group). A function of its two arguments alone.
pub uninterp spec fn capture1_of(pattern: Seq<char>, line: Seq<char>) -> Option<Seq<char>>;

/// Relies on regex::Regex::captures (with regex::Regex::new and
/// regex::Captures::get): the first capture group of the leftmost match
/// depends on the pattern and the haystack alone.
#[verifier::external_body]
fn regex_capture_group1(pattern: &str, line: &str) -> (r: Option<String>)
    ensures
        r is Some <==> capture1_of(pattern@, line@) is Some,
        r is Some ==> r->Some_0@ == capture1_of(pattern@, line@)->Some_0,
{
    regex::Regex::new(pattern).ok().and_then(
        |re| re.captures(line).and_then(|c| c.get(1)).map(|m| m.as_str().to_string()),
    )
}

pub open spec fn gdb_version_pattern() -> Seq<char> {
    "GNU\\s+gdb\\s+\\(.+\\)\\s+(.+)"@
}

pub open spec fn cdb_version_pattern() -> Seq<char> {
    "cdb\\s+version\\s+([\\d\\.]+)"@
}

/// The version string in a `gdb` version banner, such as
/// `GNU gdb (GDB) 8.2.1`: whatever follows the parenthesized vendor text.
pub fn extract_gdb_version(version_output: &str) -> (r: Option<String>)
    ensures
        r is Some <==> capture1_of(gdb_version_pattern(), version_output@) is Some,
        r is Some ==> r->Some_0@ == capture1_of(gdb_version_pattern(), version_output@)->Some_0,
{
    regex_capture_group1("GNU\\s+gdb\\s+\\(.+\\)\\s+(.+)", version_output)
}

/// The version string in a `cdb` version banner, such as
/// `cdb version 10.0.21349.1004`: the dotted number after `version`.
pub fn extract_cdb_version(version_output: &str) -> (r: Option<String>)
    ensures
        r is Some <==> capture1_of(cdb_version_pattern(), version_output@) is Some,
        r is Some ==> r->Some_0@ == capture1_of(cdb_version_pattern(), version_output@)->Some_0,
{
    regex_capture_group1("cdb\\s+version\\s+([\\d\\.]+)", version_output)
}

/// What `lowercase` returns for a given string: a function of its
/// characters alone.
pub uninterp spec fn lower_of(s: Seq<char>) -> Seq<char>;

/// Relies on str::to_lowercase: the result depends on the characters alone.
#[verifier::external_body]
fn lowercase(s: &str) -> (r: String)
    ensures
        r@ == lower_of(s@),
{
    s.to_lowercase()
}

/// The probe flag for a command whose lowercased file name marks it as
/// `cdb`, which takes `-version`; every other debugger takes `--version`.
pub open spec fn spec_version_probe_arg(lowered_name: Seq<char>) -> Seq<char> {
    if "cdb.exe"@.is_suffix_of(lowered_name) || "cdb"@.is_suffix_of(lowered_name) {
        "-version"@
    } else {
        "--version"@
    }
}

/// Chooses the version-probe flag from the command's file name.
pub fn version_probe_arg(file_name: &str) -> (r: &'static str)
    ensures
        r@ == spec_version_probe_arg(lower_of(file_name@)),
{
    let lowered = lowercase(file_name);
    if str_ends_with(lowered.as_str(), "cdb.exe") || str_ends_with(lowered.as_str(), "cdb") {
        "-version"
    } else {
        "--version"
    }
}

/// The backend kind and version that a sequence of probe-output lines
/// determines: the first line the `gdb` extractor matches decides for
/// `gdb`; otherwise the first line the `cdb` extractor matches decides for
/// `cdb`; `None` when no line matches either.
pub open spec fn spec_infer_from_lines(lines: Seq<Seq<char>>) -> Option<(DebuggerKind, Seq<char>)>
    decreases lines.len(),
{
    if lines.len() == 0 {
        None
    } else {
        match capture1_of(gdb_version_pattern(), lines[0]) {
            Some(v) => Some((DebuggerKind::Gdb, v)),
            None => match capture1_of(cdb_version_pattern(), lines[0]) {
                Some(v) => Some((DebuggerKind::Cdb, v)),
                None => spec_infer_from_lines(lines.drop_first()),
            },
        }
    }
}

/// Scans the probe's stdout lines, then its stderr lines, for a known
/// version banner, and returns the backend kind and version of the first
/// line that matches one.
pub fn infer_kind_and_version(stdout: &str, stderr: &str) -> (r: Option<(DebuggerKind, String)>)
    ensures
        ({
            let all = spec_lines(stdout@) + spec_lines(stderr@);
            match r {
                Some(kv) => spec_infer_from_lines(all) == Some((kv.0, kv.1@)),
                None => spec_infer_from_lines(all) is None,
            }
        }),
{
    let out_lines = split_lines(stdout);
    let err_lines = split_lines(stderr);
    let ghost av = spec_lines(stdout@);
    let ghost bv = spec_lines(stderr@);
    let ghost all = av + bv;
    let mut i: usize = 0;
    proof {
        assert(all.skip(0) =~= all);
    }
    while i < out_lines.len()
        invariant
            i <= out_lines@.len(),
            av == str_views(out_lines@),
            av == spec_lines(stdout@),
            bv == spec_lines(stderr@),
            all == av + bv,
            av.len() == out_lines@.len(),
            spec_infer_from_lines(all.skip(i as int)) == spec_infer_from_lines(all),
        decreases out_lines@.len() - i,
    {
        proof {
            assert(all.skip(i as int)[0] == all[i as int]);
            assert(all[i as int] == av[i as int]);
            assert(all.skip(i as int).drop_first() =~= all.skip(i + 1));
            assert(av[i as int] == out_lines@[i as int]@);
        }
        let line = &out_lines[i];
        match extract_gdb_version(line.as_str()) {
            Some(version) => {
                return Some((DebuggerKind::Gdb, version));
            },
            None => {},
        }
        match extract_cdb_version(line.as_str()) {
            Some(version) => {
                return Some((DebuggerKind::Cdb, version));
            },
            None => {},
        }
        i += 1;
    }
    let mut j: usize = 0;
    proof {
        assert(all.skip(out_lines@.len() as int) =~= bv);
        assert(bv.skip(0) =~= bv);
    }
    while j < err_lines.len()
        invariant
            j <= err_lines@.len(),
            bv == str_views(err_lines@),
            av == spec_lines(stdout@),
            bv == spec_lines(stderr@),
            all == av + bv,
            bv.len() == err_lines@.len(),
            spec_infer_from_lines(bv.skip(j as int)) == spec_infer_from_lines(all),
        decreases err_lines@.len() - j,
    {
        proof {
            assert(bv.skip(j as int)[0] == bv[j as int]);
            assert(bv.skip(j as int).drop_first() =~= bv.skip(j + 1));
            assert(bv[j as int] == err_lines@[j as int]@);
        }
        let line = &err_lines[j];
        match extract_gdb_version(line.as_str()) {
            Some(version) => {
                return Some((DebuggerKind::Gdb, version));
            },
            None => {},
        }
        match extract_cdb_version(line.as_str()) {
            Some(version) => {
                return Some((DebuggerKind::Cdb, version));
            },
            None => {},
        }
        j += 1;
    }
    proof {
        assert(bv.skip(err_lines@.len() as int).len() == 0);
    }
    None
}

} // verus!
