//! File stability: how often each file changed, by how many authors, and how
//! many of its changes were reverts or fixes, from the commit messages.
use vstd::prelude::*;

use crate::clock::{system_unix_secs, trunc_div};
use crate::stats::activity::{date_instant, parse_date_instant};
use crate::text::{
    chars_of, contains_seq, ends_with, parse_int_spec, parse_u32, slice_to_vec, spec_to_lowercase,
    starts_with, str_contains, str_ends_with, str_starts_with, to_lowercase, to_u32_opt,
};

verus! {

// ---------------------------------------------------------------------------
// Commit-message and path classification
// ---------------------------------------------------------------------------

/// A message announces a revert when, lowercased, it mentions `revert` or
/// starts with `rollback`.
pub open spec fn is_revert_message(m: Seq<char>) -> bool {
    let l = spec_to_lowercase(m);
    starts_with(l, "revert"@) || contains_seq(l, "revert"@) || starts_with(l, "rollback"@)
}

/// A message announces a fix when, lowercased, it starts with `fix` or `bug`
/// or mentions `hotfix`, `bugfix`, `patch` or `urgent`.
pub open spec fn is_fix_message(m: Seq<char>) -> bool {
    let l = spec_to_lowercase(m);
    starts_with(l, "fix"@) || contains_seq(l, "hotfix"@) || contains_seq(l, "bugfix"@)
        || contains_seq(l, "patch"@) || contains_seq(l, "urgent"@) || starts_with(l, "bug"@)
}

/// Extensions of binary, archive, lock, log and minified files.
pub open spec fn has_non_code_extension(l: Seq<char>) -> bool {
    ||| ends_with(l, ".png"@)
    ||| ends_with(l, ".jpg"@)
    ||| ends_with(l, ".jpeg"@)
    ||| ends_with(l, ".gif"@)
    ||| ends_with(l, ".svg"@)
    ||| ends_with(l, ".ico"@)
    ||| ends_with(l, ".pdf"@)
    ||| ends_with(l, ".doc"@)
    ||| ends_with(l, ".docx"@)
    ||| ends_with(l, ".xls"@)
    ||| ends_with(l, ".xlsx"@)
    ||| ends_with(l, ".zip"@)
    ||| ends_with(l, ".tar"@)
    ||| ends_with(l, ".gz"@)
    ||| ends_with(l, ".7z"@)
    ||| ends_with(l, ".rar"@)
    ||| ends_with(l, ".exe"@)
    ||| ends_with(l, ".dll"@)
    ||| ends_with(l, ".so"@)
    ||| ends_with(l, ".dylib"@)
    ||| ends_with(l, ".lock"@)
    ||| ends_with(l, ".log"@)
    ||| ends_with(l, ".tmp"@)
    ||| ends_with(l, ".cache"@)
    ||| ends_with(l, ".min.js"@)
    ||| ends_with(l, ".min.css"@)
}

/// `p` has the directory `d` (written with its trailing `/`) as a whole
/// component: at its start or right after a `/`.
pub open spec fn has_dir_component(p: Seq<char>, d: Seq<char>) -> bool {
    starts_with(p, d) || contains_seq(p, seq!['/'] + d)
}

/// Directories of generated, vendored or tool-owned files, each matched as
/// a whole path component.
pub open spec fn in_non_code_dir(p: Seq<char>) -> bool {
    ||| has_dir_component(p, "node_modules/"@)
    ||| has_dir_component(p, "target/"@)
    ||| has_dir_component(p, "build/"@)
    ||| has_dir_component(p, "dist/"@)
    ||| has_dir_component(p, "out/"@)
    ||| has_dir_component(p, ".git/"@)
    ||| has_dir_component(p, ".svn/"@)
    ||| has_dir_component(p, ".hg/"@)
    ||| has_dir_component(p, "vendor/"@)
    ||| has_dir_component(p, "third_party/"@)
    ||| has_dir_component(p, "external/"@)
    ||| has_dir_component(p, "coverage/"@)
    ||| has_dir_component(p, ".coverage/"@)
    ||| has_dir_component(p, "__pycache__/"@)
}

/// A path is left out of the analysis when its lowercased form has a
/// non-code extension, or the path (as written) lies in a non-code
/// directory.
pub open spec fn is_non_code_path(p: Seq<char>) -> bool {
    has_non_code_extension(spec_to_lowercase(p)) || in_non_code_dir(p)
}

/// The paths left out as non-code: every path whose lowercased form ends in
/// one of the image, document, archive, executable, library, lock, log,
/// temporary, cache or minified-asset extensions, and every path that has
/// one of the generated, vendored or tool-owned directories as a whole
/// component (at its start or right after a `/`).
pub proof fn lemma_non_code_paths(p: Seq<char>)
    ensures
        ends_with(spec_to_lowercase(p), ".png"@) ==> is_non_code_path(p),
        ends_with(spec_to_lowercase(p), ".jpg"@) ==> is_non_code_path(p),
        ends_with(spec_to_lowercase(p), ".jpeg"@) ==> is_non_code_path(p),
        ends_with(spec_to_lowercase(p), ".gif"@) ==> is_non_code_path(p),
        ends_with(spec_to_lowercase(p), ".svg"@) ==> is_non_code_path(p),
        ends_with(spec_to_lowercase(p), ".ico"@) ==> is_non_code_path(p),
        ends_with(spec_to_lowercase(p), ".pdf"@) ==> is_non_code_path(p),
        ends_with(spec_to_lowercase(p), ".doc"@) ==> is_non_code_path(p),
        ends_with(spec_to_lowercase(p), ".docx"@) ==> is_non_code_path(p),
        ends_with(spec_to_lowercase(p), ".xls"@) ==> is_non_code_path(p),
        ends_with(spec_to_lowercase(p), ".xlsx"@) ==> is_non_code_path(p),
        ends_with(spec_to_lowercase(p), ".zip"@) ==> is_non_code_path(p),
        ends_with(spec_to_lowercase(p), ".tar"@) ==> is_non_code_path(p),
        ends_with(spec_to_lowercase(p), ".gz"@) ==> is_non_code_path(p),
        ends_with(spec_to_lowercase(p), ".7z"@) ==> is_non_code_path(p),
        ends_with(spec_to_lowercase(p), ".rar"@) ==> is_non_code_path(p),
        ends_with(spec_to_lowercase(p), ".exe"@) ==> is_non_code_path(p),
        ends_with(spec_to_lowercase(p), ".dll"@) ==> is_non_code_path(p),
        ends_with(spec_to_lowercase(p), ".so"@) ==> is_non_code_path(p),
        ends_with(spec_to_lowercase(p), ".dylib"@) ==> is_non_code_path(p),
        ends_with(spec_to_lowercase(p), ".lock"@) ==> is_non_code_path(p),
        ends_with(spec_to_lowercase(p), ".log"@) ==> is_non_code_path(p),
        ends_with(spec_to_lowercase(p), ".tmp"@) ==> is_non_code_path(p),
        ends_with(spec_to_lowercase(p), ".cache"@) ==> is_non_code_path(p),
        ends_with(spec_to_lowercase(p), ".min.js"@) ==> is_non_code_path(p),
        ends_with(spec_to_lowercase(p), ".min.css"@) ==> is_non_code_path(p),
        starts_with(p, "node_modules/"@) || contains_seq(p, seq!['/'] + "node_modules/"@) ==> is_non_code_path(p),
        starts_with(p, "target/"@) || contains_seq(p, seq!['/'] + "target/"@) ==> is_non_code_path(p),
        starts_with(p, "build/"@) || contains_seq(p, seq!['/'] + "build/"@) ==> is_non_code_path(p),
        starts_with(p, "dist/"@) || contains_seq(p, seq!['/'] + "dist/"@) ==> is_non_code_path(p),
        starts_with(p, "out/"@) || contains_seq(p, seq!['/'] + "out/"@) ==> is_non_code_path(p),
        starts_with(p, ".git/"@) || contains_seq(p, seq!['/'] + ".git/"@) ==> is_non_code_path(p),
        starts_with(p, ".svn/"@) || contains_seq(p, seq!['/'] + ".svn/"@) ==> is_non_code_path(p),
        starts_with(p, ".hg/"@) || contains_seq(p, seq!['/'] + ".hg/"@) ==> is_non_code_path(p),
        starts_with(p, "vendor/"@) || contains_seq(p, seq!['/'] + "vendor/"@) ==> is_non_code_path(p),
        starts_with(p, "third_party/"@) || contains_seq(p, seq!['/'] + "third_party/"@) ==> is_non_code_path(p),
        starts_with(p, "external/"@) || contains_seq(p, seq!['/'] + "external/"@) ==> is_non_code_path(p),
        starts_with(p, "coverage/"@) || contains_seq(p, seq!['/'] + "coverage/"@) ==> is_non_code_path(p),
        starts_with(p, ".coverage/"@) || contains_seq(p, seq!['/'] + ".coverage/"@) ==> is_non_code_path(p),
        starts_with(p, "__pycache__/"@) || contains_seq(p, seq!['/'] + "__pycache__/"@) ==> is_non_code_path(p),
{
}

/// A history is produced only for a path that is kept: under the directory
/// filter, and not non-code.
proof fn lemma_history_only_kept(
    r: Seq<StabilityRecord>,
    p: Seq<char>,
    until: Option<i64>,
    author_filter: Option<Seq<char>>,
    dir_filter: Option<Seq<char>>,
    no_merges: bool,
)
    requires
        !path_kept(p, dir_filter),
    ensures
        file_history(r, p, until, author_filter, dir_filter, no_merges).len() == 0,
    decreases r.len(),
{
    if r.len() > 0 {
        lemma_history_only_kept(r.drop_last(), p, until, author_filter, dir_filter, no_merges);
        lemma_no_kept_occurrences(r.last().paths@, p, dir_filter);
    }
}

proof fn lemma_no_kept_occurrences(paths: Seq<String>, p: Seq<char>, dir_filter: Option<Seq<char>>)
    requires
        !path_kept(p, dir_filter),
    ensures
        kept_occurrences(paths, p, dir_filter) == 0,
    decreases paths.len(),
{
    if paths.len() > 0 {
        lemma_no_kept_occurrences(paths.drop_last(), p, dir_filter);
    }
}

/// The revert keywords: a message announces a revert exactly when its
/// lowercased form mentions `revert` anywhere or starts with `rollback`.
pub proof fn lemma_revert_keywords(m: Seq<char>)
    ensures
        is_revert_message(m) <==> (contains_seq(spec_to_lowercase(m), "revert"@) || starts_with(
            spec_to_lowercase(m),
            "rollback"@,
        )),
{
    let l = spec_to_lowercase(m);
    if starts_with(l, "revert"@) {
        assert(crate::text::occurs_at(l, "revert"@, 0));
    }
}

/// The fix keywords: a message announces a fix exactly when its lowercased
/// form starts with `fix` or `bug`, or mentions `hotfix`, `bugfix`, `patch`
/// or `urgent`.
pub proof fn lemma_fix_keywords(m: Seq<char>)
    ensures
        starts_with(spec_to_lowercase(m), "fix"@) ==> is_fix_message(m),
        starts_with(spec_to_lowercase(m), "bug"@) ==> is_fix_message(m),
        contains_seq(spec_to_lowercase(m), "hotfix"@) ==> is_fix_message(m),
        contains_seq(spec_to_lowercase(m), "bugfix"@) ==> is_fix_message(m),
        contains_seq(spec_to_lowercase(m), "patch"@) ==> is_fix_message(m),
        contains_seq(spec_to_lowercase(m), "urgent"@) ==> is_fix_message(m),
        is_fix_message(m) ==> starts_with(spec_to_lowercase(m), "fix"@) || starts_with(
            spec_to_lowercase(m),
            "bug"@,
        ) || contains_seq(spec_to_lowercase(m), "hotfix"@) || contains_seq(
            spec_to_lowercase(m),
            "bugfix"@,
        ) || contains_seq(spec_to_lowercase(m), "patch"@) || contains_seq(
            spec_to_lowercase(m),
            "urgent"@,
        ),
{
}

/// Whether a commit message announces a revert.
pub fn is_revert_commit(message: &str) -> (b: bool)
    ensures
        b == is_revert_message(message@),
{
    let lower = to_lowercase(message);
    let l = lower.as_str();
    str_starts_with(l, "revert") || str_contains(l, "revert") || str_starts_with(l, "rollback")
}

/// Whether a commit message announces a fix.
pub fn is_fix_commit(message: &str) -> (b: bool)
    ensures
        b == is_fix_message(message@),
{
    let lower = to_lowercase(message);
    let l = lower.as_str();
    str_starts_with(l, "fix") || str_contains(l, "hotfix") || str_contains(l, "bugfix")
        || str_contains(l, "patch") || str_contains(l, "urgent") || str_starts_with(l, "bug")
}

fn non_code_extension(l: &str) -> (b: bool)
    ensures
        b == has_non_code_extension(l@),
{
    str_ends_with(l, ".png") || str_ends_with(l, ".jpg") || str_ends_with(l, ".jpeg")
        || str_ends_with(l, ".gif") || str_ends_with(l, ".svg") || str_ends_with(l, ".ico")
        || str_ends_with(l, ".pdf") || str_ends_with(l, ".doc") || str_ends_with(l, ".docx")
        || str_ends_with(l, ".xls") || str_ends_with(l, ".xlsx") || str_ends_with(l, ".zip")
        || str_ends_with(l, ".tar") || str_ends_with(l, ".gz") || str_ends_with(l, ".7z")
        || str_ends_with(l, ".rar") || str_ends_with(l, ".exe") || str_ends_with(l, ".dll")
        || str_ends_with(l, ".so") || str_ends_with(l, ".dylib") || str_ends_with(l, ".lock")
        || str_ends_with(l, ".log") || str_ends_with(l, ".tmp") || str_ends_with(l, ".cache")
        || str_ends_with(l, ".min.js") || str_ends_with(l, ".min.css")
}

/// Whether `p` has the directory `d` as a whole component.
fn dir_component(p: &str, d: &str) -> (b: bool)
    ensures
        b == has_dir_component(p@, d@),
{
    let mut slashed = String::from_str("/");
    slashed.append(d);
    proof {
        reveal_strlit("/");
        assert(slashed@ =~= seq!['/'] + d@);
    }
    str_starts_with(p, d) || str_contains(p, slashed.as_str())
}

fn non_code_dir(p: &str) -> (b: bool)
    ensures
        b == in_non_code_dir(p@),
{
    dir_component(p, "node_modules/")
        || dir_component(p, "target/")
        || dir_component(p, "build/")
        || dir_component(p, "dist/")
        || dir_component(p, "out/")
        || dir_component(p, ".git/")
        || dir_component(p, ".svn/")
        || dir_component(p, ".hg/")
        || dir_component(p, "vendor/")
        || dir_component(p, "third_party/")
        || dir_component(p, "external/")
        || dir_component(p, "coverage/")
        || dir_component(p, ".coverage/")
        || dir_component(p, "__pycache__/")
}

/// Whether a path names a binary, generated or vendored file rather than
/// source code.
pub fn is_likely_binary_or_non_code(path: &str) -> (b: bool)
    ensures
        b == is_non_code_path(path@),
{
    let lower = to_lowercase(path);
    non_code_extension(lower.as_str()) || non_code_dir(path)
}

// ---------------------------------------------------------------------------
// Relative time specifications
// ---------------------------------------------------------------------------

/// Why a time specification was refused.
#[derive(Copy, Clone, Debug, PartialEq, Eq, Structural)]
pub enum TimeSpecError {
    /// The unit is known but what precedes it is not a `u32`.
    InvalidNumber,
    /// The system clock reads earlier than the Unix epoch.
    ClockBeforeEpoch,
    /// The text neither ends in `d`, `w`, `m` or `y` nor is a date
    /// `YYYY-MM-DD`.
    UnsupportedFormat,
}

/// Seconds in one unit of a time specification: a day, a week, a 30-day
/// month or a 365-day year; 0 for any other character.
pub open spec fn time_unit_secs(c: char) -> int {
    if c == 'd' {
        86_400
    } else if c == 'w' {
        604_800
    } else if c == 'm' {
        2_592_000
    } else if c == 'y' {
        31_536_000
    } else {
        0
    }
}

/// How far back a specification such as `30d` reaches, in seconds, or why it
/// is refused.
pub open spec fn time_spec_offset(s: Seq<char>) -> Result<int, TimeSpecError> {
    if s.len() > 0 && time_unit_secs(s.last()) > 0 {
        match parse_int_spec(s.drop_last(), false, 0, u32::MAX as int) {
            Some(n) => Ok(n * time_unit_secs(s.last())),
            None => Err(TimeSpecError::InvalidNumber),
        }
    } else {
        Err(TimeSpecError::UnsupportedFormat)
    }
}

/// What a specification names at clock reading `now`: `30d`, `2w`, `3m` or
/// `1y` count back from `now`; a date `YYYY-MM-DD` names its midnight UTC,
/// as `--since` and `--until` read it everywhere; anything else is refused.
pub open spec fn time_spec_value(s: Seq<char>, now: int) -> Result<int, TimeSpecError> {
    match time_spec_offset(s) {
        Ok(o) => Ok(now - o),
        Err(e) => if e == TimeSpecError::UnsupportedFormat {
            match date_instant(s) {
                Some(t) => Ok(t as int),
                None => Err(TimeSpecError::UnsupportedFormat),
            }
        } else {
            Err(e)
        },
    }
}

/// What a specification gives at clock reading `now`, as an `i64`.
pub open spec fn time_spec_result(s: Seq<char>, now: int) -> Result<i64, TimeSpecError> {
    match time_spec_value(s, now) {
        Ok(t) => Ok(t as i64),
        Err(e) => Err(e),
    }
}

/// Relative specifications count back from the clock: `Nd`, `Nw`, `Nm` and
/// `Ny` (N an unsigned 32-bit numeral) name the instant N days, 7-day
/// weeks, 30-day months or 365-day years before `now`, so a later reading
/// gives an instant later by as much.
pub proof fn lemma_time_spec_counts_back(n: Seq<char>, now: int, later: int)
    ensures
        parse_int_spec(n, false, 0, u32::MAX as int) matches Some(v) ==> {
            &&& time_spec_value(n.push('d'), now) == Ok::<int, TimeSpecError>(now - v * 86_400)
            &&& time_spec_value(n.push('w'), now) == Ok::<int, TimeSpecError>(now - v * 7 * 86_400)
            &&& time_spec_value(n.push('m'), now) == Ok::<int, TimeSpecError>(now - v * 30 * 86_400)
            &&& time_spec_value(n.push('y'), now) == Ok::<int, TimeSpecError>(now - v * 365 * 86_400)
        },
        forall|s: Seq<char>|
            #![trigger time_spec_value(s, now), time_spec_value(s, later)]
            time_spec_offset(s) is Ok ==> (time_spec_value(s, later) is Ok && time_spec_value(s, now)
                is Ok && time_spec_value(s, later)->Ok_0 - time_spec_value(s, now)->Ok_0 == later
                - now),
{
    assert(n.push('d').drop_last() =~= n);
    assert(n.push('w').drop_last() =~= n);
    assert(n.push('m').drop_last() =~= n);
    assert(n.push('y').drop_last() =~= n);
    if parse_int_spec(n, false, 0, u32::MAX as int) is Some {
        let v = parse_int_spec(n, false, 0, u32::MAX as int)->0;
        assert(v * 7 * 86_400 == v * 604_800) by (nonlinear_arith);
        assert(v * 30 * 86_400 == v * 2_592_000) by (nonlinear_arith);
        assert(v * 365 * 86_400 == v * 31_536_000) by (nonlinear_arith);
    }
}

/// What reading the clock may give for a specification: a relative one
/// gives `ClockBeforeEpoch` (where the clock reads before the epoch) or its
/// value at some non-negative clock reading; a date or a refusal gives its
/// value, which does not depend on the clock.
pub open spec fn time_spec_outcome(s: Seq<char>, r: Result<i64, TimeSpecError>) -> bool {
    match time_spec_offset(s) {
        Ok(_) => r == Err::<i64, TimeSpecError>(TimeSpecError::ClockBeforeEpoch) || exists|now: int|
            0 <= now <= i64::MAX && r == #[trigger] time_spec_result(s, now),
        Err(_) => r == time_spec_result(s, 0),
    }
}

fn time_spec_offset_of(spec: &str) -> (r: Result<i64, TimeSpecError>)
    ensures
        match time_spec_offset(spec@) {
            Ok(o) => r == Ok::<i64, TimeSpecError>(o as i64) && 0 <= o <= 136_000_000_000_000_000,
            Err(e) => r == Err::<i64, TimeSpecError>(e),
        },
{
    let chars = chars_of(spec);
    let n = chars.len();
    if n == 0 {
        return Err(TimeSpecError::UnsupportedFormat);
    }
    let last = chars[n - 1];
    let unit: i64 = if last == 'd' {
        86_400
    } else if last == 'w' {
        604_800
    } else if last == 'm' {
        2_592_000
    } else if last == 'y' {
        31_536_000
    } else {
        return Err(TimeSpecError::UnsupportedFormat);
    };
    let body = slice_to_vec(chars.as_slice(), 0, n - 1);
    proof {
        assert(chars@.drop_last() =~= body@);
        assert(chars@.last() == last);
    }
    match parse_u32(body.as_slice()) {
        Some(k) => {
            proof {
                assert(k as int * unit <= 4_294_967_295 * 31_536_000) by (nonlinear_arith)
                    requires
                        k <= 4_294_967_295,
                        0 < unit <= 31_536_000,
                ;
                assert(k as int * unit >= 0) by (nonlinear_arith)
                    requires
                        0 < unit,
                ;
            }
            Ok(k as i64 * unit)
        },
        None => Err(TimeSpecError::InvalidNumber),
    }
}

/// The instant that a specification such as `30d`, `2w`, `3m`, `1y` or
/// `2024-01-01` names, relative ones counted back from `now`.
pub fn parse_time_spec_at(spec: &str, now: i64) -> (r: Result<i64, TimeSpecError>)
    requires
        now >= 0,
    ensures
        r == time_spec_result(spec@, now as int),
{
    match time_spec_offset_of(spec) {
        Ok(o) => Ok(now - o),
        Err(e) => if e == TimeSpecError::UnsupportedFormat {
            spec_date(spec)
        } else {
            Err(e)
        },
    }
}

/// The date a specification names, or `UnsupportedFormat`.
fn spec_date(spec: &str) -> (r: Result<i64, TimeSpecError>)
    ensures
        match date_instant(spec@) {
            Some(t) => r == Ok::<i64, TimeSpecError>(t),
            None => r == Err::<i64, TimeSpecError>(TimeSpecError::UnsupportedFormat),
        },
{
    let chars = chars_of(spec);
    match parse_date_instant(chars.as_slice()) {
        Some(t) => Ok(t),
        None => Err(TimeSpecError::UnsupportedFormat),
    }
}

/// The instant that a specification names: a relative one is read at the
/// system clock through `parse_time_spec_at` (`ClockBeforeEpoch` where the
/// clock reads before the epoch); a date or a refusal does not read the
/// clock.
pub fn parse_time_spec(spec: &str) -> (r: Result<i64, TimeSpecError>)
    ensures
        time_spec_outcome(spec@, r),
{
    match time_spec_offset_of(spec) {
        Ok(_) => match system_unix_secs() {
            Some(now) => {
                let r = parse_time_spec_at(spec, now);
                assert(r == time_spec_result(spec@, now as int));
                r
            },
            None => Err(TimeSpecError::ClockBeforeEpoch),
        },
        // Dates and refusals do not depend on the clock.
        Err(_) => parse_time_spec_at(spec, 0),
    }
}

/// What `parse_time_range` may give for one end of the range: nothing for
/// an absent end, and otherwise what `parse_time_spec` may give.
pub open spec fn time_end_outcome(
    spec: Option<&str>,
    r: Result<Option<i64>, TimeSpecError>,
) -> bool {
    match spec {
        None => r == Ok::<Option<i64>, TimeSpecError>(None),
        Some(s) => match r {
            Ok(Some(t)) => time_spec_outcome(s@, Ok(t)),
            Ok(None) => false,
            Err(e) => time_spec_outcome(s@, Err(e)),
        },
    }
}

fn parse_time_end(spec: Option<&str>) -> (r: Result<Option<i64>, TimeSpecError>)
    ensures
        time_end_outcome(spec, r),
{
    match spec {
        None => Ok(None),
        Some(s) => match parse_time_spec(s) {
            Ok(t) => Ok(Some(t)),
            Err(e) => Err(e),
        },
    }
}

/// Both ends of a time range; the first refused end gives the error.
pub fn parse_time_range(since: Option<&str>, until: Option<&str>) -> (r: Result<
    (Option<i64>, Option<i64>),
    TimeSpecError,
>)
    ensures
        match r {
            Ok((a, b)) => time_end_outcome(since, Ok(a)) && time_end_outcome(until, Ok(b)),
            Err(e) => time_end_outcome(since, Err(e)) || (exists|a: Option<i64>|
                time_end_outcome(since, Ok(a))) && time_end_outcome(until, Err(e)),
        },
{
    let a = match parse_time_end(since) {
        Ok(a) => a,
        Err(e) => return Err(e),
    };
    let b = match parse_time_end(until) {
        Ok(b) => b,
        Err(e) => return Err(e),
    };
    Ok((a, b))
}

/// Whole days from `since` to `until` when both ends are given, and 365
/// otherwise.
pub fn stability_date_range_days(since: Option<i64>, until: Option<i64>) -> (d: u32)
    requires
        since matches Some(s) ==> until matches Some(u) ==> i64::MIN <= u - s <= i64::MAX,
    ensures
        d == match (since, until) {
            (Some(s), Some(u)) => trunc_div(u - s, 86_400) as u32,
            _ => 365u32,
        },
{
    match (since, until) {
        (Some(s), Some(u)) => {
            let days: i64 = (u - s) / 86_400;
            #[verifier::truncate]
            (days as u32)
        },
        _ => 365,
    }
}

// ---------------------------------------------------------------------------
// Per-file stability figures
// ---------------------------------------------------------------------------

/// The filters a stability report was made with, as the user gave them.
#[derive(Debug, Clone)]
pub struct StabilityFilters {
    pub author: Option<String>,
    pub directory: Option<String>,
    pub since: Option<String>,
    pub until: Option<String>,
}

/// One commit that changed a file: its time, its author (`Unknown` where the
/// signature has no name) and its message (empty where it has none).
#[derive(Debug, Clone)]
pub struct StabilityCommit {
    pub timestamp: i64,
    pub author: String,
    pub message: String,
}

/// The integer figures of a file's stability. The average days between
/// changes is `span_days / (changes - 1)` for more than one change, and 0
/// otherwise; the score is computed from these figures in floating point.
#[derive(Debug, Clone)]
pub struct StabilityCounts {
    pub path: String,
    pub changes: u32,
    pub authors: u32,
    pub reverts: u32,
    pub fixes: u32,
    /// Whole days from the first change to the last, for more than one change.
    pub span_days: i64,
    pub last_change_days_ago: u32,
    pub primary_author: String,
    pub primary_author_changes: u32,
}

pub open spec fn commit_author_names(c: Seq<StabilityCommit>) -> Seq<Seq<char>> {
    c.map_values(|x: StabilityCommit| x.author@)
}

/// Changes made by `name`.
pub open spec fn changes_by(c: Seq<StabilityCommit>, name: Seq<char>) -> nat
    decreases c.len(),
{
    if c.len() == 0 {
        0
    } else {
        changes_by(c.drop_last(), name) + if c.last().author@ == name {
            1nat
        } else {
            0nat
        }
    }
}

pub open spec fn revert_changes(c: Seq<StabilityCommit>) -> nat
    decreases c.len(),
{
    if c.len() == 0 {
        0
    } else {
        revert_changes(c.drop_last()) + if is_revert_message(c.last().message@) {
            1nat
        } else {
            0nat
        }
    }
}

pub open spec fn fix_changes(c: Seq<StabilityCommit>) -> nat
    decreases c.len(),
{
    if c.len() == 0 {
        0
    } else {
        fix_changes(c.drop_last()) + if is_fix_message(c.last().message@) {
            1nat
        } else {
            0nat
        }
    }
}

/// The time of a latest change (`c` must not be empty).
pub open spec fn latest_change(c: Seq<StabilityCommit>) -> int
    decreases c.len(),
{
    if c.len() <= 1 {
        c[0].timestamp as int
    } else if c.last().timestamp >= latest_change(c.drop_last()) {
        c.last().timestamp as int
    } else {
        latest_change(c.drop_last())
    }
}

/// The time of an earliest change (`c` must not be empty).
pub open spec fn earliest_change(c: Seq<StabilityCommit>) -> int
    decreases c.len(),
{
    if c.len() <= 1 {
        c[0].timestamp as int
    } else if c.last().timestamp <= earliest_change(c.drop_last()) {
        c.last().timestamp as int
    } else {
        earliest_change(c.drop_last())
    }
}

/// The differences that the figures take between times, and between `now`
/// and each time, fit in `i64`.
pub open spec fn stability_times_fit(c: Seq<StabilityCommit>, now: i64) -> bool {
    &&& forall|i: int| 0 <= i < c.len() ==> i64::MIN <= now - #[trigger] c[i].timestamp <= i64::MAX
    &&& forall|i: int, j: int|
        0 <= i < c.len() && 0 <= j < c.len() ==> #[trigger] c[i].timestamp - #[trigger] c[j].timestamp
            <= i64::MAX
}

/// No author made more than `u32::MAX` of the changes.
pub open spec fn stability_counts_fit(c: Seq<StabilityCommit>) -> bool {
    forall|name: Seq<char>| #[trigger] changes_by(c, name) <= u32::MAX
}

/// The figures of `r` are those of the changes `c` of `path`, seen at `now`.
pub open spec fn is_file_stability(
    r: StabilityCounts,
    path: Seq<char>,
    c: Seq<StabilityCommit>,
    now: i64,
) -> bool {
    &&& r.path@ == path
    &&& r.changes == c.len() as u32
    &&& r.authors == commit_author_names(c).to_set().len() as u32
    &&& r.reverts == revert_changes(c) as u32
    &&& r.fixes == fix_changes(c) as u32
    &&& r.span_days == if c.len() > 1 {
        trunc_div(latest_change(c) - earliest_change(c), 86_400)
    } else {
        0
    }
    &&& r.last_change_days_ago == if c.len() > 0 {
        trunc_div(now - latest_change(c), 86_400) as u32
    } else {
        0
    }
    &&& if c.len() == 0 {
        r.primary_author@ == "Unknown"@ && r.primary_author_changes == 0
    } else {
        &&& commit_author_names(c).contains(r.primary_author@)
        &&& r.primary_author_changes == changes_by(c, r.primary_author@)
        &&& forall|name: Seq<char>| #[trigger] changes_by(c, name) <= r.primary_author_changes
    }
}

proof fn lemma_changes_by_absent(c: Seq<StabilityCommit>, name: Seq<char>)
    requires
        !commit_author_names(c).contains(name),
    ensures
        changes_by(c, name) == 0,
    decreases c.len(),
{
    if c.len() > 0 {
        let t = c.drop_last();
        assert forall|k: int| 0 <= k < t.len() implies commit_author_names(t)[k] != name by {
            assert(commit_author_names(t)[k] == commit_author_names(c)[k]);
        }
        assert(commit_author_names(c)[c.len() - 1] == c.last().author@);
        lemma_changes_by_absent(t, name);
    }
}

proof fn lemma_latest_bounds(c: Seq<StabilityCommit>)
    requires
        c.len() > 0,
    ensures
        exists|i: int| 0 <= i < c.len() && c[i].timestamp == latest_change(c),
        exists|i: int| 0 <= i < c.len() && c[i].timestamp == earliest_change(c),
        earliest_change(c) <= latest_change(c),
    decreases c.len(),
{
    if c.len() > 1 {
        let t = c.drop_last();
        lemma_latest_bounds(t);
        let i = choose|i: int| 0 <= i < t.len() && t[i].timestamp == latest_change(t);
        let j = choose|j: int| 0 <= j < t.len() && t[j].timestamp == earliest_change(t);
        assert(c[i] == t[i]);
        assert(c[j] == t[j]);
        assert(c[c.len() - 1] == c.last());
    } else {
        assert(c[0].timestamp == latest_change(c));
    }
}

/// The latest change is the greatest change time and the earliest the
/// least: both are times of changes in `c`, every change lies between them.
pub proof fn lemma_change_extremes(c: Seq<StabilityCommit>)
    requires
        c.len() > 0,
    ensures
        exists|i: int| 0 <= i < c.len() && c[i].timestamp == latest_change(c),
        exists|i: int| 0 <= i < c.len() && c[i].timestamp == earliest_change(c),
        forall|i: int|
            0 <= i < c.len() ==> earliest_change(c) <= #[trigger] c[i].timestamp <= latest_change(c),
    decreases c.len(),
{
    lemma_latest_bounds(c);
    if c.len() > 1 {
        let t = c.drop_last();
        lemma_change_extremes(t);
        assert forall|i: int| 0 <= i < c.len() implies earliest_change(c) <= #[trigger] c[i].timestamp
            <= latest_change(c) by {
            if i < c.len() - 1 {
                assert(c[i] == t[i]);
            }
        }
    }
}

/// Changes of one author: `changes_by` counts exactly the changes whose
/// author is `name`.
pub proof fn lemma_changes_by_counts(c: Seq<StabilityCommit>, name: Seq<char>)
    ensures
        changes_by(c, name) == c.filter(|x: StabilityCommit| x.author@ == name).len(),
    decreases c.len(),
{
    reveal(Seq::filter);
    if c.len() > 0 {
        lemma_changes_by_counts(c.drop_last(), name);
    }
}

/// The day counts of a file's figures: the span is the whole days between
/// the two changes furthest apart, and, seen at a `now` after every change,
/// the days since the last change are the whole days from the most recent
/// change to `now`.
pub proof fn lemma_stability_days(r: StabilityCounts, path: Seq<char>, c: Seq<StabilityCommit>, now: i64)
    requires
        is_file_stability(r, path, c, now),
    ensures
        c.len() > 1 ==> (forall|i: int, j: int|
            #![trigger c[i], c[j]]
            0 <= i < c.len() && 0 <= j < c.len() ==> c[i].timestamp - c[j].timestamp < r.span_days
                * 86_400 + 86_400) && (exists|i: int, j: int|
            #![trigger c[i], c[j]]
            0 <= i < c.len() && 0 <= j < c.len() && c[i].timestamp - c[j].timestamp >= r.span_days
                * 86_400 && r.span_days >= 0),
        c.len() <= 1 ==> r.span_days == 0,
        c.len() > 0 && (forall|i: int| 0 <= i < c.len() ==> #[trigger] c[i].timestamp <= now) && (
        forall|i: int| 0 <= i < c.len() ==> now - #[trigger] c[i].timestamp < 86_400
            * 4_294_967_296) ==> (forall|i: int|
            0 <= i < c.len() ==> r.last_change_days_ago * 86_400 <= now - #[trigger] c[i].timestamp)
            && (exists|i: int|
            0 <= i < c.len() && now - #[trigger] c[i].timestamp < r.last_change_days_ago * 86_400
                + 86_400),
{
    if c.len() > 0 {
        lemma_change_extremes(c);
        let hi = choose|i: int| 0 <= i < c.len() && c[i].timestamp == latest_change(c);
        let lo = choose|i: int| 0 <= i < c.len() && c[i].timestamp == earliest_change(c);
        let l = latest_change(c);
        let e = earliest_change(c);
        if c.len() > 1 {
            let d = l - e;
            let q = d / 86_400;
            assert(0 <= q && q * 86_400 <= d < q * 86_400 + 86_400) by (nonlinear_arith)
                requires
                    d >= 0,
                    q == d / 86_400,
            ;
            assert(r.span_days == q);
            assert forall|i: int, j: int|
                #![trigger c[i], c[j]]
                0 <= i < c.len() && 0 <= j < c.len() implies c[i].timestamp - c[j].timestamp
                < r.span_days * 86_400 + 86_400 by {
                assert(e <= c[i].timestamp <= l);
                assert(e <= c[j].timestamp <= l);
            }
            assert(c[hi].timestamp - c[lo].timestamp >= r.span_days * 86_400);
        }
        if (forall|i: int| 0 <= i < c.len() ==> #[trigger] c[i].timestamp <= now) && (forall|i: int|
            0 <= i < c.len() ==> now - #[trigger] c[i].timestamp < 86_400 * 4_294_967_296) {
            assert(c[hi].timestamp <= now);
            assert(now - c[hi].timestamp < 86_400 * 4_294_967_296);
            let d = now - l;
            let q = d / 86_400;
            assert(0 <= q < 4_294_967_296 && q * 86_400 <= d < q * 86_400 + 86_400) by (nonlinear_arith)
                requires
                    0 <= d < 86_400 * 4_294_967_296,
                    q == d / 86_400,
            ;
            assert(r.last_change_days_ago == q);
            assert forall|i: int| 0 <= i < c.len() implies r.last_change_days_ago * 86_400 <= now
                - #[trigger] c[i].timestamp by {
                assert(c[i].timestamp <= l);
            }
        }
    }
}

/// Where `name` stands in `names`, if it does.
pub fn find_name(names: &Vec<String>, name: &String) -> (r: Option<usize>)
    ensures
        match r {
            Some(k) => k < names.len() && names@[k as int]@ == name@,
            None => forall|k: int| 0 <= k < names.len() ==> names@[k]@ != name@,
        },
{
    let mut k: usize = 0;
    while k < names.len()
        invariant
            k <= names.len(),
            forall|j: int| 0 <= j < k ==> names@[j]@ != name@,
        decreases names.len() - k,
    {
        if names[k] == *name {
            return Some(k);
        }
        k += 1;
    }
    None
}

/// The authors of `commits`, each once, with their change counts.
fn tally_authors(commits: &[StabilityCommit]) -> (r: (Vec<String>, Vec<u32>))
    requires
        stability_counts_fit(commits@),
    ensures
        r.0.len() == r.1.len(),
        forall|k: int|
            0 <= k < r.1.len() ==> #[trigger] r.1@[k] == changes_by(commits@, r.0@[k]@),
        forall|k: int, l: int|
            0 <= k < l < r.0.len() ==> #[trigger] r.0@[k]@ != #[trigger] r.0@[l]@,
        forall|name: Seq<char>|
            commit_author_names(commits@).contains(name) <==> exists|k: int|
                0 <= k < r.0.len() && #[trigger] r.0@[k]@ == name,
{
    let mut names: Vec<String> = Vec::new();
    let mut counts: Vec<u32> = Vec::new();
    let mut i: usize = 0;
    while i < commits.len()
        invariant
            i <= commits.len(),
            stability_counts_fit(commits@),
            names.len() == counts.len(),
            forall|k: int|
                0 <= k < counts.len() ==> #[trigger] counts@[k] == changes_by(
                    commits@.subrange(0, i as int),
                    names@[k]@,
                ),
            forall|k: int, l: int|
                0 <= k < l < names.len() ==> #[trigger] names@[k]@ != #[trigger] names@[l]@,
            forall|name: Seq<char>|
                commit_author_names(commits@.subrange(0, i as int)).contains(name) <==> exists|
                    k: int,
                | 0 <= k < names.len() && #[trigger] names@[k]@ == name,
        decreases commits.len() - i,
    {
        let ghost prev = commits@.subrange(0, i as int);
        let ghost next = commits@.subrange(0, i + 1);
        proof {
            assert(next.drop_last() =~= prev);
            assert(next.last() == commits@[i as int]);
            assert(commit_author_names(next) =~= commit_author_names(prev).push(
                commits@[i as int].author@,
            ));
        }
        let who = &commits[i].author;
        proof {
            lemma_prefix_changes_by(commits@, i + 1, who@);
        }
        let ghost old_names = names@;
        let ghost mut pos: int = 0;
        match find_name(&names, who) {
            Some(k) => {
                proof {
                    pos = k as int;
                }
                let c = counts[k] + 1;
                counts.set(k, c);
            },
            None => {
                proof {
                    assert(!commit_author_names(prev).contains(who@));
                    lemma_changes_by_absent(prev, who@);
                    pos = names.len() as int;
                }
                names.push(who.clone());
                counts.push(1);
            },
        }
        proof {
            let an = commit_author_names(next);
            let ap = commit_author_names(prev);
            assert(an[i as int] == who@);
            assert forall|name: Seq<char>|
                an.contains(name) <==> exists|k: int|
                    0 <= k < names.len() && #[trigger] names@[k]@ == name by {
                if name == who@ {
                    assert(names@[pos]@ == name);
                } else {
                    if an.contains(name) {
                        let j = choose|j: int| 0 <= j < an.len() && an[j] == name;
                        assert(ap[j] == name);
                        assert(ap.contains(name));
                        let k = choose|k: int| 0 <= k < old_names.len() && old_names[k]@ == name;
                        assert(names@[k] == old_names[k]);
                    }
                    if exists|k: int| 0 <= k < names.len() && #[trigger] names@[k]@ == name {
                        let k = choose|k: int| 0 <= k < names.len() && #[trigger] names@[k]@ == name;
                        assert(old_names[k]@ == name);
                        assert(ap.contains(name));
                        let j = choose|j: int| 0 <= j < ap.len() && ap[j] == name;
                        assert(an[j] == name);
                    }
                }
            }
        }
        i += 1;
    }
    proof {
        assert(commits@.subrange(0, commits@.len() as int) =~= commits@);
    }
    (names, counts)
}

proof fn lemma_prefix_changes_by(c: Seq<StabilityCommit>, n: int, name: Seq<char>)
    requires
        0 <= n <= c.len(),
    ensures
        changes_by(c.subrange(0, n), name) <= changes_by(c, name),
    decreases c.len(),
{
    if n == c.len() {
        assert(c.subrange(0, n) =~= c);
    } else {
        let t = c.drop_last();
        assert(t.subrange(0, n) =~= c.subrange(0, n));
        lemma_prefix_changes_by(t, n, name);
    }
}

fn count_reverts_and_fixes(commits: &[StabilityCommit]) -> (r: (usize, usize))
    ensures
        r.0 == revert_changes(commits@),
        r.1 == fix_changes(commits@),
{
    let mut reverts: usize = 0;
    let mut fixes: usize = 0;
    let mut i: usize = 0;
    while i < commits.len()
        invariant
            i <= commits.len(),
            reverts == revert_changes(commits@.subrange(0, i as int)),
            fixes == fix_changes(commits@.subrange(0, i as int)),
            reverts <= i,
            fixes <= i,
        decreases commits.len() - i,
    {
        proof {
            let next = commits@.subrange(0, i + 1);
            assert(next.drop_last() =~= commits@.subrange(0, i as int));
            assert(next.last() == commits@[i as int]);
        }
        if is_revert_commit(commits[i].message.as_str()) {
            reverts += 1;
        }
        if is_fix_commit(commits[i].message.as_str()) {
            fixes += 1;
        }
        i += 1;
    }
    proof {
        assert(commits@.subrange(0, commits@.len() as int) =~= commits@);
    }
    (reverts, fixes)
}

fn change_time_bounds(commits: &[StabilityCommit]) -> (r: (i64, i64))
    requires
        commits.len() > 0,
    ensures
        r.0 == earliest_change(commits@),
        r.1 == latest_change(commits@),
{
    let mut lo = commits[0].timestamp;
    let mut hi = commits[0].timestamp;
    let mut i: usize = 1;
    proof {
        assert(commits@.subrange(0, 1).len() == 1);
        assert(commits@.subrange(0, 1)[0] == commits@[0]);
    }
    while i < commits.len()
        invariant
            1 <= i <= commits.len(),
            lo == earliest_change(commits@.subrange(0, i as int)),
            hi == latest_change(commits@.subrange(0, i as int)),
        decreases commits.len() - i,
    {
        proof {
            let next = commits@.subrange(0, i + 1);
            assert(next.drop_last() =~= commits@.subrange(0, i as int));
            assert(next.last() == commits@[i as int]);
        }
        let t = commits[i].timestamp;
        if t <= lo {
            lo = t;
        }
        if t >= hi {
            hi = t;
        }
        i += 1;
    }
    proof {
        assert(commits@.subrange(0, commits@.len() as int) =~= commits@);
    }
    (lo, hi)
}

/// The stability figures of `path` from the commits that changed it, with
/// days since the last change counted at `now`. Where several authors made
/// the most changes, which of them is the primary author is left open.
pub fn calculate_file_stability(
    path: String,
    commits: &[StabilityCommit],
    now: i64,
) -> (r: StabilityCounts)
    requires
        stability_times_fit(commits@, now),
        stability_counts_fit(commits@),
    ensures
        is_file_stability(r, path@, commits@, now),
{
    let n = commits.len();
    let (names, counts) = tally_authors(commits);
    proof {
        let nv = names@.map_values(|x: String| x@);
        assert(nv.no_duplicates()) by {
            assert forall|a: int, b: int|
                0 <= a < nv.len() && 0 <= b < nv.len() && a != b implies nv[a] != nv[b] by {
                if a < b {
                    assert(names@[a]@ != names@[b]@);
                } else {
                    assert(names@[b]@ != names@[a]@);
                }
            }
        }
        nv.unique_seq_to_set();
        assert(nv.to_set() =~= commit_author_names(commits@).to_set()) by {
            assert forall|x: Seq<char>| nv.to_set().contains(x) implies commit_author_names(
                commits@,
            ).to_set().contains(x) by {
                let k = choose|k: int| 0 <= k < nv.len() && nv[k] == x;
                assert(names@[k]@ == x);
            }
            assert forall|x: Seq<char>|
                commit_author_names(commits@).to_set().contains(x) implies nv.to_set().contains(
                x,
            ) by {
                assert(commit_author_names(commits@).contains(x));
                let k = choose|k: int| 0 <= k < names.len() && #[trigger] names@[k]@ == x;
                assert(nv[k] == x);
            }
        }
    }
    let (reverts, fixes) = count_reverts_and_fixes(commits);
    #[verifier::truncate]
    let changes = n as u32;
    #[verifier::truncate]
    let authors = names.len() as u32;
    #[verifier::truncate]
    let reverts = reverts as u32;
    #[verifier::truncate]
    let fixes = fixes as u32;
    if n == 0 {
        return StabilityCounts {
            path,
            changes,
            authors,
            reverts,
            fixes,
            span_days: 0,
            last_change_days_ago: 0,
            primary_author: String::from_str("Unknown"),
            primary_author_changes: 0,
        };
    }
    let (lo, hi) = change_time_bounds(commits);
    proof {
        lemma_latest_bounds(commits@);
        let a = choose|a: int| 0 <= a < commits@.len() && commits@[a].timestamp == latest_change(commits@);
        let b = choose|b: int| 0 <= b < commits@.len() && commits@[b].timestamp == earliest_change(commits@);
        assert(commits@[a].timestamp - commits@[b].timestamp <= i64::MAX);
        assert(i64::MIN <= now - commits@[a].timestamp <= i64::MAX);
    }
    let span_days: i64 = if n > 1 {
        (hi - lo) / 86_400
    } else {
        0
    };
    let ago: i64 = (now - hi) / 86_400;
    #[verifier::truncate]
    let last_change_days_ago = ago as u32;
    // The first author with the most changes.
    let mut best: usize = 0;
    let mut k: usize = 1;
    proof {
        assert(commit_author_names(commits@)[0] == commits@[0].author@);
        assert(commit_author_names(commits@).contains(commits@[0].author@));
        let j = choose|j: int| 0 <= j < names.len() && #[trigger] names@[j]@ == commits@[0].author@;
    }
    while k < counts.len()
        invariant
            names.len() == counts.len(),
            counts.len() > 0,
            best < counts.len(),
            1 <= k <= counts.len(),
            forall|j: int| 0 <= j < k ==> counts@[j] <= counts@[best as int],
        decreases counts.len() - k,
    {
        if counts[k] > counts[best] {
            best = k;
        }
        k += 1;
    }
    proof {
        assert forall|name: Seq<char>| #[trigger] changes_by(commits@, name) <= counts@[best as int] by {
            if commit_author_names(commits@).contains(name) {
                let j = choose|j: int| 0 <= j < names.len() && #[trigger] names@[j]@ == name;
                assert(counts@[j] == changes_by(commits@, names@[j]@));
            } else {
                lemma_changes_by_absent(commits@, name);
            }
        }
        assert(counts@[best as int] == changes_by(commits@, names@[best as int]@));
        assert(exists|j: int| 0 <= j < names.len() && #[trigger] names@[j]@ == names@[best as int]@);
    }
    StabilityCounts {
        path,
        changes,
        authors,
        reverts,
        fixes,
        span_days,
        last_change_days_ago,
        primary_author: names[best].clone(),
        primary_author_changes: counts[best],
    }
}

// ---------------------------------------------------------------------------
// Collecting the changes of each file from the commit history
// ---------------------------------------------------------------------------

/// One commit of the history, newest first, as the stability analysis reads
/// it: its time, author name and message where the commit has them, its
/// number of parents, and the paths that its diff against its first parent
/// (against the empty tree for a root commit) touches.
#[derive(Debug, Clone)]
pub struct StabilityRecord {
    pub ts: i64,
    pub author: Option<String>,
    pub message: Option<String>,
    pub parents: u32,
    pub paths: Vec<String>,
}

/// The changes of one file, in the order the history lists them.
#[derive(Debug, Clone)]
pub struct FileHistory {
    pub path: String,
    pub commits: Vec<StabilityCommit>,
}

/// What the analysis keeps of a commit.
pub open spec fn commit_view(c: StabilityCommit) -> (i64, Seq<char>, Seq<char>) {
    (c.timestamp, c.author@, c.message@)
}

pub open spec fn record_entry(r: StabilityRecord) -> (i64, Seq<char>, Seq<char>) {
    (
        r.ts,
        match r.author {
            Some(a) => a@,
            None => "Unknown"@,
        },
        match r.message {
            Some(m) => m@,
            None => ""@,
        },
    )
}

/// The walk stops at the first commit older than `since`: how many commits
/// it reads before that.
pub open spec fn stability_cut(r: Seq<StabilityRecord>, since: Option<i64>) -> nat
    decreases r.len(),
{
    if r.len() == 0 {
        0
    } else if stability_cut(r.drop_last(), since) < r.len() - 1 {
        stability_cut(r.drop_last(), since)
    } else if since matches Some(s) && r.last().ts < s {
        (r.len() - 1) as nat
    } else {
        r.len()
    }
}

/// Where the walk stops: every record it reads is not older than `since`,
/// and it stops at the first record that is (or at the end).
pub proof fn lemma_stability_walk_stops(r: Seq<StabilityRecord>, since: Option<i64>)
    ensures
        stability_cut(r, since) <= r.len(),
        forall|k: int|
            0 <= k < stability_cut(r, since) ==> !(since matches Some(s) && #[trigger] r[k].ts < s),
        stability_cut(r, since) < r.len() ==> (since matches Some(s) && r[stability_cut(r, since) as int].ts < s),
    decreases r.len(),
{
    if r.len() > 0 {
        let t = r.drop_last();
        lemma_stability_walk_stops(t, since);
        assert forall|k: int| 0 <= k < t.len() implies t[k] == r[k] by {}
        assert(r.last() == r[r.len() - 1]);
    }
}

/// A commit read by the walk is analysed when it is not newer than `until`,
/// its author's name contains the author filter (where one is given; a
/// commit without an author name is then skipped), and it is not a merge
/// where merges are excluded.
pub open spec fn record_accepted(
    r: StabilityRecord,
    until: Option<i64>,
    author_filter: Option<Seq<char>>,
    no_merges: bool,
) -> bool {
    &&& !(until matches Some(u) && r.ts > u)
    &&& match author_filter {
        None => true,
        Some(f) => match r.author {
            Some(a) => contains_seq(a@, f),
            None => false,
        },
    }
    &&& !(no_merges && r.parents > 1)
}

/// Which commits the stability analysis reads: none newer than `until`; with
/// an author filter, only those whose author name contains it (none without
/// an author name); with merges left out, only those with at most one
/// parent; and every other commit.
pub proof fn lemma_records_accepted(r: StabilityRecord, until: Option<i64>, f: Seq<char>)
    ensures
        record_accepted(r, None, None, false),
        until matches Some(u) && r.ts > u ==> !record_accepted(r, until, None, false),
        until matches Some(u) && r.ts <= u ==> record_accepted(r, until, None, false),
        r.author is None ==> !record_accepted(r, None, Some(f), false),
        r.author matches Some(a) ==> (record_accepted(r, None, Some(f), false) <==> contains_seq(
            a@,
            f,
        )),
        record_accepted(r, None, None, true) <==> r.parents <= 1,
{
}

/// A touched path is analysed when it lies under the directory filter
/// (where one is given) and is not a binary or non-code path.
pub open spec fn path_kept(p: Seq<char>, dir_filter: Option<Seq<char>>) -> bool {
    (dir_filter matches Some(d) ==> starts_with(p, d)) && !is_non_code_path(p)
}

/// How often `p` occurs, kept, among `paths`.
pub open spec fn kept_occurrences(
    paths: Seq<String>,
    p: Seq<char>,
    dir_filter: Option<Seq<char>>,
) -> nat
    decreases paths.len(),
{
    if paths.len() == 0 {
        0
    } else {
        kept_occurrences(paths.drop_last(), p, dir_filter) + if paths.last()@ == p && path_kept(
            p,
            dir_filter,
        ) {
            1nat
        } else {
            0nat
        }
    }
}

pub open spec fn repeat_entry(
    e: (i64, Seq<char>, Seq<char>),
    n: nat,
) -> Seq<(i64, Seq<char>, Seq<char>)> {
    Seq::new(n, |_i: int| e)
}

/// The changes of `p` over the records `r`, oldest record last.
pub open spec fn file_history(
    r: Seq<StabilityRecord>,
    p: Seq<char>,
    until: Option<i64>,
    author_filter: Option<Seq<char>>,
    dir_filter: Option<Seq<char>>,
    no_merges: bool,
) -> Seq<(i64, Seq<char>, Seq<char>)>
    decreases r.len(),
{
    if r.len() == 0 {
        Seq::empty()
    } else {
        file_history(r.drop_last(), p, until, author_filter, dir_filter, no_merges) + if record_accepted(
            r.last(),
            until,
            author_filter,
            no_merges,
        ) {
            repeat_entry(record_entry(r.last()), kept_occurrences(r.last().paths@, p, dir_filter))
        } else {
            Seq::empty()
        }
    }
}

pub open spec fn opt_view(o: Option<&str>) -> Option<Seq<char>> {
    match o {
        Some(s) => Some(s@),
        None => None,
    }
}

/// `h` holds one entry per path whose change list `f` gives as non-empty,
/// each with exactly that list.
pub open spec fn table_matches(
    h: Seq<FileHistory>,
    f: spec_fn(Seq<char>) -> Seq<(i64, Seq<char>, Seq<char>)>,
) -> bool {
    &&& forall|i: int, j: int|
        #![trigger h[i], h[j]]
        0 <= i < j < h.len() ==> h[i].path@ != h[j].path@
    &&& forall|i: int|
        #![trigger h[i]]
        0 <= i < h.len() ==> h[i].commits@.len() > 0 && h[i].commits@.map_values(
            |c: StabilityCommit| commit_view(c),
        ) == f(h[i].path@)
    &&& forall|p: Seq<char>|
        #[trigger] f(p).len() > 0 ==> exists|i: int| 0 <= i < h.len() && h[i].path@ == p
}

/// `h` holds, for each file changed in the records `r`, its full change
/// list, each file once.
pub open spec fn is_history_table(
    h: Seq<FileHistory>,
    r: Seq<StabilityRecord>,
    until: Option<i64>,
    author_filter: Option<Seq<char>>,
    dir_filter: Option<Seq<char>>,
    no_merges: bool,
) -> bool {
    table_matches(
        h,
        |p: Seq<char>| file_history(r, p, until, author_filter, dir_filter, no_merges),
    )
}

proof fn lemma_cut_settles(r: Seq<StabilityRecord>, k: int, since: Option<i64>)
    requires
        0 <= k <= r.len(),
        stability_cut(r.subrange(0, k), since) < k,
    ensures
        stability_cut(r, since) == stability_cut(r.subrange(0, k), since),
    decreases r.len(),
{
    if k < r.len() {
        let t = r.drop_last();
        assert(t.subrange(0, k) =~= r.subrange(0, k));
        lemma_cut_settles(t, k, since);
    } else {
        assert(r.subrange(0, k) =~= r);
    }
}

fn stability_entry(rec: &StabilityRecord) -> (c: StabilityCommit)
    ensures
        commit_view(c) == record_entry(*rec),
{
    let author = match &rec.author {
        Some(a) => a.clone(),
        None => String::from_str("Unknown"),
    };
    let message = match &rec.message {
        Some(m) => m.clone(),
        None => String::from_str(""),
    };
    StabilityCommit { timestamp: rec.ts, author, message }
}

fn locate_history(h: &Vec<FileHistory>, path: &String) -> (r: Option<usize>)
    ensures
        match r {
            Some(k) => k < h.len() && h@[k as int].path@ == path@,
            None => forall|k: int| 0 <= k < h.len() ==> h@[k].path@ != path@,
        },
{
    let mut k: usize = 0;
    while k < h.len()
        invariant
            k <= h.len(),
            forall|j: int| 0 <= j < k ==> h@[j].path@ != path@,
        decreases h.len() - k,
    {
        if h[k].path == *path {
            return Some(k);
        }
        k += 1;
    }
    None
}

/// Adds one change of `path` to the table: the table matched `f`, and
/// afterwards matches `f` with the change appended to `path`'s list.
fn append_change(
    h: &mut Vec<FileHistory>,
    path: &String,
    c: StabilityCommit,
    f: Ghost<spec_fn(Seq<char>) -> Seq<(i64, Seq<char>, Seq<char>)>>,
    g: Ghost<spec_fn(Seq<char>) -> Seq<(i64, Seq<char>, Seq<char>)>>,
)
    requires
        table_matches(old(h)@, f@),
        g@(path@) == f@(path@).push(commit_view(c)),
        forall|q: Seq<char>| q != path@ ==> #[trigger] g@(q) == f@(q),
    ensures
        table_matches(final(h)@, g@),
{
    let ghost before = h@;
    match locate_history(h, path) {
        Some(k) => {
            let mut e = h.remove(k);
            let ghost removed = h@;
            let ghost old_list = e.commits@;
            e.commits.push(c);
            proof {
                assert(e.commits@.map_values(|x: StabilityCommit| commit_view(x)) =~= old_list.map_values(
                    |x: StabilityCommit| commit_view(x),
                ).push(commit_view(c)));
            }
            h.insert(k, e);
            proof {
                assert forall|i: int| 0 <= i < h@.len() && i != k implies #[trigger] h@[i] == before[i] by {
                    if i < k {
                        assert(h@[i] == removed[i]);
                    } else {
                        assert(h@[i] == removed[i - 1]);
                    }
                }
                assert forall|p: Seq<char>| #[trigger] g@(p).len() > 0 implies exists|i: int|
                    0 <= i < h@.len() && h@[i].path@ == p by {
                    if p == path@ {
                        assert(h@[k as int].path@ == p);
                    } else {
                        let i = choose|i: int| 0 <= i < before.len() && before[i].path@ == p;
                        assert(h@[i] == before[i]);
                    }
                }
            }
        },
        None => {
            let mut list: Vec<StabilityCommit> = Vec::new();
            list.push(c);
            proof {
                assert(f@(path@).len() == 0);
                assert(list@.map_values(|x: StabilityCommit| commit_view(x)) =~= f@(path@).push(commit_view(c)));
            }
            h.push(FileHistory { path: path.clone(), commits: list });
            proof {
                assert forall|p: Seq<char>| #[trigger] g@(p).len() > 0 implies exists|i: int|
                    0 <= i < h@.len() && h@[i].path@ == p by {
                    if p == path@ {
                        assert(h@[before.len() as int].path@ == p);
                    } else {
                        let i = choose|i: int| 0 <= i < before.len() && before[i].path@ == p;
                        assert(h@[i] == before[i]);
                    }
                }
            }
        },
    }
}

/// Files one record's kept paths into the table built over the records
/// before it.
#[verifier::rlimit(40)]
fn absorb_record(
    h: &mut Vec<FileHistory>,
    records: &[StabilityRecord],
    i: usize,
    until: Option<i64>,
    author_filter: Option<&str>,
    dir_filter: Option<&str>,
    no_merges: bool,
)
    requires
        i < records.len(),
        is_history_table(
            old(h)@,
            records@.subrange(0, i as int),
            until,
            opt_view(author_filter),
            opt_view(dir_filter),
            no_merges,
        ),
    ensures
        is_history_table(
            final(h)@,
            records@.subrange(0, i + 1),
            until,
            opt_view(author_filter),
            opt_view(dir_filter),
            no_merges,
        ),
{
    let ghost af = opt_view(author_filter);
    let ghost df = opt_view(dir_filter);
    let ghost prev = records@.subrange(0, i as int);
    let ghost next = records@.subrange(0, i + 1);
    let rec = &records[i];
    proof {
        assert(next.drop_last() =~= prev);
        assert(next.last() == *rec);
    }
    let newer = match until {
        Some(u) => rec.ts > u,
        None => false,
    };
    let author_ok = match author_filter {
        None => true,
        Some(f) => match &rec.author {
            Some(a) => str_contains(a.as_str(), f),
            None => false,
        },
    };
    let accepted = !newer && author_ok && !(no_merges && rec.parents > 1);
    if !accepted {
        proof {
            let f1 = |q: Seq<char>| file_history(prev, q, until, af, df, no_merges);
            let f2 = |q: Seq<char>| file_history(next, q, until, af, df, no_merges);
            assert forall|q: Seq<char>| #[trigger] f1(q) == f2(q) by {
                assert(file_history(next, q, until, af, df, no_merges) =~= file_history(
                    prev,
                    q,
                    until,
                    af,
                    df,
                    no_merges,
                ));
            }
            assert(f1 =~= f2);
        }
        return ;
    }
    let ghost e = record_entry(*rec);
    let mut j: usize = 0;
    proof {
        let f0 = |q: Seq<char>| file_history(prev, q, until, af, df, no_merges);
        let f1 = |q: Seq<char>|
            file_history(prev, q, until, af, df, no_merges) + repeat_entry(
                e,
                kept_occurrences(rec.paths@.subrange(0, 0), q, df),
            );
        assert forall|q: Seq<char>| #[trigger] f0(q) == f1(q) by {
            assert(kept_occurrences(rec.paths@.subrange(0, 0), q, df) == 0);
            assert(f1(q) =~= f0(q));
        }
        assert(f0 =~= f1);
    }
    while j < rec.paths.len()
        invariant
            i < records.len(),
            *rec == records@[i as int],
            e == record_entry(*rec),
            df == opt_view(dir_filter),
            af == opt_view(author_filter),
            prev == records@.subrange(0, i as int),
            j <= rec.paths.len(),
            table_matches(
                h@,
                |q: Seq<char>|
                    file_history(prev, q, until, af, df, no_merges) + repeat_entry(
                        e,
                        kept_occurrences(rec.paths@.subrange(0, j as int), q, df),
                    ),
            ),
        decreases rec.paths.len() - j,
    {
        let path = &rec.paths[j];
        let ghost f = |q: Seq<char>|
            file_history(prev, q, until, af, df, no_merges) + repeat_entry(
                e,
                kept_occurrences(rec.paths@.subrange(0, j as int), q, df),
            );
        let ghost g = |q: Seq<char>|
            file_history(prev, q, until, af, df, no_merges) + repeat_entry(
                e,
                kept_occurrences(rec.paths@.subrange(0, j + 1), q, df),
            );
        proof {
            assert(rec.paths@.subrange(0, j + 1).drop_last() =~= rec.paths@.subrange(0, j as int));
            assert(rec.paths@.subrange(0, j + 1).last() == *path);
        }
        let under_dir = match dir_filter {
            None => true,
            Some(d) => str_starts_with(path.as_str(), d),
        };
        let kept = under_dir && !is_likely_binary_or_non_code(path.as_str());
        proof {
            assert(path_kept(path@, df) == kept);
        }
        if kept {
            let c = stability_entry(rec);
            proof {
                assert forall|q: Seq<char>| q != path@ implies #[trigger] g(q) == f(q) by {}
                let n = kept_occurrences(rec.paths@.subrange(0, j as int), path@, df);
                assert(kept_occurrences(rec.paths@.subrange(0, j + 1), path@, df) == n + 1);
                assert(repeat_entry(e, n + 1) =~= repeat_entry(e, n).push(e));
                assert(commit_view(c) == e);
                assert(g(path@) =~= f(path@).push(commit_view(c)));
            }
            append_change(h, path, c, Ghost(f), Ghost(g));
        } else {
            proof {
                assert forall|q: Seq<char>| #[trigger] f(q) == g(q) by {
                    assert(kept_occurrences(rec.paths@.subrange(0, j + 1), q, df)
                        == kept_occurrences(rec.paths@.subrange(0, j as int), q, df));
                }
                assert(f =~= g);
            }
        }
        j += 1;
    }
    proof {
        let f1 = |q: Seq<char>|
            file_history(prev, q, until, af, df, no_merges) + repeat_entry(
                e,
                kept_occurrences(rec.paths@.subrange(0, rec.paths@.len() as int), q, df),
            );
        let f2 = |q: Seq<char>| file_history(next, q, until, af, df, no_merges);
        assert(rec.paths@.subrange(0, rec.paths@.len() as int) =~= rec.paths@);
        assert forall|q: Seq<char>| #[trigger] f1(q) == f2(q) by {}
        assert(f1 =~= f2);
    }
}

/// The change list of every file over the history `records` (newest
/// first): the walk stops at the first commit older than `since`, skips
/// commits newer than `until`, commits whose author name does not contain
/// `author_filter`, and merges where `no_merges`; of each remaining commit
/// it keeps the paths under `dir_filter` that are not binary or non-code.
/// The order of the files is left open.
pub fn collect_file_histories(
    records: &[StabilityRecord],
    since: Option<i64>,
    until: Option<i64>,
    author_filter: Option<&str>,
    dir_filter: Option<&str>,
    no_merges: bool,
) -> (h: Vec<FileHistory>)
    ensures
        is_history_table(
            h@,
            records@.subrange(0, stability_cut(records@, since) as int),
            until,
            opt_view(author_filter),
            opt_view(dir_filter),
            no_merges,
        ),
        forall|i: int|
            #![trigger h@[i]]
            0 <= i < h@.len() ==> !is_non_code_path(h@[i].path@) && (dir_filter matches Some(d)
                ==> starts_with(h@[i].path@, d@)),
{
    let mut h: Vec<FileHistory> = Vec::new();
    let mut i: usize = 0;
    proof {
        let f = |q: Seq<char>|
            file_history(
                records@.subrange(0, 0),
                q,
                until,
                opt_view(author_filter),
                opt_view(dir_filter),
                no_merges,
            );
        assert forall|q: Seq<char>| #[trigger] f(q).len() == 0 by {}
        assert(stability_cut(records@.subrange(0, 0), since) == 0);
        assert(records@.subrange(0, records@.len() as int) =~= records@);
    }
    while i < records.len()
        invariant_except_break
            i <= records.len(),
            stability_cut(records@.subrange(0, i as int), since) == i,
            records@.subrange(0, records@.len() as int) == records@,
            is_history_table(
                h@,
                records@.subrange(0, i as int),
                until,
                opt_view(author_filter),
                opt_view(dir_filter),
                no_merges,
            ),
        ensures
            i <= records.len(),
            stability_cut(records@, since) == i,
            is_history_table(
                h@,
                records@.subrange(0, i as int),
                until,
                opt_view(author_filter),
                opt_view(dir_filter),
                no_merges,
            ),
        decreases records.len() - i,
    {
        proof {
            let next = records@.subrange(0, i + 1);
            assert(next.drop_last() =~= records@.subrange(0, i as int));
            assert(next.last() == records@[i as int]);
        }
        let stop = match since {
            Some(s) => records[i].ts < s,
            None => false,
        };
        if stop {
            proof {
                lemma_cut_settles(records@, i + 1, since);
            }
            break;
        }
        absorb_record(&mut h, records, i, until, author_filter, dir_filter, no_merges);
        i += 1;
    }
    proof {
        let cut = records@.subrange(0, stability_cut(records@, since) as int);
        assert forall|k: int|
            #![trigger h@[k]]
            0 <= k < h@.len() implies !is_non_code_path(h@[k].path@) && (dir_filter matches Some(d)
                ==> starts_with(h@[k].path@, d@)) by {
            if !path_kept(h@[k].path@, opt_view(dir_filter)) {
                lemma_history_only_kept(
                    cut,
                    h@[k].path@,
                    until,
                    opt_view(author_filter),
                    opt_view(dir_filter),
                    no_merges,
                );
                assert(h@[k].commits@.map_values(|c: StabilityCommit| commit_view(c)).len() == 0);
            }
        }
    }
    h
}

/// The stability figures of each file, in the order of `histories`, with
/// days since the last change counted at `now`.
pub fn stability_figures(histories: &[FileHistory], now: i64) -> (r: Vec<StabilityCounts>)
    requires
        forall|i: int|
            0 <= i < histories.len() ==> stability_times_fit(#[trigger] histories@[i].commits@, now)
                && stability_counts_fit(histories@[i].commits@),
    ensures
        r.len() == histories.len(),
        forall|i: int|
            0 <= i < r.len() ==> is_file_stability(
                #[trigger] r@[i],
                histories@[i].path@,
                histories@[i].commits@,
                now,
            ),
{
    let mut r: Vec<StabilityCounts> = Vec::new();
    let mut i: usize = 0;
    while i < histories.len()
        invariant
            i <= histories.len(),
            r.len() == i,
            forall|k: int|
                0 <= k < histories.len() ==> stability_times_fit(
                    #[trigger] histories@[k].commits@,
                    now,
                ) && stability_counts_fit(histories@[k].commits@),
            forall|k: int|
                0 <= k < i ==> is_file_stability(
                    #[trigger] r@[k],
                    histories@[k].path@,
                    histories@[k].commits@,
                    now,
                ),
        decreases histories.len() - i,
    {
        let h = &histories[i];
        let figures = calculate_file_stability(h.path.clone(), h.commits.as_slice(), now);
        r.push(figures);
        i += 1;
    }
    r
}

} // verus!
