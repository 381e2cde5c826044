//! Include and exclude path globs, and which commits and file changes pass
//! them. The globs are compiled and matched by the `globset` crate.
use vstd::prelude::*;

use crate::stats::{in_window, within_window};

verus! {

#[verifier::external_type_specification]
#[verifier::external_body]
pub struct ExGlobSet(globset::GlobSet);

/// `Clone` of `globset::GlobSet`, derived there. Trusted: the clone is the
/// same set.
pub assume_specification[ <globset::GlobSet as Clone>::clone ](g: &globset::GlobSet) -> (r:
    globset::GlobSet)
    ensures
        r == *g,
;

/// Whether `globset` accepts the pattern (built with `literal_separator`,
/// so that `*` does not cross a `/`), named rather than written out.
pub uninterp spec fn spec_glob_compiles(pattern: Seq<char>) -> bool;

/// Whether the compiled pattern matches the path, named rather than written
/// out.
pub uninterp spec fn spec_glob_matches(pattern: Seq<char>, path: Seq<char>) -> bool;

/// `globset::GlobBuilder::new(pattern).literal_separator(true).build()`,
/// added alone to a `GlobSetBuilder` and built. Trusted: whether it succeeds
/// is a function of the pattern alone, named `spec_glob_compiles`; the
/// error comes back as its message.
#[verifier::external_body]
fn compile_glob(pattern: &str) -> (r: Result<globset::GlobSet, String>)
    ensures
        r is Ok <==> spec_glob_compiles(pattern@),
{
    let glob = match globset::GlobBuilder::new(pattern).literal_separator(true).build() {
        Ok(g) => g,
        Err(e) => return Err(e.to_string()),
    };
    let mut builder = globset::GlobSetBuilder::new();
    builder.add(glob);
    builder.build().map_err(|e| e.to_string())
}

/// A compiled glob, with the pattern it was compiled from.
#[derive(Debug, Clone)]
pub struct CompiledGlob {
    pattern: String,
    set: globset::GlobSet,
}

impl View for CompiledGlob {
    type V = Seq<char>;

    closed spec fn view(&self) -> Seq<char> {
        self.pattern@
    }
}

/// `globset::GlobSet::is_match` on the path. Trusted: the answer is a
/// function of the pattern the set was compiled from and of the path,
/// named `spec_glob_matches`.
#[verifier::external_body]
fn glob_set_matches(g: &CompiledGlob, path: &str) -> (b: bool)
    ensures
        b == spec_glob_matches(g@, path@),
{
    g.set.is_match(std::path::Path::new(path))
}

impl CompiledGlob {
    /// Compiles `pattern`, or gives the glob library's message.
    pub fn compile(pattern: &str) -> (r: Result<CompiledGlob, String>)
        ensures
            r is Ok <==> spec_glob_compiles(pattern@),
            r matches Ok(g) ==> g@ == pattern@,
    {
        match compile_glob(pattern) {
            Ok(set) => Ok(CompiledGlob { pattern: String::from_str(pattern), set }),
            Err(e) => Err(e),
        }
    }

    /// Whether the glob matches `path`.
    pub fn is_match(&self, path: &str) -> (b: bool)
        ensures
            b == spec_glob_matches(self@, path@),
    {
        glob_set_matches(self, path)
    }
}

/// Why path filters could not be built.
#[derive(Debug, Clone)]
pub enum PathFilterError {
    /// The pattern is no valid glob; the glob library's message.
    InvalidGlob(String),
}

/// The compiled include and exclude globs of an analysis.
#[derive(Debug, Clone)]
pub struct CompiledPathFilters {
    include_set: Option<CompiledGlob>,
    exclude_set: Option<CompiledGlob>,
}

pub open spec fn opt_glob_view(o: Option<CompiledGlob>) -> Option<Seq<char>> {
    match o {
        Some(g) => Some(g@),
        None => None,
    }
}

pub open spec fn opt_pattern_view(o: Option<&str>) -> Option<Seq<char>> {
    match o {
        Some(s) => Some(s@),
        None => None,
    }
}

/// A path passes unless it matches the exclude glob, or an include glob is
/// given that it does not match.
pub open spec fn path_passes(
    include_glob: Option<Seq<char>>,
    exclude_glob: Option<Seq<char>>,
    path: Seq<char>,
) -> bool {
    &&& !(exclude_glob matches Some(x) && spec_glob_matches(x, path))
    &&& include_glob matches Some(i) ==> spec_glob_matches(i, path)
}

/// The filters: with none given every path passes; a path the exclude glob
/// matches never passes, even where the include glob matches it too; with
/// an include glob only the paths it matches can pass.
pub proof fn lemma_filters_decide(include_glob: Option<Seq<char>>, exclude_glob: Option<Seq<char>>, path: Seq<char>)
    ensures
        path_passes(None, None, path),
        exclude_glob matches Some(x) && spec_glob_matches(x, path) ==> !path_passes(
            include_glob,
            exclude_glob,
            path,
        ),
        include_glob matches Some(i) && !spec_glob_matches(i, path) ==> !path_passes(
            include_glob,
            exclude_glob,
            path,
        ),
        include_glob matches Some(i) && spec_glob_matches(i, path) && exclude_glob is None
            ==> path_passes(include_glob, exclude_glob, path),
        exclude_glob matches Some(x) && !spec_glob_matches(x, path) && include_glob is None
            ==> path_passes(include_glob, exclude_glob, path),
{
}

pub open spec fn pattern_compiles(p: Option<Seq<char>>) -> bool {
    p matches Some(s) ==> spec_glob_compiles(s)
}

fn compile_optional(pattern: Option<&str>) -> (r: Result<Option<CompiledGlob>, PathFilterError>)
    ensures
        r is Ok <==> pattern_compiles(opt_pattern_view(pattern)),
        r matches Ok(g) ==> opt_glob_view(g) == opt_pattern_view(pattern),
{
    match pattern {
        None => Ok(None),
        Some(p) => match CompiledGlob::compile(p) {
            Ok(g) => Ok(Some(g)),
            Err(e) => Err(PathFilterError::InvalidGlob(e)),
        },
    }
}

impl CompiledPathFilters {
    pub closed spec fn include_pattern(&self) -> Option<Seq<char>> {
        opt_glob_view(self.include_set)
    }

    pub closed spec fn exclude_pattern(&self) -> Option<Seq<char>> {
        opt_glob_view(self.exclude_set)
    }

    /// Compiles the include and exclude patterns; the include pattern's error
    /// comes first.
    pub fn from_patterns(include_glob: Option<&str>, exclude_glob: Option<&str>) -> (r: Result<
        CompiledPathFilters,
        PathFilterError,
    >)
        ensures
            r is Ok <==> pattern_compiles(opt_pattern_view(include_glob)) && pattern_compiles(
                opt_pattern_view(exclude_glob),
            ),
            r matches Ok(f) ==> f.include_pattern() == opt_pattern_view(include_glob)
                && f.exclude_pattern() == opt_pattern_view(exclude_glob),
    {
        let include_set = match compile_optional(include_glob) {
            Ok(g) => g,
            Err(e) => return Err(e),
        };
        let exclude_set = match compile_optional(exclude_glob) {
            Ok(g) => g,
            Err(e) => return Err(e),
        };
        Ok(CompiledPathFilters { include_set, exclude_set })
    }

    /// Compiles the patterns of an analysis's options.
    pub fn from_context(ctx: &crate::stats::StatsContext) -> (r: Result<
        CompiledPathFilters,
        PathFilterError,
    >)
        ensures
            r is Ok <==> pattern_compiles(opt_string_view(ctx.include_pattern)) && pattern_compiles(
                opt_string_view(ctx.exclude_pattern),
            ),
            r matches Ok(f) ==> f.include_pattern() == opt_string_view(ctx.include_pattern)
                && f.exclude_pattern() == opt_string_view(ctx.exclude_pattern),
    {
        let inc: Option<&str> = match &ctx.include_pattern {
            Some(s) => Some(s.as_str()),
            None => None,
        };
        let exc: Option<&str> = match &ctx.exclude_pattern {
            Some(s) => Some(s.as_str()),
            None => None,
        };
        proof {
            assert(opt_pattern_view(inc) == opt_string_view(ctx.include_pattern));
            assert(opt_pattern_view(exc) == opt_string_view(ctx.exclude_pattern));
        }
        Self::from_patterns(inc, exc)
    }

    /// Whether any glob is given.
    pub fn is_active(&self) -> (b: bool)
        ensures
            b == (self.include_pattern() is Some || self.exclude_pattern() is Some),
    {
        self.include_set.is_some() || self.exclude_set.is_some()
    }

    /// Whether `path` passes the globs.
    pub fn matches(&self, path: &str) -> (b: bool)
        ensures
            b == path_passes(self.include_pattern(), self.exclude_pattern(), path@),
    {
        if let Some(ex) = &self.exclude_set {
            if ex.is_match(path) {
                return false;
            }
        }
        if let Some(inc) = &self.include_set {
            return inc.is_match(path);
        }
        true
    }
}

pub open spec fn opt_string_view(o: Option<String>) -> Option<Seq<char>> {
    match o {
        Some(s) => Some(s@),
        None => None,
    }
}

// ---------------------------------------------------------------------------
// Commits and file changes through the filters
// ---------------------------------------------------------------------------

/// One file of a commit's diff: its path (the new one, or the old one for a
/// deletion) and its added and deleted lines.
#[derive(Debug, Clone)]
pub struct FileChange {
    pub path: String,
    pub adds: u64,
    pub dels: u64,
}

/// How many files of a diff passed the filters, and their lines.
#[derive(Debug, Default, Clone, Copy, PartialEq, Eq, Structural)]
pub struct ScanOutcome {
    pub matched_files: usize,
    pub total_adds: u64,
    pub total_dels: u64,
}

pub open spec fn matched_files(
    c: Seq<FileChange>,
    inc: Option<Seq<char>>,
    exc: Option<Seq<char>>,
) -> nat
    decreases c.len(),
{
    if c.len() == 0 {
        0
    } else {
        matched_files(c.drop_last(), inc, exc) + if path_passes(inc, exc, c.last().path@) {
            1nat
        } else {
            0nat
        }
    }
}

pub open spec fn matched_adds(c: Seq<FileChange>, inc: Option<Seq<char>>, exc: Option<Seq<char>>) -> nat
    decreases c.len(),
{
    if c.len() == 0 {
        0
    } else {
        matched_adds(c.drop_last(), inc, exc) + if path_passes(inc, exc, c.last().path@) {
            c.last().adds as nat
        } else {
            0nat
        }
    }
}

pub open spec fn matched_dels(c: Seq<FileChange>, inc: Option<Seq<char>>, exc: Option<Seq<char>>) -> nat
    decreases c.len(),
{
    if c.len() == 0 {
        0
    } else {
        matched_dels(c.drop_last(), inc, exc) + if path_passes(inc, exc, c.last().path@) {
            c.last().dels as nat
        } else {
            0nat
        }
    }
}

/// The paths among `p` that pass the filters, in order.
pub open spec fn passing_paths(p: Seq<String>, inc: Option<Seq<char>>, exc: Option<Seq<char>>) -> Seq<
    Seq<char>,
>
    decreases p.len(),
{
    if p.len() == 0 {
        Seq::empty()
    } else {
        passing_paths(p.drop_last(), inc, exc) + if path_passes(inc, exc, p.last()@) {
            seq![p.last()@]
        } else {
            Seq::empty()
        }
    }
}

pub open spec fn path_views(p: Seq<String>) -> Seq<Seq<char>> {
    p.map_values(|s: String| s@)
}

proof fn lemma_matched_prefix(c: Seq<FileChange>, n: int, inc: Option<Seq<char>>, exc: Option<Seq<char>>)
    requires
        0 <= n <= c.len(),
    ensures
        matched_adds(c.subrange(0, n), inc, exc) <= matched_adds(c, inc, exc),
        matched_dels(c.subrange(0, n), inc, exc) <= matched_dels(c, inc, exc),
        matched_files(c.subrange(0, n), inc, exc) <= n,
    decreases c.len(),
{
    if n == c.len() {
        assert(c.subrange(0, n) =~= c);
        lemma_matched_files_bound(c, inc, exc);
    } else {
        let t = c.drop_last();
        assert(t.subrange(0, n) =~= c.subrange(0, n));
        lemma_matched_prefix(t, n, inc, exc);
    }
}

proof fn lemma_matched_files_bound(c: Seq<FileChange>, inc: Option<Seq<char>>, exc: Option<Seq<char>>)
    ensures
        matched_files(c, inc, exc) <= c.len(),
    decreases c.len(),
{
    if c.len() > 0 {
        lemma_matched_files_bound(c.drop_last(), inc, exc);
    }
}

/// The files of a diff that pass the filters: how many, and their lines.
pub fn scan_commit_changes(changes: &[FileChange], filters: &CompiledPathFilters) -> (o: ScanOutcome)
    requires
        matched_adds(changes@, filters.include_pattern(), filters.exclude_pattern()) <= u64::MAX,
        matched_dels(changes@, filters.include_pattern(), filters.exclude_pattern()) <= u64::MAX,
    ensures
        o.matched_files == matched_files(changes@, filters.include_pattern(), filters.exclude_pattern()),
        o.total_adds == matched_adds(changes@, filters.include_pattern(), filters.exclude_pattern()),
        o.total_dels == matched_dels(changes@, filters.include_pattern(), filters.exclude_pattern()),
{
    let ghost inc = filters.include_pattern();
    let ghost exc = filters.exclude_pattern();
    let mut o = ScanOutcome { matched_files: 0, total_adds: 0, total_dels: 0 };
    let mut i: usize = 0;
    while i < changes.len()
        invariant
            i <= changes.len(),
            inc == filters.include_pattern(),
            exc == filters.exclude_pattern(),
            matched_adds(changes@, inc, exc) <= u64::MAX,
            matched_dels(changes@, inc, exc) <= u64::MAX,
            o.matched_files == matched_files(changes@.subrange(0, i as int), inc, exc),
            o.total_adds == matched_adds(changes@.subrange(0, i as int), inc, exc),
            o.total_dels == matched_dels(changes@.subrange(0, i as int), inc, exc),
        decreases changes.len() - i,
    {
        proof {
            let next = changes@.subrange(0, i + 1);
            assert(next.drop_last() =~= changes@.subrange(0, i as int));
            assert(next.last() == changes@[i as int]);
            lemma_matched_prefix(changes@, i + 1, inc, exc);
        }
        let c = &changes[i];
        if filters.matches(c.path.as_str()) {
            o = ScanOutcome {
                matched_files: o.matched_files + 1,
                total_adds: o.total_adds + c.adds,
                total_dels: o.total_dels + c.dels,
            };
        }
        i += 1;
    }
    proof {
        assert(changes@.subrange(0, changes@.len() as int) =~= changes@);
    }
    o
}

/// Whether a commit touches a path that passes the filters; every commit
/// does where no filter is given.
pub fn commit_has_matching_paths(changes: &[FileChange], filters: &CompiledPathFilters) -> (b: bool)
    ensures
        b == (!(filters.include_pattern() is Some || filters.exclude_pattern() is Some) || exists|
            k: int,
        |
            0 <= k < changes@.len() && path_passes(
                filters.include_pattern(),
                filters.exclude_pattern(),
                #[trigger] changes@[k].path@,
            )),
{
    if !filters.is_active() {
        return true;
    }
    let mut i: usize = 0;
    while i < changes.len()
        invariant
            i <= changes.len(),
            forall|k: int|
                0 <= k < i ==> !path_passes(
                    filters.include_pattern(),
                    filters.exclude_pattern(),
                    #[trigger] changes@[k].path@,
                ),
        decreases changes.len() - i,
    {
        if filters.matches(changes[i].path.as_str()) {
            return true;
        }
        i += 1;
    }
    false
}

/// A commit's lines added and deleted: the whole diff's where no filter is
/// given; otherwise those of the files that pass, or `None` where none does.
pub fn compute_commit_churn(
    changes: &[FileChange],
    filters: &CompiledPathFilters,
    whole_adds: u64,
    whole_dels: u64,
) -> (r: Option<(u64, u64)>)
    requires
        matched_adds(changes@, filters.include_pattern(), filters.exclude_pattern()) <= u64::MAX,
        matched_dels(changes@, filters.include_pattern(), filters.exclude_pattern()) <= u64::MAX,
    ensures
        r == if !(filters.include_pattern() is Some || filters.exclude_pattern() is Some) {
            Some((whole_adds, whole_dels))
        } else if matched_files(changes@, filters.include_pattern(), filters.exclude_pattern()) == 0 {
            None
        } else {
            Some(
                (
                    matched_adds(changes@, filters.include_pattern(), filters.exclude_pattern()) as u64,
                    matched_dels(changes@, filters.include_pattern(), filters.exclude_pattern()) as u64,
                ),
            )
        },
{
    if !filters.is_active() {
        return Some((whole_adds, whole_dels));
    }
    let o = scan_commit_changes(changes, filters);
    if o.matched_files == 0 {
        None
    } else {
        Some((o.total_adds, o.total_dels))
    }
}

/// The paths a commit changed: where filters are given, those of its diff
/// that pass them; otherwise every file of its tree for a root commit, and
/// every path of its diff for any other.
pub fn collect_changed_paths(
    diff_paths: &[String],
    is_root: bool,
    tree_paths: &[String],
    filters: &CompiledPathFilters,
) -> (r: Vec<String>)
    ensures
        path_views(r@) == if filters.include_pattern() is Some || filters.exclude_pattern() is Some {
            passing_paths(diff_paths@, filters.include_pattern(), filters.exclude_pattern())
        } else if is_root {
            path_views(tree_paths@)
        } else {
            path_views(diff_paths@)
        },
{
    let active = filters.is_active();
    let ghost inc = filters.include_pattern();
    let ghost exc = filters.exclude_pattern();
    let source = if !active && is_root {
        tree_paths
    } else {
        diff_paths
    };
    let mut r: Vec<String> = Vec::new();
    let mut i: usize = 0;
    while i < source.len()
        invariant
            i <= source.len(),
            inc == filters.include_pattern(),
            exc == filters.exclude_pattern(),
            active == (inc is Some || exc is Some),
            path_views(r@) == if active {
                passing_paths(source@.subrange(0, i as int), inc, exc)
            } else {
                path_views(source@.subrange(0, i as int))
            },
        decreases source.len() - i,
    {
        let ghost before = r@;
        proof {
            let next = source@.subrange(0, i + 1);
            assert(next.drop_last() =~= source@.subrange(0, i as int));
            assert(next.last() == source@[i as int]);
            assert(path_views(next) =~= path_views(source@.subrange(0, i as int)).push(source@[i as int]@));
        }
        let p = &source[i];
        if !active || filters.matches(p.as_str()) {
            r.push(p.clone());
            proof {
                assert(path_views(r@) =~= path_views(before).push(p@));
            }
        }
        i += 1;
    }
    proof {
        assert(source@.subrange(0, source@.len() as int) =~= source@);
    }
    r
}

/// Whether a commit enters an analysis: merges are skipped where excluded,
/// the commit must lie in the window, and, where path filters are given, it
/// must touch a path that passes them.
pub fn passes_filters(
    ts: i64,
    parents: u32,
    since: Option<i64>,
    until: Option<i64>,
    no_merges: bool,
    filters_active: bool,
    has_matching_paths: bool,
) -> (b: bool)
    ensures
        b == (!(no_merges && parents > 1) && in_window(ts, since, until) && (filters_active
            ==> has_matching_paths)),
{
    if no_merges && parents > 1 {
        return false;
    }
    if !within_window(ts, since, until) {
        return false;
    }
    if filters_active && !has_matching_paths {
        return false;
    }
    true
}

} // verus!
