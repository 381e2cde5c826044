//! Code ownership: who last changed each file, and how many files and lines
//! each author owns.
use vstd::prelude::*;

use crate::sorting::{lemma_permutation_members, sort_ranked, sorted_by_rank, Ranked};
use crate::tally::{
    lemma_seq_total_insert, lemma_seq_total_permutation, lemma_seq_total_raise, seq_total,
};
use crate::text::{chars_of, ends_with, seq_ends_with, seq_starts_with, slice_to_vec, starts_with};

verus! {

/// How ownership was determined.
#[derive(Copy, Clone, Debug, PartialEq, Eq, Structural)]
pub enum OwnershipMode {
    LastModified,
    BlameAnalysis,
}

// ---------------------------------------------------------------------------
// Simple globs
// ---------------------------------------------------------------------------

/// How often `c` occurs in `s`.
pub open spec fn char_count(s: Seq<char>, c: char) -> nat
    decreases s.len(),
{
    if s.len() == 0 {
        0
    } else {
        char_count(s.drop_last(), c) + if s.last() == c {
            1nat
        } else {
            0nat
        }
    }
}

/// The position of the first `c` in `s`, or `s.len()`.
pub open spec fn first_index_of(s: Seq<char>, c: char) -> int
    decreases s.len(),
{
    if s.len() == 0 {
        0
    } else if first_index_of(s.drop_last(), c) < s.len() - 1 {
        first_index_of(s.drop_last(), c)
    } else if s.last() == c {
        s.len() - 1
    } else {
        s.len() as int
    }
}

/// The simple glob of the ownership filters: `*` matches everything; a
/// pattern with exactly one `*` matches a text that starts with what
/// precedes the star, ends with what follows it, and is at least as long as
/// the two together; any other pattern matches itself only.
pub open spec fn simple_glob(text: Seq<char>, pattern: Seq<char>) -> bool {
    if pattern == seq!['*'] {
        true
    } else if char_count(pattern, '*') == 1 {
        let k = first_index_of(pattern, '*');
        text.len() >= pattern.len() - 1 && starts_with(text, pattern.subrange(0, k)) && ends_with(
            text,
            pattern.subrange(k + 1, pattern.len() as int),
        )
    } else {
        text == pattern
    }
}

proof fn lemma_char_count_append(a: Seq<char>, b: Seq<char>, c: char)
    ensures
        char_count(a + b, c) == char_count(a, c) + char_count(b, c),
    decreases b.len(),
{
    if b.len() == 0 {
        assert(a + b =~= a);
    } else {
        assert((a + b).drop_last() =~= a + b.drop_last());
        assert((a + b).last() == b.last());
        lemma_char_count_append(a, b.drop_last(), c);
    }
}

proof fn lemma_char_count_absent(s: Seq<char>, c: char)
    requires
        !s.contains(c),
    ensures
        char_count(s, c) == 0,
    decreases s.len(),
{
    if s.len() > 0 {
        assert(s.drop_last().len() < s.len());
        assert forall|i: int| 0 <= i < s.drop_last().len() implies s.drop_last()[i] != c by {
            assert(s.drop_last()[i] == s[i]);
        }
        assert(s.last() == s[s.len() - 1]);
        lemma_char_count_absent(s.drop_last(), c);
    }
}

proof fn lemma_first_index_absent(s: Seq<char>, c: char)
    requires
        !s.contains(c),
    ensures
        first_index_of(s, c) == s.len(),
    decreases s.len(),
{
    if s.len() > 0 {
        assert forall|i: int| 0 <= i < s.drop_last().len() implies s.drop_last()[i] != c by {
            assert(s.drop_last()[i] == s[i]);
        }
        assert(s.last() == s[s.len() - 1]);
        lemma_first_index_absent(s.drop_last(), c);
    }
}

proof fn lemma_first_index_after(a: Seq<char>, b: Seq<char>, c: char)
    requires
        !a.contains(c),
        b.len() > 0,
        b[0] == c,
    ensures
        first_index_of(a + b, c) == a.len(),
    decreases b.len(),
{
    if b.len() == 1 {
        assert((a + b).drop_last() =~= a);
        lemma_first_index_absent(a, c);
        assert((a + b).last() == c);
    } else {
        assert((a + b).drop_last() =~= a + b.drop_last());
        lemma_first_index_after(a, b.drop_last(), c);
    }
}

/// The one-star glob: a pattern made of a part without `*`, one `*` and
/// another part without `*` matches exactly the texts that start with the
/// first part, end with the second, and are at least as long as the two
/// together (the lone `*` thus matches every text).
pub proof fn lemma_glob_one_star(text: Seq<char>, prefix: Seq<char>, suffix: Seq<char>)
    requires
        !prefix.contains('*'),
        !suffix.contains('*'),
    ensures
        simple_glob(text, prefix + seq!['*'] + suffix) <==> (text.len() >= prefix.len()
            + suffix.len() && text.subrange(0, prefix.len() as int) == prefix && text.subrange(
            text.len() - suffix.len(),
            text.len() as int,
        ) == suffix),
{
    let pattern = prefix + seq!['*'] + suffix;
    if prefix.len() == 0 && suffix.len() == 0 {
        assert(pattern =~= seq!['*']);
        assert(text.subrange(0, 0) =~= prefix);
        assert(text.subrange(text.len() as int, text.len() as int) =~= suffix);
    } else {
        assert(pattern != seq!['*']) by {
            assert(pattern.len() > 1);
        }
        lemma_char_count_append(prefix + seq!['*'], suffix, '*');
        lemma_char_count_append(prefix, seq!['*'], '*');
        lemma_char_count_absent(prefix, '*');
        lemma_char_count_absent(suffix, '*');
        assert(seq!['*'].drop_last() =~= Seq::<char>::empty());
        assert(seq!['*'].last() == '*');
        assert(char_count(Seq::<char>::empty(), '*') == 0);
        assert(char_count(seq!['*'], '*') == 1);
        assert(pattern =~= prefix + (seq!['*'] + suffix));
        lemma_first_index_after(prefix, seq!['*'] + suffix, '*');
        let k = prefix.len() as int;
        assert(pattern.subrange(0, k) =~= prefix);
        assert(pattern.subrange(k + 1, pattern.len() as int) =~= suffix);
    }
}

/// A pattern without `*` matches exactly itself.
pub proof fn lemma_glob_no_star(text: Seq<char>, pattern: Seq<char>)
    requires
        !pattern.contains('*'),
    ensures
        simple_glob(text, pattern) <==> text == pattern,
{
    lemma_char_count_absent(pattern, '*');
    if pattern == seq!['*'] {
        assert(pattern[0] == '*');
    }
}

/// Counts the stars of `p` and finds the first.
fn star_scan(p: &[char]) -> (r: (usize, usize))
    ensures
        r.0 == char_count(p@, '*'),
        r.1 == first_index_of(p@, '*'),
        r.1 <= p@.len(),
        r.1 < p@.len() ==> p@[r.1 as int] == '*',
        r.0 > 0 ==> r.1 < p@.len(),
{
    let mut count: usize = 0;
    let mut first: usize = 0;
    let mut i: usize = 0;
    while i < p.len()
        invariant
            i <= p.len(),
            count == char_count(p@.subrange(0, i as int), '*'),
            count <= i,
            first == first_index_of(p@.subrange(0, i as int), '*'),
            first <= i,
            first < i ==> p@[first as int] == '*',
            count > 0 ==> first < i,
        decreases p.len() - i,
    {
        proof {
            let next = p@.subrange(0, i + 1);
            assert(next.drop_last() =~= p@.subrange(0, i as int));
            assert(next.last() == p@[i as int]);
        }
        if p[i] == '*' {
            count += 1;
            if first == i {
                first = i;
            }
        } else if first == i {
            first = i + 1;
        }
        i += 1;
    }
    proof {
        assert(p@.subrange(0, p@.len() as int) =~= p@);
    }
    (count, first)
}

/// Whether `text` matches the simple glob `pattern`.
pub fn glob_match(text: &str, pattern: &str) -> (b: bool)
    ensures
        b == simple_glob(text@, pattern@),
{
    let t = chars_of(text);
    let p = chars_of(pattern);
    if p.len() == 1 && p[0] == '*' {
        proof {
            assert(p@ =~= seq!['*']);
        }
        return true;
    }
    proof {
        if p@ == seq!['*'] {
            assert(p@.len() == 1 && p@[0] == '*');
        }
    }
    let (stars, k) = star_scan(p.as_slice());
    if stars == 1 {
        let prefix = slice_to_vec(p.as_slice(), 0, k);
        let suffix = slice_to_vec(p.as_slice(), k + 1, p.len());
        return t.len() >= p.len() - 1 && seq_starts_with(t.as_slice(), prefix.as_slice())
            && seq_ends_with(
            t.as_slice(),
            suffix.as_slice(),
        );
    }
    if t.len() != p.len() {
        return false;
    }
    let mut i: usize = 0;
    while i < t.len()
        invariant
            i <= t.len(),
            t.len() == p.len(),
            t@ == text@,
            p@ == pattern@,
            p@ != seq!['*'],
            stars == char_count(p@, '*'),
            stars != 1,
            forall|j: int| 0 <= j < i ==> t@[j] == p@[j],
        decreases t.len() - i,
    {
        if t[i] != p[i] {
            assert(t@[i as int] != p@[i as int]);
            return false;
        }
        i += 1;
    }
    assert(t@ =~= p@);
    true
}

// ---------------------------------------------------------------------------
// Ownership by last modification
// ---------------------------------------------------------------------------

/// One commit of the history, newest first, as the ownership analysis reads
/// it: its time, its author's name where it has one, and the paths it
/// changed against its first parent (every file of its tree for a root
/// commit).
#[derive(Debug, Clone)]
pub struct OwnershipRecord {
    pub ts: i64,
    pub author: Option<String>,
    pub paths: Vec<String>,
}

/// Who changed a file last, and when.
#[derive(Debug, Clone)]
pub struct LastModified {
    pub path: String,
    pub author: String,
    pub time: i64,
}

/// The files of the fast ownership analysis, latest first, and how many
/// files the analysed commits touched.
#[derive(Debug, Clone)]
pub struct FastOwnership {
    pub files: Vec<LastModified>,
    pub total_files_seen: usize,
}

pub open spec fn owner_name(r: OwnershipRecord) -> Seq<char> {
    match r.author {
        Some(a) => a@,
        None => "(unknown)"@,
    }
}

/// The walk stops at the first commit older than `since`: how many commits
/// it reads before that.
pub open spec fn ownership_cut(r: Seq<OwnershipRecord>, since: Option<i64>) -> nat
    decreases r.len(),
{
    if r.len() == 0 {
        0
    } else if ownership_cut(r.drop_last(), since) < r.len() - 1 {
        ownership_cut(r.drop_last(), since)
    } else if since matches Some(s) && r.last().ts < s {
        (r.len() - 1) as nat
    } else {
        r.len()
    }
}

/// Where the walk stops: every record it reads is not older than `since`,
/// and it stops at the first record that is (or at the end).
pub proof fn lemma_ownership_walk_stops(r: Seq<OwnershipRecord>, since: Option<i64>)
    ensures
        ownership_cut(r, since) <= r.len(),
        forall|k: int|
            0 <= k < ownership_cut(r, since) ==> !(since matches Some(s) && #[trigger] r[k].ts < s),
        ownership_cut(r, since) < r.len() ==> (since matches Some(s) && r[ownership_cut(r, since) as int].ts < s),
    decreases r.len(),
{
    if r.len() > 0 {
        let t = r.drop_last();
        lemma_ownership_walk_stops(t, since);
        assert forall|k: int| 0 <= k < t.len() implies t[k] == r[k] by {}
        assert(r.last() == r[r.len() - 1]);
    }
}

/// A path is analysed unless it matches the exclude_glob glob, or an include_glob
/// glob is given that it does not match.
pub open spec fn path_selected(
    p: Seq<char>,
    include_glob: Option<Seq<char>>,
    exclude_glob: Option<Seq<char>>,
) -> bool {
    &&& !(exclude_glob matches Some(x) && simple_glob(p, x))
    &&& include_glob matches Some(i) ==> simple_glob(p, i)
}

/// The ownership globs: with none given every path is analysed; a path the
/// exclude glob matches never is, even where the include glob matches it;
/// with an include glob only the paths it matches can be; a path the
/// include glob matches and no exclude glob matches is.
pub proof fn lemma_path_selection(p: Seq<char>, include_glob: Option<Seq<char>>, exclude_glob: Option<Seq<char>>)
    ensures
        path_selected(p, None, None),
        exclude_glob matches Some(x) && simple_glob(p, x) ==> !path_selected(p, include_glob, exclude_glob),
        include_glob matches Some(i) && !simple_glob(p, i) ==> !path_selected(p, include_glob, exclude_glob),
        include_glob matches Some(i) && simple_glob(p, i) && !(exclude_glob matches Some(x)
            && simple_glob(p, x)) ==> path_selected(p, include_glob, exclude_glob),
{
}

pub open spec fn touches(r: OwnershipRecord, p: Seq<char>) -> bool {
    exists|j: int| 0 <= j < r.paths@.len() && #[trigger] r.paths@[j]@ == p
}

/// The author and time of the first record (the latest commit) not newer
/// than `until` that touches the selected path `p`.
pub open spec fn last_modifier(
    r: Seq<OwnershipRecord>,
    p: Seq<char>,
    until: Option<i64>,
    include_glob: Option<Seq<char>>,
    exclude_glob: Option<Seq<char>>,
) -> Option<(Seq<char>, i64)>
    decreases r.len(),
{
    if r.len() == 0 {
        None
    } else {
        match last_modifier(r.drop_last(), p, until, include_glob, exclude_glob) {
            Some(x) => Some(x),
            None => if !(until matches Some(u) && r.last().ts > u) && touches(r.last(), p)
                && path_selected(p, include_glob, exclude_glob) {
                Some((owner_name(r.last()), r.last().ts))
            } else {
                None
            },
        }
    }
}

/// `t` holds one entry per path to which `f` gives a last modifier, with it.
pub open spec fn owner_table(
    t: Seq<LastModified>,
    f: spec_fn(Seq<char>) -> Option<(Seq<char>, i64)>,
) -> bool {
    &&& forall|i: int, j: int|
        #![trigger t[i], t[j]]
        0 <= i < j < t.len() ==> t[i].path@ != t[j].path@
    &&& forall|i: int|
        #![trigger t[i]]
        0 <= i < t.len() ==> f(t[i].path@) == Some((t[i].author@, t[i].time))
    &&& forall|p: Seq<char>| #[trigger] f(p) is Some ==> exists|i: int| 0 <= i < t.len() && t[i].path@ == p
}

proof fn lemma_ownership_cut_settles(r: Seq<OwnershipRecord>, k: int, since: Option<i64>)
    requires
        0 <= k <= r.len(),
        ownership_cut(r.subrange(0, k), since) < k,
    ensures
        ownership_cut(r, since) == ownership_cut(r.subrange(0, k), since),
    decreases r.len(),
{
    if k < r.len() {
        let t = r.drop_last();
        assert(t.subrange(0, k) =~= r.subrange(0, k));
        lemma_ownership_cut_settles(t, k, since);
    } else {
        assert(r.subrange(0, k) =~= r);
    }
}

fn locate_owner(t: &Vec<LastModified>, path: &String) -> (r: bool)
    ensures
        r <==> exists|k: int| 0 <= k < t.len() && t@[k].path@ == path@,
{
    let mut k: usize = 0;
    while k < t.len()
        invariant
            k <= t.len(),
            forall|j: int| 0 <= j < k ==> t@[j].path@ != path@,
        decreases t.len() - k,
    {
        if t[k].path == *path {
            return true;
        }
        k += 1;
    }
    false
}

fn owner_of(r: &OwnershipRecord) -> (n: String)
    ensures
        n@ == owner_name(*r),
{
    match &r.author {
        Some(a) => a.clone(),
        None => String::from_str("(unknown)"),
    }
}

/// Files the paths of record `i` into the table built over the records
/// before it.
#[verifier::rlimit(40)]
fn absorb_ownership_record(
    t: &mut Vec<LastModified>,
    records: &[OwnershipRecord],
    i: usize,
    until: Option<i64>,
    include_glob: Option<&str>,
    exclude_glob: Option<&str>,
)
    requires
        i < records.len(),
        owner_table(
            old(t)@,
            |q: Seq<char>|
                last_modifier(
                    records@.subrange(0, i as int),
                    q,
                    until,
                    opt_str(include_glob),
                    opt_str(exclude_glob),
                ),
        ),
    ensures
        owner_table(
            final(t)@,
            |q: Seq<char>|
                last_modifier(records@.subrange(0, i + 1), q, until, opt_str(include_glob), opt_str(exclude_glob)),
        ),
{
    let ghost inc = opt_str(include_glob);
    let ghost exc = opt_str(exclude_glob);
    let ghost prev = records@.subrange(0, i as int);
    let ghost next = records@.subrange(0, i + 1);
    let rec = &records[i];
    proof {
        assert(next.drop_last() =~= prev);
        assert(next.last() == *rec);
    }
    let newer = match until {
        Some(u) => rec.ts > u,
        None => false,
    };
    if newer {
        proof {
            let f1 = |q: Seq<char>| last_modifier(prev, q, until, inc, exc);
            let f2 = |q: Seq<char>| last_modifier(next, q, until, inc, exc);
            assert forall|q: Seq<char>| #[trigger] f1(q) == f2(q) by {}
            assert(f1 =~= f2);
        }
        return ;
    }
    let owner = owner_of(rec);
    let mut j: usize = 0;
    proof {
        let f0 = |q: Seq<char>| last_modifier(prev, q, until, inc, exc);
        let f1 = |q: Seq<char>|
            match last_modifier(prev, q, until, inc, exc) {
                Some(x) => Some(x),
                None => if (exists|m: int| 0 <= m < 0 && #[trigger] rec.paths@[m]@ == q)
                    && path_selected(q, inc, exc) {
                    Some((owner@, rec.ts))
                } else {
                    None
                },
            };
        assert forall|q: Seq<char>| #[trigger] f0(q) == f1(q) by {}
        assert(f0 =~= f1);
    }
    while j < rec.paths.len()
        invariant
            i < records.len(),
            *rec == records@[i as int],
            owner@ == owner_name(*rec),
            !(until matches Some(u) && rec.ts > u),
            inc == opt_str(include_glob),
            exc == opt_str(exclude_glob),
            prev == records@.subrange(0, i as int),
            j <= rec.paths.len(),
            owner_table(
                t@,
                |q: Seq<char>|
                    match last_modifier(prev, q, until, inc, exc) {
                        Some(x) => Some(x),
                        None => if (exists|m: int| 0 <= m < j && #[trigger] rec.paths@[m]@ == q)
                            && path_selected(q, inc, exc) {
                            Some((owner@, rec.ts))
                        } else {
                            None
                        },
                    },
            ),
        decreases rec.paths.len() - j,
    {
        let path = &rec.paths[j];
        let ghost f = |q: Seq<char>|
            match last_modifier(prev, q, until, inc, exc) {
                Some(x) => Some(x),
                None => if (exists|m: int| 0 <= m < j && #[trigger] rec.paths@[m]@ == q)
                    && path_selected(q, inc, exc) {
                    Some((owner@, rec.ts))
                } else {
                    None
                },
            };
        let ghost g = |q: Seq<char>|
            match last_modifier(prev, q, until, inc, exc) {
                Some(x) => Some(x),
                None => if (exists|m: int| 0 <= m < j + 1 && #[trigger] rec.paths@[m]@ == q)
                    && path_selected(q, inc, exc) {
                    Some((owner@, rec.ts))
                } else {
                    None
                },
            };
        let excluded = match exclude_glob {
            Some(x) => glob_match(path.as_str(), x),
            None => false,
        };
        let included = match include_glob {
            Some(x) => glob_match(path.as_str(), x),
            None => true,
        };
        let selected = !excluded && included;
        proof {
            assert(selected == path_selected(path@, inc, exc));
            assert(rec.paths@[j as int]@ == path@);
        }
        let seen = locate_owner(t, path);
        if selected && !seen {
            let ghost before = t@;
            proof {
                assert(f(path@) is None);
                assert(g(path@) == Some((owner@, rec.ts)));
                assert forall|q: Seq<char>| q != path@ implies #[trigger] g(q) == f(q) by {
                    if (exists|m: int| 0 <= m < j + 1 && #[trigger] rec.paths@[m]@ == q) {
                        let m = choose|m: int| 0 <= m < j + 1 && #[trigger] rec.paths@[m]@ == q;
                        assert(m < j);
                    }
                }
            }
            t.push(LastModified { path: path.clone(), author: owner.clone(), time: rec.ts });
            proof {
                assert forall|k: int| #![trigger t@[k]] 0 <= k < t@.len() implies g(t@[k].path@)
                    == Some((t@[k].author@, t@[k].time)) by {
                    if k < before.len() {
                        assert(t@[k] == before[k]);
                    }
                }
                assert forall|q: Seq<char>| #[trigger] g(q) is Some implies exists|k: int|
                    0 <= k < t@.len() && t@[k].path@ == q by {
                    if q == path@ {
                        assert(t@[before.len() as int].path@ == q);
                    } else {
                        let k = choose|k: int| 0 <= k < before.len() && before[k].path@ == q;
                        assert(t@[k] == before[k]);
                    }
                }
            }
        } else {
            proof {
                assert forall|q: Seq<char>| #[trigger] f(q) == g(q) by {
                    if q == path@ {
                        if selected {
                            let k = choose|k: int| 0 <= k < t@.len() && t@[k].path@ == path@;
                            assert(f(q) is Some);
                        }
                    } else if (exists|m: int| 0 <= m < j + 1 && #[trigger] rec.paths@[m]@ == q) {
                        let m = choose|m: int| 0 <= m < j + 1 && #[trigger] rec.paths@[m]@ == q;
                        assert(m < j);
                    }
                }
                assert(f =~= g);
            }
        }
        j += 1;
    }
    proof {
        let f1 = |q: Seq<char>|
            match last_modifier(prev, q, until, inc, exc) {
                Some(x) => Some(x),
                None => if (exists|m: int| 0 <= m < rec.paths@.len() && #[trigger] rec.paths@[m]@ == q)
                    && path_selected(q, inc, exc) {
                    Some((owner@, rec.ts))
                } else {
                    None
                },
            };
        let f2 = |q: Seq<char>| last_modifier(next, q, until, inc, exc);
        assert forall|q: Seq<char>| #[trigger] f1(q) == f2(q) by {
            assert(touches(*rec, q) == (exists|m: int| 0 <= m < rec.paths@.len() && #[trigger] rec.paths@[m]@ == q));
        }
        assert(f1 =~= f2);
    }
}

pub open spec fn opt_str(o: Option<&str>) -> Option<Seq<char>> {
    match o {
        Some(s) => Some(s@),
        None => None,
    }
}

impl Ranked for LastModified {
    open spec fn precedes(&self, other: &Self) -> bool {
        self.time >= other.time
    }

    fn ranks_before(&self, other: &Self) -> (b: bool) {
        self.time >= other.time
    }

    proof fn lemma_total(a: &Self, b: &Self) {
    }

    proof fn lemma_transitive(a: &Self, b: &Self, c: &Self) {
    }
}

/// The latest-modification ranking: a file listed earlier was changed no
/// earlier than one listed later.
pub proof fn lemma_latest_first(r: Seq<LastModified>)
    requires
        sorted_by_rank(r),
    ensures
        forall|i: int, j: int| #![trigger r[i], r[j]] 0 <= i < j < r.len() ==> r[j].time <= r[i].time,
{
    assert forall|i: int, j: int| #![trigger r[i], r[j]] 0 <= i < j < r.len() implies r[j].time
        <= r[i].time by {
        assert(r[i].precedes(&r[j]));
    }
}

/// A record counts for `p` when it is not newer than `until`, touches `p`,
/// and `p` passes the globs.
pub open spec fn counts_for(
    r: OwnershipRecord,
    p: Seq<char>,
    until: Option<i64>,
    include_glob: Option<Seq<char>>,
    exclude_glob: Option<Seq<char>>,
) -> bool {
    !(until matches Some(u) && r.ts > u) && touches(r, p) && path_selected(p, include_glob, exclude_glob)
}

/// The last modifier of a path is the author and time of the first record
/// (newest first) that counts for it, and there is none exactly when no
/// record counts for it.
pub proof fn lemma_last_modifier_first(
    r: Seq<OwnershipRecord>,
    p: Seq<char>,
    until: Option<i64>,
    include_glob: Option<Seq<char>>,
    exclude_glob: Option<Seq<char>>,
)
    ensures
        last_modifier(r, p, until, include_glob, exclude_glob) is None <==> forall|k: int|
            0 <= k < r.len() ==> !counts_for(#[trigger] r[k], p, until, include_glob, exclude_glob),
        last_modifier(r, p, until, include_glob, exclude_glob) is Some ==> exists|k: int|
            0 <= k < r.len() && counts_for(#[trigger] r[k], p, until, include_glob, exclude_glob)
                && last_modifier(r, p, until, include_glob, exclude_glob) == Some(
                (owner_name(r[k]), r[k].ts),
            ) && forall|j: int|
                0 <= j < k ==> !counts_for(#[trigger] r[j], p, until, include_glob, exclude_glob),
    decreases r.len(),
{
    if r.len() > 0 {
        let t = r.drop_last();
        lemma_last_modifier_first(t, p, until, include_glob, exclude_glob);
        assert forall|k: int| 0 <= k < t.len() implies t[k] == r[k] by {}
        if last_modifier(t, p, until, include_glob, exclude_glob) is Some {
            let k = choose|k: int|
                0 <= k < t.len() && counts_for(#[trigger] t[k], p, until, include_glob, exclude_glob)
                    && last_modifier(t, p, until, include_glob, exclude_glob) == Some(
                    (owner_name(t[k]), t[k].ts),
                ) && forall|j: int|
                    0 <= j < k ==> !counts_for(#[trigger] t[j], p, until, include_glob, exclude_glob);
            assert(r[k] == t[k]);
            assert forall|j: int| 0 <= j < k implies !counts_for(#[trigger] r[j], p, until, include_glob, exclude_glob) by {
                assert(r[j] == t[j]);
            }
        } else {
            assert(r.last() == r[r.len() - 1]);
            assert forall|j: int| 0 <= j < r.len() - 1 implies !counts_for(#[trigger] r[j], p, until, include_glob, exclude_glob) by {
                assert(r[j] == t[j]);
            }
        }
    }
}

/// The paths that the records touch and the filters select.
pub open spec fn owned_paths(
    r: Seq<OwnershipRecord>,
    until: Option<i64>,
    include_glob: Option<Seq<char>>,
    exclude_glob: Option<Seq<char>>,
) -> Set<Seq<char>> {
    Set::new(|p: Seq<char>| last_modifier(r, p, until, include_glob, exclude_glob) is Some)
}

/// Who changed each file last over the history `records` (newest first):
/// the walk stops at the first commit older than `since` and skips commits
/// newer than `until`; paths matching `exclude_glob`, or not matching a
/// given `include_glob`, are left out. The `top_n` latest files are kept,
/// latest first (the order among files changed at the same second is left
/// open); the count of all files seen is returned beside them.
pub fn analyze_ownership_fast(
    records: &[OwnershipRecord],
    since: Option<i64>,
    until: Option<i64>,
    top_n: usize,
    include_glob: Option<&str>,
    exclude_glob: Option<&str>,
) -> (r: FastOwnership)
    ensures
        ({
            let seen = records@.subrange(0, ownership_cut(records@, since) as int);
            let inc = opt_str(include_glob);
            let exc = opt_str(exclude_glob);
            &&& r.total_files_seen == owned_paths(seen, until, inc, exc).len()
            &&& r.files@.len() == if top_n < r.total_files_seen {
                top_n
            } else {
                r.total_files_seen
            }
            &&& forall|i: int, j: int|
                #![trigger r.files@[i], r.files@[j]]
                0 <= i < j < r.files@.len() ==> r.files@[i].path@ != r.files@[j].path@
            &&& forall|i: int|
                #![trigger r.files@[i]]
                0 <= i < r.files@.len() ==> last_modifier(seen, r.files@[i].path@, until, inc, exc)
                    == Some((r.files@[i].author@, r.files@[i].time))
            &&& sorted_by_rank(r.files@)
            &&& forall|p: Seq<char>, i: int|
                #![trigger last_modifier(seen, p, until, inc, exc), r.files@[i]]
                0 <= i < r.files@.len() && last_modifier(seen, p, until, inc, exc) is Some && !(exists|
                    k: int,
                | 0 <= k < r.files@.len() && r.files@[k].path@ == p) ==> (last_modifier(
                    seen,
                    p,
                    until,
                    inc,
                    exc,
                )->0).1 <= r.files@[i].time
        }),
        forall|i: int, j: int|
            #![trigger r.files@[i], r.files@[j]]
            0 <= i < j < r.files@.len() ==> r.files@[j].time <= r.files@[i].time,
{
    let ghost inc = opt_str(include_glob);
    let ghost exc = opt_str(exclude_glob);
    let mut t: Vec<LastModified> = Vec::new();
    let mut i: usize = 0;
    proof {
        let f = |q: Seq<char>| last_modifier(records@.subrange(0, 0), q, until, inc, exc);
        assert forall|q: Seq<char>| #[trigger] f(q) is None by {}
        assert(ownership_cut(records@.subrange(0, 0), since) == 0);
        assert(records@.subrange(0, records@.len() as int) =~= records@);
    }
    while i < records.len()
        invariant_except_break
            i <= records.len(),
            inc == opt_str(include_glob),
            exc == opt_str(exclude_glob),
            ownership_cut(records@.subrange(0, i as int), since) == i,
            records@.subrange(0, records@.len() as int) == records@,
            owner_table(t@, |q: Seq<char>| last_modifier(records@.subrange(0, i as int), q, until, inc, exc)),
        ensures
            i <= records.len(),
            ownership_cut(records@, since) == i,
            owner_table(t@, |q: Seq<char>| last_modifier(records@.subrange(0, i as int), q, until, inc, exc)),
        decreases records.len() - i,
    {
        proof {
            let next = records@.subrange(0, i + 1);
            assert(next.drop_last() =~= records@.subrange(0, i as int));
            assert(next.last() == records@[i as int]);
        }
        let stop = match since {
            Some(s) => records[i].ts < s,
            None => false,
        };
        if stop {
            proof {
                lemma_ownership_cut_settles(records@, i + 1, since);
            }
            break;
        }
        absorb_ownership_record(&mut t, records, i, until, include_glob, exclude_glob);
        i += 1;
    }
    let ghost seen = records@.subrange(0, i as int);
    let ghost f = |q: Seq<char>| last_modifier(seen, q, until, inc, exc);
    let total = t.len();
    proof {
        assert(f =~= (|q: Seq<char>| last_modifier(records@.subrange(0, i as int), q, until, inc, exc)));
        assert(owner_table(t@, f));
        let pv = t@.map_values(|e: LastModified| e.path@);
        assert(pv.no_duplicates()) by {
            assert forall|a: int, b: int|
                0 <= a < pv.len() && 0 <= b < pv.len() && a != b implies pv[a] != pv[b] by {
                if a < b {
                    assert(t@[a].path@ != t@[b].path@);
                } else {
                    assert(t@[b].path@ != t@[a].path@);
                }
            }
        }
        pv.unique_seq_to_set();
        assert(pv.to_set() =~= owned_paths(seen, until, inc, exc)) by {
            assert forall|x: Seq<char>| pv.to_set().contains(x) implies owned_paths(
                seen,
                until,
                inc,
                exc,
            ).contains(x) by {
                let k = choose|k: int| 0 <= k < pv.len() && pv[k] == x;
                assert(t@[k].path@ == x);
            }
            assert forall|x: Seq<char>|
                owned_paths(seen, until, inc, exc).contains(x) implies pv.to_set().contains(x) by {
                assert(f(x) is Some);
                let k = choose|k: int| 0 <= k < t@.len() && t@[k].path@ == x;
                assert(pv[k] == x);
            }
        }
    }
    let ghost unsorted = t@;
    sort_ranked(&mut t);
    let ghost sorted = t@;
    proof {
        lemma_permutation_members(unsorted, sorted);
        lemma_permutation_members(sorted, unsorted);
    }
    t.truncate(top_n);
    proof {
        assert forall|a: int| #![trigger t@[a]] 0 <= a < t@.len() implies t@[a] == sorted[a] by {}
        assert forall|a: int, b: int|
            #![trigger t@[a], t@[b]]
            0 <= a < b < t@.len() implies t@[a].path@ != t@[b].path@ by {
            let p = choose|p: int| 0 <= p < unsorted.len() && unsorted[p] == sorted[a];
            let q = choose|q: int| 0 <= q < unsorted.len() && unsorted[q] == sorted[b];
            assert(unsorted.no_duplicates()) by {
                assert forall|x: int, y: int|
                    0 <= x < unsorted.len() && 0 <= y < unsorted.len() && x != y implies unsorted[x]
                    != unsorted[y] by {
                    if x < y {
                        assert(unsorted[x].path@ != unsorted[y].path@);
                    } else {
                        assert(unsorted[y].path@ != unsorted[x].path@);
                    }
                }
            }
            if p != q {
                if p < q {
                    assert(unsorted[p].path@ != unsorted[q].path@);
                } else {
                    assert(unsorted[q].path@ != unsorted[p].path@);
                }
            }
        }
        assert forall|a: int|
            #![trigger t@[a]]
            0 <= a < t@.len() implies last_modifier(seen, t@[a].path@, until, inc, exc) == Some(
            (t@[a].author@, t@[a].time),
        ) by {
            let p = choose|p: int| 0 <= p < unsorted.len() && unsorted[p] == sorted[a];
            assert(unsorted[p] == t@[a]);
        }
        assert forall|x: Seq<char>, a: int|
            #![trigger last_modifier(seen, x, until, inc, exc), t@[a]]
            0 <= a < t@.len() && last_modifier(seen, x, until, inc, exc) is Some && !(exists|k: int|
                0 <= k < t@.len() && t@[k].path@ == x) implies (last_modifier(
            seen,
            x,
            until,
            inc,
            exc,
        )->0).1 <= t@[a].time by {
            assert(f(x) is Some);
            let u = choose|u: int| 0 <= u < unsorted.len() && unsorted[u].path@ == x;
            assert(sorted.contains(unsorted[u]));
            let v = choose|v: int| 0 <= v < sorted.len() && sorted[v] == unsorted[u];
            if v < t@.len() {
                assert(t@[v].path@ == x);
            }
            assert(v >= t@.len());
            assert(sorted[a].precedes(&sorted[v]));
        }
        assert(sorted_by_rank(t@)) by {
            assert forall|a: int, b: int| 0 <= a < b < t@.len() implies t@[a].precedes(&t@[b]) by {
                assert(t@[a] == sorted[a] && t@[b] == sorted[b]);
            }
        }
        lemma_latest_first(t@);
    }
    FastOwnership { files: t, total_files_seen: total }
}

// ---------------------------------------------------------------------------
// Ownership per author
// ---------------------------------------------------------------------------

/// A file with its primary owner and its line count.
#[derive(Debug, Clone)]
pub struct OwnedFile {
    pub primary_owner: String,
    pub total_lines: usize,
}

/// The files an author owns and their lines. The author's share of all
/// lines is computed from these counts in floating point.
#[derive(Debug, Clone)]
pub struct AuthorShare {
    pub author: String,
    pub files_owned: usize,
    pub total_lines_owned: usize,
}

pub open spec fn files_owned_by(f: Seq<OwnedFile>, a: Seq<char>) -> nat
    decreases f.len(),
{
    if f.len() == 0 {
        0
    } else {
        files_owned_by(f.drop_last(), a) + if f.last().primary_owner@ == a {
            1nat
        } else {
            0nat
        }
    }
}

pub open spec fn lines_owned_by(f: Seq<OwnedFile>, a: Seq<char>) -> nat
    decreases f.len(),
{
    if f.len() == 0 {
        0
    } else {
        lines_owned_by(f.drop_last(), a) + if f.last().primary_owner@ == a {
            f.last().total_lines as nat
        } else {
            0nat
        }
    }
}

impl Ranked for AuthorShare {
    open spec fn precedes(&self, other: &Self) -> bool {
        self.total_lines_owned >= other.total_lines_owned
    }

    fn ranks_before(&self, other: &Self) -> (b: bool) {
        self.total_lines_owned >= other.total_lines_owned
    }

    proof fn lemma_total(a: &Self, b: &Self) {
    }

    proof fn lemma_transitive(a: &Self, b: &Self, c: &Self) {
    }
}

/// `r` holds one entry per owner of a file of `f`, with the files and lines
/// that owner has.
pub open spec fn is_share_table(r: Seq<AuthorShare>, f: Seq<OwnedFile>) -> bool {
    &&& forall|i: int, j: int|
        #![trigger r[i], r[j]]
        0 <= i < j < r.len() ==> r[i].author@ != r[j].author@
    &&& forall|i: int|
        #![trigger r[i]]
        0 <= i < r.len() ==> r[i].files_owned > 0 && r[i].files_owned == files_owned_by(
            f,
            r[i].author@,
        ) && r[i].total_lines_owned == lines_owned_by(f, r[i].author@)
    &&& forall|k: int|
        #![trigger f[k]]
        0 <= k < f.len() ==> exists|i: int| 0 <= i < r.len() && r[i].author@ == f[k].primary_owner@
}

/// The lines of all files of `f`.
pub open spec fn all_lines(f: Seq<OwnedFile>) -> int
    decreases f.len(),
{
    if f.len() == 0 {
        0
    } else {
        all_lines(f.drop_last()) + f.last().total_lines
    }
}

/// The files and lines of a share table's entries, summed.
pub open spec fn share_totals(r: Seq<AuthorShare>) -> (int, int) {
    (
        seq_total(r.map_values(|a: AuthorShare| a.files_owned as int)),
        seq_total(r.map_values(|a: AuthorShare| a.total_lines_owned as int)),
    )
}

proof fn lemma_owned_prefix(f: Seq<OwnedFile>, n: int, a: Seq<char>)
    requires
        0 <= n <= f.len(),
    ensures
        lines_owned_by(f.subrange(0, n), a) <= lines_owned_by(f, a),
        files_owned_by(f, a) <= f.len(),
    decreases f.len(),
{
    if f.len() > 0 {
        let t = f.drop_last();
        if n == f.len() {
            assert(f.subrange(0, n) =~= f);
            lemma_owned_prefix(t, 0, a);
        } else {
            assert(t.subrange(0, n) =~= f.subrange(0, n));
            lemma_owned_prefix(t, n, a);
        }
    } else {
        assert(f.subrange(0, n) =~= f);
    }
}

proof fn lemma_owned_absent(f: Seq<OwnedFile>, a: Seq<char>)
    requires
        forall|k: int| 0 <= k < f.len() ==> #[trigger] f[k].primary_owner@ != a,
    ensures
        files_owned_by(f, a) == 0,
        lines_owned_by(f, a) == 0,
    decreases f.len(),
{
    if f.len() > 0 {
        let t = f.drop_last();
        assert forall|k: int| 0 <= k < t.len() implies #[trigger] t[k].primary_owner@ != a by {
            assert(t[k] == f[k]);
        }
        assert(f[f.len() - 1] == f.last());
        lemma_owned_absent(t, a);
    }
}

/// The overall ownership ranking: an author listed earlier owns at least as
/// many lines as one listed later, so every author with more lines owned
/// comes before every author with fewer.
pub proof fn lemma_share_ranking(r: Seq<AuthorShare>)
    requires
        sorted_by_rank(r),
    ensures
        forall|i: int, j: int|
            #![trigger r[i], r[j]]
            0 <= i < j < r.len() ==> r[j].total_lines_owned <= r[i].total_lines_owned,
        forall|i: int, j: int|
            #![trigger r[i], r[j]]
            0 <= i < r.len() && 0 <= j < r.len() && r[i].total_lines_owned > r[j].total_lines_owned
                ==> i < j,
{
    assert forall|i: int, j: int|
        #![trigger r[i], r[j]]
        0 <= i < j < r.len() implies r[j].total_lines_owned <= r[i].total_lines_owned by {
        assert(r[i].precedes(&r[j]));
    }
    assert forall|i: int, j: int|
        #![trigger r[i], r[j]]
        0 <= i < r.len() && 0 <= j < r.len() && r[i].total_lines_owned > r[j].total_lines_owned
            implies i < j by {
        if j < i {
            assert(r[j].precedes(&r[i]));
        }
    }
}

/// Files and lines owned per author, the most lines first (the order among
/// authors owning equally many lines is left open); every file is credited
/// to exactly one author.
#[verifier::spinoff_prover]
pub fn calculate_overall_ownership(files: &[OwnedFile]) -> (r: Vec<AuthorShare>)
    requires
        forall|a: Seq<char>| #[trigger] lines_owned_by(files@, a) <= usize::MAX,
    ensures
        is_share_table(r@, files@),
        sorted_by_rank(r@),
        forall|i: int, j: int|
            #![trigger r@[i], r@[j]]
            0 <= i < r@.len() && 0 <= j < r@.len() && r@[i].total_lines_owned
                > r@[j].total_lines_owned ==> i < j,
        share_totals(r@) == (files@.len() as int, all_lines(files@)),
{
    let mut acc: Vec<AuthorShare> = Vec::new();
    let mut i: usize = 0;
    proof {
        assert(acc@.map_values(|a: AuthorShare| a.files_owned as int) =~= Seq::<int>::empty());
        assert(acc@.map_values(|a: AuthorShare| a.total_lines_owned as int) =~= Seq::<int>::empty());
    }
    while i < files.len()
        invariant
            i <= files.len(),
            forall|a: Seq<char>| #[trigger] lines_owned_by(files@, a) <= usize::MAX,
            is_share_table(acc@, files@.subrange(0, i as int)),
            share_totals(acc@) == (i as int, all_lines(files@.subrange(0, i as int))),
        decreases files.len() - i,
    {
        let ghost prev = files@.subrange(0, i as int);
        let ghost next = files@.subrange(0, i + 1);
        proof {
            assert(next.drop_last() =~= prev);
            assert(next.last() == files@[i as int]);
        }
        let who = &files[i].primary_owner;
        proof {
            lemma_owned_prefix(files@, i + 1, who@);
            lemma_owned_prefix(next, 0, who@);
        }
        let mut k: usize = 0;
        let mut found: Option<usize> = None;
        while k < acc.len()
            invariant_except_break
                found is None,
            invariant
                k <= acc.len(),
                forall|j: int| 0 <= j < k ==> acc@[j].author@ != who@,
            ensures
                match found {
                    Some(x) => x < acc.len() && acc@[x as int].author@ == who@,
                    None => forall|j: int| 0 <= j < acc.len() ==> acc@[j].author@ != who@,
                },
            decreases acc.len() - k,
        {
            if acc[k].author == *who {
                found = Some(k);
                break;
            }
            k += 1;
        }
        let ghost before = acc@;
        let ghost mut pos: int = 0;
        match found {
            Some(x) => {
                let e = AuthorShare {
                    author: acc[x].author.clone(),
                    files_owned: acc[x].files_owned + 1,
                    total_lines_owned: acc[x].total_lines_owned + files[i].total_lines,
                };
                acc.set(x, e);
                proof {
                    pos = x as int;
                }
                assert(share_totals(acc@) == (
                    share_totals(before).0 + 1,
                    share_totals(before).1 + files@[i as int].total_lines,
                )) by {
                    let fo = before.map_values(|a: AuthorShare| a.files_owned as int);
                    let lo = before.map_values(|a: AuthorShare| a.total_lines_owned as int);
                    assert(acc@.map_values(|a: AuthorShare| a.files_owned as int) =~= fo.update(
                        x as int,
                        fo[x as int] + 1,
                    ));
                    assert(acc@.map_values(|a: AuthorShare| a.total_lines_owned as int) =~= lo.update(
                        x as int,
                        lo[x as int] + files@[i as int].total_lines,
                    ));
                    lemma_seq_total_raise(fo, x as int, 1);
                    lemma_seq_total_raise(lo, x as int, files@[i as int].total_lines as int);
                }
            },
            None => {
                proof {
                    assert forall|m: int| 0 <= m < prev.len() implies #[trigger] prev[m].primary_owner@ != who@ by {
                        if prev[m].primary_owner@ == who@ {
                            let j = choose|j: int| 0 <= j < before.len() && before[j].author@ == prev[m].primary_owner@;
                        }
                    }
                    lemma_owned_absent(prev, who@);
                    pos = acc@.len() as int;
                }
                acc.push(
                    AuthorShare {
                        author: who.clone(),
                        files_owned: 1,
                        total_lines_owned: files[i].total_lines,
                    },
                );
                assert(share_totals(acc@) == (
                    share_totals(before).0 + 1,
                    share_totals(before).1 + files@[i as int].total_lines,
                )) by {
                    let n = before.len() as int;
                    let fo = before.map_values(|a: AuthorShare| a.files_owned as int);
                    let lo = before.map_values(|a: AuthorShare| a.total_lines_owned as int);
                    assert(acc@.map_values(|a: AuthorShare| a.files_owned as int) =~= fo.insert(n, 1));
                    assert(acc@.map_values(|a: AuthorShare| a.total_lines_owned as int) =~= lo.insert(
                        n,
                        files@[i as int].total_lines as int,
                    ));
                    lemma_seq_total_insert(fo, n, 1);
                    lemma_seq_total_insert(lo, n, files@[i as int].total_lines as int);
                }
            },
        }
        proof {
            assert(all_lines(next) == all_lines(prev) + files@[i as int].total_lines);
            assert forall|m: int|
                #![trigger next[m]]
                0 <= m < next.len() implies exists|j: int|
                0 <= j < acc@.len() && acc@[j].author@ == next[m].primary_owner@ by {
                if m < i {
                    assert(next[m] == prev[m]);
                    let j = choose|j: int| 0 <= j < before.len() && before[j].author@ == prev[m].primary_owner@;
                    assert(acc@[j].author@ == before[j].author@);
                } else {
                    assert(acc@[pos].author@ == who@);
                }
            }
        }
        i += 1;
    }
    proof {
        assert(files@.subrange(0, files@.len() as int) =~= files@);
    }
    let ghost unsorted = acc@;
    sort_ranked(&mut acc);
    proof {
        lemma_seq_total_permutation(unsorted, acc@, |a: AuthorShare| a.files_owned as int);
        lemma_seq_total_permutation(unsorted, acc@, |a: AuthorShare| a.total_lines_owned as int);
        lemma_permutation_members(unsorted, acc@);
        lemma_permutation_members(acc@, unsorted);
        assert(unsorted.no_duplicates()) by {
            assert forall|x: int, y: int|
                0 <= x < unsorted.len() && 0 <= y < unsorted.len() && x != y implies unsorted[x]
                != unsorted[y] by {
                if x < y {
                    assert(unsorted[x].author@ != unsorted[y].author@);
                } else {
                    assert(unsorted[y].author@ != unsorted[x].author@);
                }
            }
        }
        assert forall|a: int, b: int|
            #![trigger acc@[a], acc@[b]]
            0 <= a < b < acc@.len() implies acc@[a].author@ != acc@[b].author@ by {
            let p = choose|p: int| 0 <= p < unsorted.len() && unsorted[p] == acc@[a];
            let q = choose|q: int| 0 <= q < unsorted.len() && unsorted[q] == acc@[b];
            if p != q {
                if p < q {
                    assert(unsorted[p].author@ != unsorted[q].author@);
                } else {
                    assert(unsorted[q].author@ != unsorted[p].author@);
                }
            }
        }
        assert forall|a: int|
            #![trigger acc@[a]]
            0 <= a < acc@.len() implies acc@[a].files_owned > 0 && acc@[a].files_owned
            == files_owned_by(files@, acc@[a].author@) && acc@[a].total_lines_owned
            == lines_owned_by(files@, acc@[a].author@) by {
            let p = choose|p: int| 0 <= p < unsorted.len() && unsorted[p] == acc@[a];
            assert(unsorted[p] == acc@[a]);
        }
        assert forall|k: int|
            #![trigger files@[k]]
            0 <= k < files@.len() implies exists|a: int|
            0 <= a < acc@.len() && acc@[a].author@ == files@[k].primary_owner@ by {
            let p = choose|p: int|
                0 <= p < unsorted.len() && unsorted[p].author@ == files@[k].primary_owner@;
            assert(acc@.contains(unsorted[p]));
            let a = choose|a: int| 0 <= a < acc@.len() && acc@[a] == unsorted[p];
            assert(acc@[a].author@ == files@[k].primary_owner@);
        }
        lemma_share_ranking(acc@);
    }
    acc
}


// ---------------------------------------------------------------------------
// Blame analysis
// ---------------------------------------------------------------------------

/// The paths of `paths` that pass the filters, in order.
pub open spec fn selected_paths(
    paths: Seq<Seq<char>>,
    include_glob: Option<Seq<char>>,
    exclude_glob: Option<Seq<char>>,
) -> Seq<Seq<char>>
    decreases paths.len(),
{
    if paths.len() == 0 {
        Seq::empty()
    } else {
        let before = selected_paths(paths.drop_last(), include_glob, exclude_glob);
        if path_selected(paths.last(), include_glob, exclude_glob) {
            before.push(paths.last())
        } else {
            before
        }
    }
}

pub open spec fn string_views(v: Seq<String>) -> Seq<Seq<char>> {
    v.map_values(|s: String| s@)
}

/// The files whose blame the expensive analysis reads: the tree's files
/// that pass the filters, in the tree's order, the first `top_n` of them.
pub fn select_blame_files(
    paths: &[String],
    top_n: usize,
    include_glob: Option<&str>,
    exclude_glob: Option<&str>,
) -> (r: Vec<String>)
    ensures
        ({
            let all = selected_paths(string_views(paths@), opt_str(include_glob), opt_str(exclude_glob));
            string_views(r@) == all.subrange(0, if top_n < all.len() { top_n as int } else { all.len() as int })
        }),
{
    let ghost inc = opt_str(include_glob);
    let ghost exc = opt_str(exclude_glob);
    let mut r: Vec<String> = Vec::new();
    let mut i: usize = 0;
    proof {
        assert(string_views(paths@).subrange(0, 0) =~= Seq::<Seq<char>>::empty());
        assert(string_views(r@) =~= Seq::<Seq<char>>::empty());
    }
    while i < paths.len()
        invariant
            i <= paths.len(),
            inc == opt_str(include_glob),
            exc == opt_str(exclude_glob),
            string_views(r@) == selected_paths(string_views(paths@).subrange(0, i as int), inc, exc),
        decreases paths.len() - i,
    {
        let path = &paths[i];
        let excluded = match exclude_glob {
            Some(x) => glob_match(path.as_str(), x),
            None => false,
        };
        let included = match include_glob {
            Some(x) => glob_match(path.as_str(), x),
            None => true,
        };
        proof {
            let next = string_views(paths@).subrange(0, i + 1);
            assert(next.drop_last() =~= string_views(paths@).subrange(0, i as int));
            assert(next.last() == path@);
            assert((!excluded && included) == path_selected(path@, inc, exc));
        }
        if !excluded && included {
            let ghost before = r@;
            r.push(path.clone());
            proof {
                assert(string_views(r@) =~= string_views(before).push(path@));
            }
        }
        i += 1;
    }
    proof {
        assert(string_views(paths@).subrange(0, paths@.len() as int) =~= string_views(paths@));
    }
    let ghost all = string_views(r@);
    r.truncate(top_n);
    proof {
        assert(string_views(r@) =~= all.subrange(
            0,
            if top_n < all.len() {
                top_n as int
            } else {
                all.len() as int
            },
        ));
    }
    r
}

/// The author and time of the latest change among a file's blamed lines:
/// a line counts as later only where its time is strictly greater, starting
/// from time 0 and `(unknown)`.
pub open spec fn latest_line(lines: Seq<(i64, Seq<char>)>) -> (int, Seq<char>)
    decreases lines.len(),
{
    if lines.len() == 0 {
        (0, "(unknown)"@)
    } else {
        let before = latest_line(lines.drop_last());
        if lines.last().0 > before.0 {
            (lines.last().0 as int, lines.last().1)
        } else {
            before
        }
    }
}

pub open spec fn line_views(v: Seq<(i64, String)>) -> Seq<(i64, Seq<char>)> {
    v.map_values(|l: (i64, String)| (l.0, l.1@))
}

/// Who last modified a file, and when, from the time and author of each of
/// its blamed lines.
pub fn last_modification(lines: &[(i64, String)]) -> (r: (i64, String))
    ensures
        (r.0 as int, r.1@) == latest_line(line_views(lines@)),
{
    let mut time: i64 = 0;
    let mut author = String::from_str("(unknown)");
    let mut i: usize = 0;
    proof {
        reveal_strlit("(unknown)");
        assert(line_views(lines@).subrange(0, 0) =~= Seq::<(i64, Seq<char>)>::empty());
    }
    while i < lines.len()
        invariant
            i <= lines.len(),
            (time as int, author@) == latest_line(line_views(lines@).subrange(0, i as int)),
        decreases lines.len() - i,
    {
        proof {
            let next = line_views(lines@).subrange(0, i + 1);
            assert(next.drop_last() =~= line_views(lines@).subrange(0, i as int));
            assert(next.last() == (lines@[i as int].0, lines@[i as int].1@));
        }
        if lines[i].0 > time {
            time = lines[i].0;
            author = lines[i].1.clone();
        }
        i += 1;
    }
    proof {
        assert(line_views(lines@).subrange(0, lines@.len() as int) =~= line_views(lines@));
    }
    (time, author)
}

} // verus!
