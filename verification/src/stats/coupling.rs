//! File coupling: how often files change together. The counts are gathered
//! over windows of commits; the association measures (support, confidence,
//! lift) are ratios of these counts in floating point.
use vstd::prelude::*;

verus! {

// ---------------------------------------------------------------------------
// Ordering of paths
// ---------------------------------------------------------------------------

/// `a` sorts before `b` in `String`'s order: at the first position where
/// they differ `a` has the smaller character, or `a` is a proper prefix of
/// `b`. (UTF-8 keeps the order of code points, so this is the byte order.)
pub open spec fn path_less(a: Seq<char>, b: Seq<char>) -> bool {
    ||| exists|k: int|
        0 <= k < a.len() && k < b.len() && a.subrange(0, k) == b.subrange(0, k) && (a[k] as u32) < (
        b[k] as u32)
    ||| a.len() < b.len() && a == b.subrange(0, a.len() as int)
}

/// Whether `a` sorts before `b`.
pub fn str_less(a: &String, b: &String) -> (r: bool)
    ensures
        r == path_less(a@, b@),
{
    let x = crate::text::chars_of(a.as_str());
    let y = crate::text::chars_of(b.as_str());
    let mut k: usize = 0;
    while k < x.len() && k < y.len()
        invariant
            k <= x.len(),
            k <= y.len(),
            x@ == a@,
            y@ == b@,
            x@.subrange(0, k as int) == y@.subrange(0, k as int),
        decreases x.len() - k,
    {
        if x[k] != y[k] {
            let r = (x[k] as u32) < (y[k] as u32);
            proof {
                if !r {
                    assert forall|j: int|
                        0 <= j < x@.len() && j < y@.len() && x@.subrange(0, j) == y@.subrange(0, j)
                            implies !((x@[j] as u32) < (y@[j] as u32)) by {
                        if j < k {
                            assert(x@.subrange(0, k as int)[j] == x@[j]);
                            assert(y@.subrange(0, k as int)[j] == y@[j]);
                        } else if j > k {
                            assert(x@.subrange(0, j)[k as int] == x@[k as int]);
                            assert(y@.subrange(0, j)[k as int] == y@[k as int]);
                        }
                    }
                    if x@.len() < y@.len() && x@ == y@.subrange(0, x@.len() as int) {
                        assert(y@.subrange(0, x@.len() as int)[k as int] == y@[k as int]);
                    }
                }
            }
            return r;
        }
        proof {
            assert(x@.subrange(0, k + 1) =~= x@.subrange(0, k as int).push(x@[k as int]));
            assert(y@.subrange(0, k + 1) =~= y@.subrange(0, k as int).push(y@[k as int]));
        }
        k += 1;
    }
    let r = x.len() < y.len();
    proof {
        if r {
            assert(x@ =~= x@.subrange(0, k as int));
        } else {
            assert forall|j: int|
                0 <= j < x@.len() && j < y@.len() && x@.subrange(0, j) == y@.subrange(0, j)
                    implies !((x@[j] as u32) < (y@[j] as u32)) by {
                assert(x@.subrange(0, k as int)[j] == x@[j]);
                assert(y@.subrange(0, k as int)[j] == y@[j]);
            }
        }
    }
    r
}

/// The pair of two paths, the smaller first.
pub open spec fn pair_key(a: Seq<char>, b: Seq<char>) -> (Seq<char>, Seq<char>) {
    if path_less(a, b) {
        (a, b)
    } else {
        (b, a)
    }
}

// ---------------------------------------------------------------------------
// Counts
// ---------------------------------------------------------------------------

pub open spec fn commit_views(c: Seq<Vec<String>>) -> Seq<Seq<Seq<char>>> {
    c.map_values(|v: Vec<String>| v@.map_values(|s: String| s@))
}

/// How often `p` occurs among the paths of one commit.
pub open spec fn occurrences(c: Seq<Seq<char>>, p: Seq<char>) -> nat
    decreases c.len(),
{
    if c.len() == 0 {
        0
    } else {
        occurrences(c.drop_last(), p) + if c.last() == p {
            1nat
        } else {
            0nat
        }
    }
}

/// How many of `c` pair with `x` into `key`.
pub open spec fn pairs_with(c: Seq<Seq<char>>, x: Seq<char>, key: (Seq<char>, Seq<char>)) -> nat
    decreases c.len(),
{
    if c.len() == 0 {
        0
    } else {
        pairs_with(c.drop_last(), x, key) + if pair_key(c.last(), x) == key {
            1nat
        } else {
            0nat
        }
    }
}

/// How many pairs of positions `i < j` of one commit's paths make `key`.
pub open spec fn commit_pairs(c: Seq<Seq<char>>, key: (Seq<char>, Seq<char>)) -> nat
    decreases c.len(),
{
    if c.len() == 0 {
        0
    } else {
        commit_pairs(c.drop_last(), key) + pairs_with(c.drop_last(), c.last(), key)
    }
}

/// Commits that changed at least one path.
pub open spec fn coupling_total(cs: Seq<Seq<Seq<char>>>) -> nat
    decreases cs.len(),
{
    if cs.len() == 0 {
        0
    } else {
        coupling_total(cs.drop_last()) + if cs.last().len() > 0 {
            1nat
        } else {
            0nat
        }
    }
}

/// How often `p` was changed.
pub open spec fn file_count(cs: Seq<Seq<Seq<char>>>, p: Seq<char>) -> nat
    decreases cs.len(),
{
    if cs.len() == 0 {
        0
    } else {
        file_count(cs.drop_last(), p) + occurrences(cs.last(), p)
    }
}

/// How often the pair `key` was changed together.
pub open spec fn pair_count(cs: Seq<Seq<Seq<char>>>, key: (Seq<char>, Seq<char>)) -> nat
    decreases cs.len(),
{
    if cs.len() == 0 {
        0
    } else {
        pair_count(cs.drop_last(), key) + commit_pairs(cs.last(), key)
    }
}

/// Counting over two runs of commits adds up: it does not matter how the
/// history is cut into windows.
pub proof fn lemma_coupling_window_independent(
    a: Seq<Seq<Seq<char>>>,
    b: Seq<Seq<Seq<char>>>,
    p: Seq<char>,
    key: (Seq<char>, Seq<char>),
)
    ensures
        coupling_total(a + b) == coupling_total(a) + coupling_total(b),
        file_count(a + b, p) == file_count(a, p) + file_count(b, p),
        pair_count(a + b, key) == pair_count(a, key) + pair_count(b, key),
    decreases b.len(),
{
    if b.len() == 0 {
        assert(a + b =~= a);
    } else {
        lemma_coupling_window_independent(a, b.drop_last(), p, key);
        assert((a + b).drop_last() =~= a + b.drop_last());
        assert((a + b).last() == b.last());
    }
}

/// Scanning from `i`, two sequences that agree before `i` either differ at
/// some first position or agree on all of their common length.
proof fn lemma_first_difference(a: Seq<char>, b: Seq<char>, i: int)
    requires
        0 <= i <= a.len(),
        i <= b.len(),
        a.subrange(0, i) == b.subrange(0, i),
    ensures
        (exists|k: int|
            #![trigger a[k], b[k]]
            i <= k < a.len() && k < b.len() && a.subrange(0, k) == b.subrange(0, k) && a[k]
                != b[k]) || (forall|k: int| 0 <= k < a.len() && k < b.len() ==> a[k] == b[k]),
    decreases a.len() - i,
{
    if i < a.len() && i < b.len() {
        if a[i] != b[i] {
            assert(a[i] != b[i]);
        } else {
            assert(a.subrange(0, i + 1) =~= a.subrange(0, i).push(a[i]));
            assert(b.subrange(0, i + 1) =~= b.subrange(0, i).push(b[i]));
            lemma_first_difference(a, b, i + 1);
        }
    } else {
        assert forall|k: int| 0 <= k < a.len() && k < b.len() implies a[k] == b[k] by {
            assert(a.subrange(0, i)[k] == a[k]);
            assert(b.subrange(0, i)[k] == b[k]);
        }
    }
}

/// `path_less` is a strict total order: of two different paths exactly one
/// sorts before the other.
pub proof fn lemma_path_less_total(a: Seq<char>, b: Seq<char>)
    ensures
        a != b ==> (path_less(a, b) <==> !path_less(b, a)),
        !path_less(a, a),
{
    if path_less(a, a) {
        if exists|k: int|
            0 <= k < a.len() && k < a.len() && a.subrange(0, k) == a.subrange(0, k) && (a[k] as u32) < (
            a[k] as u32) {
        }
    }
    if a != b {
        assert(a.subrange(0, 0) =~= b.subrange(0, 0));
        lemma_first_difference(a, b, 0);
        if exists|k: int|
            #![trigger a[k], b[k]]
            0 <= k < a.len() && k < b.len() && a.subrange(0, k) == b.subrange(0, k) && a[k] != b[k] {
            let k = choose|k: int|
                #![trigger a[k], b[k]]
                0 <= k < a.len() && k < b.len() && a.subrange(0, k) == b.subrange(0, k) && a[k]
                    != b[k];
            assert((a[k] as u32) != (b[k] as u32)) by {
                if (a[k] as u32) == (b[k] as u32) {
                    vstd::utf8::char_u32_cast(a[k], a[k] as u32);
                    vstd::utf8::char_u32_cast(b[k], b[k] as u32);
                }
            }
            if (a[k] as u32) < (b[k] as u32) {
                assert(path_less(a, b));
            } else {
                assert(path_less(b, a));
            }
            // the first difference rules out every other witness
            assert forall|j: int|
                0 <= j < a.len() && j < b.len() && a.subrange(0, j) == b.subrange(0, j) && a[j]
                    != b[j] implies j == k by {
                if j < k {
                    assert(a.subrange(0, k)[j] == a[j]);
                    assert(b.subrange(0, k)[j] == b[j]);
                } else if j > k {
                    assert(a.subrange(0, j)[k] == a[k]);
                    assert(b.subrange(0, j)[k] == b[k]);
                }
            }
            if a.len() < b.len() && a == b.subrange(0, a.len() as int) {
                assert(b.subrange(0, a.len() as int)[k] == b[k]);
            }
            if b.len() < a.len() && b == a.subrange(0, b.len() as int) {
                assert(a.subrange(0, b.len() as int)[k] == a[k]);
            }
        } else {
            if a.len() < b.len() {
                assert(a =~= b.subrange(0, a.len() as int));
            } else if b.len() < a.len() {
                assert(b =~= a.subrange(0, b.len() as int));
            } else {
                assert(a =~= b);
            }
            assert forall|k: int|
                0 <= k < a.len() && k < b.len() && a.subrange(0, k) == b.subrange(0, k) implies !((
                a[k] as u32) < (b[k] as u32)) && !((b[k] as u32) < (a[k] as u32)) by {
                assert(a[k] == b[k]);
            }
        }
    }
}

/// `path_less` is transitive.
pub proof fn lemma_path_less_transitive(a: Seq<char>, b: Seq<char>, c: Seq<char>)
    requires
        path_less(a, b),
        path_less(b, c),
    ensures
        path_less(a, c),
{
    let ab = exists|k: int|
        0 <= k < a.len() && k < b.len() && a.subrange(0, k) == b.subrange(0, k) && (a[k] as u32) < (
        b[k] as u32);
    let bc = exists|k: int|
        0 <= k < b.len() && k < c.len() && b.subrange(0, k) == c.subrange(0, k) && (b[k] as u32) < (
        c[k] as u32);
    if ab {
        let k1 = choose|k: int|
            0 <= k < a.len() && k < b.len() && a.subrange(0, k) == b.subrange(0, k) && (a[k] as u32)
                < (b[k] as u32);
        if bc {
            let k2 = choose|k: int|
                0 <= k < b.len() && k < c.len() && b.subrange(0, k) == c.subrange(0, k) && (b[k]
                    as u32) < (c[k] as u32);
            if k1 < k2 {
                assert(b.subrange(0, k2).subrange(0, k1) =~= b.subrange(0, k1));
                assert(c.subrange(0, k2).subrange(0, k1) =~= c.subrange(0, k1));
                assert(b.subrange(0, k2)[k1] == b[k1]);
                assert(c.subrange(0, k2)[k1] == c[k1]);
                assert(a.subrange(0, k1) == c.subrange(0, k1));
                assert((a[k1] as u32) < (c[k1] as u32));
            } else if k1 > k2 {
                assert(a.subrange(0, k1).subrange(0, k2) =~= a.subrange(0, k2));
                assert(b.subrange(0, k1).subrange(0, k2) =~= b.subrange(0, k2));
                assert(a.subrange(0, k1)[k2] == a[k2]);
                assert(b.subrange(0, k1)[k2] == b[k2]);
                assert(a.subrange(0, k2) == c.subrange(0, k2));
                assert((a[k2] as u32) < (c[k2] as u32));
            } else {
                assert(a.subrange(0, k1) == c.subrange(0, k1));
            }
        } else {
            // b is a proper prefix of c
            assert(c.subrange(0, b.len() as int).subrange(0, k1) =~= c.subrange(0, k1));
            assert(c.subrange(0, b.len() as int)[k1] == c[k1]);
            assert(a.subrange(0, k1) == c.subrange(0, k1));
            assert((a[k1] as u32) < (c[k1] as u32));
        }
    } else {
        // a is a proper prefix of b
        if bc {
            let k2 = choose|k: int|
                0 <= k < b.len() && k < c.len() && b.subrange(0, k) == c.subrange(0, k) && (b[k]
                    as u32) < (c[k] as u32);
            if k2 < a.len() {
                assert(b.subrange(0, a.len() as int).subrange(0, k2) =~= b.subrange(0, k2));
                assert(b.subrange(0, a.len() as int)[k2] == b[k2]);
                assert(a.subrange(0, k2) == c.subrange(0, k2));
                assert((a[k2] as u32) < (c[k2] as u32));
            } else {
                assert(b.subrange(0, k2).subrange(0, a.len() as int) =~= b.subrange(0, a.len() as int));
                assert(c.subrange(0, k2).subrange(0, a.len() as int) =~= c.subrange(0, a.len() as int));
                assert(a =~= c.subrange(0, a.len() as int));
            }
        } else {
            assert(c.subrange(0, b.len() as int).subrange(0, a.len() as int) =~= c.subrange(0, a.len() as int));
            assert(a =~= c.subrange(0, a.len() as int));
        }
    }
}

/// The pair of two files is the same whichever of them comes first.
pub proof fn lemma_pair_key_symmetric(a: Seq<char>, b: Seq<char>)
    ensures
        pair_key(a, b) == pair_key(b, a),
{
    lemma_path_less_total(a, b);
}

/// `pair_key(y, x)` is `a` and `b`'s pair only where `{y, x}` is `{a, b}`.
proof fn lemma_pair_key_match(y: Seq<char>, x: Seq<char>, a: Seq<char>, b: Seq<char>)
    ensures
        pair_key(y, x) == pair_key(a, b) ==> (y == a && x == b) || (y == b && x == a),
{
}

/// Against a path `x`, the paths of `c` that make the pair of `a` and `b`
/// are among the other one of the two.
proof fn lemma_pairs_with_count(c: Seq<Seq<char>>, x: Seq<char>, a: Seq<char>, b: Seq<char>)
    requires
        a != b,
    ensures
        pairs_with(c, x, pair_key(a, b)) <= if x == a {
            occurrences(c, b)
        } else if x == b {
            occurrences(c, a)
        } else {
            0
        },
    decreases c.len(),
{
    if c.len() > 0 {
        lemma_pairs_with_count(c.drop_last(), x, a, b);
        lemma_pair_key_match(c.last(), x, a, b);
    }
}

/// In a list without repeats a path occurs once or not at all.
proof fn lemma_occurrences_distinct(c: Seq<Seq<char>>, p: Seq<char>)
    requires
        c.no_duplicates(),
    ensures
        occurrences(c, p) == if c.contains(p) {
            1nat
        } else {
            0nat
        },
    decreases c.len(),
{
    if c.len() > 0 {
        let t = c.drop_last();
        assert(t.no_duplicates());
        lemma_occurrences_distinct(t, p);
        if c.last() == p {
            assert(c[c.len() - 1] == p);
            if t.contains(p) {
                let i = choose|i: int| 0 <= i < t.len() && t[i] == p;
                assert(c[i] == c[c.len() - 1]);
            }
        } else {
            if c.contains(p) {
                let i = choose|i: int| 0 <= i < c.len() && c[i] == p;
                assert(t[i] == p);
            }
            if t.contains(p) {
                let i = choose|i: int| 0 <= i < t.len() && t[i] == p;
                assert(c[i] == p);
            }
        }
    }
}

/// In a list without repeats, two different paths make their pair at most
/// once, and only where both occur.
proof fn lemma_commit_pairs_distinct(c: Seq<Seq<char>>, a: Seq<char>, b: Seq<char>)
    requires
        c.no_duplicates(),
        a != b,
    ensures
        commit_pairs(c, pair_key(a, b)) <= if c.contains(a) && c.contains(b) {
            1nat
        } else {
            0nat
        },
    decreases c.len(),
{
    if c.len() > 0 {
        let t = c.drop_last();
        let l = c.last();
        assert(t.no_duplicates());
        lemma_commit_pairs_distinct(t, a, b);
        lemma_pairs_with_count(t, l, a, b);
        lemma_occurrences_distinct(t, a);
        lemma_occurrences_distinct(t, b);
        assert(c[c.len() - 1] == l);
        assert forall|p: Seq<char>| c.contains(p) <==> (t.contains(p) || p == l) by {
            if c.contains(p) {
                let i = choose|i: int| 0 <= i < c.len() && c[i] == p;
                if i < c.len() - 1 {
                    assert(t[i] == p);
                }
            }
            if t.contains(p) {
                let i = choose|i: int| 0 <= i < t.len() && t[i] == p;
                assert(c[i] == p);
            }
        }
        if t.contains(l) {
            let i = choose|i: int| 0 <= i < t.len() && t[i] == l;
            assert(c[i] == c[c.len() - 1]);
        }
    }
}

/// Two different files change together at most as often as either of them
/// changes, where no commit lists a path twice.
pub proof fn lemma_pair_count_bounded(cs: Seq<Seq<Seq<char>>>, a: Seq<char>, b: Seq<char>)
    requires
        a != b,
        forall|i: int| 0 <= i < cs.len() ==> (#[trigger] cs[i]).no_duplicates(),
    ensures
        pair_count(cs, pair_key(a, b)) <= file_count(cs, a),
        pair_count(cs, pair_key(a, b)) <= file_count(cs, b),
    decreases cs.len(),
{
    if cs.len() > 0 {
        let t = cs.drop_last();
        assert forall|i: int| 0 <= i < t.len() implies (#[trigger] t[i]).no_duplicates() by {
            assert(t[i] == cs[i]);
        }
        lemma_pair_count_bounded(t, a, b);
        assert(cs[cs.len() - 1] == cs.last());
        lemma_commit_pairs_distinct(cs.last(), a, b);
        lemma_occurrences_distinct(cs.last(), a);
        lemma_occurrences_distinct(cs.last(), b);
    }
}

/// The counts of a file table: each path once, with its count, which is
/// never 0; every path with a count is in the table.
pub open spec fn file_table(t: Seq<(String, u64)>, f: spec_fn(Seq<char>) -> nat) -> bool {
    &&& forall|i: int, j: int| #![trigger t[i], t[j]] 0 <= i < j < t.len() ==> t[i].0@ != t[j].0@
    &&& forall|i: int| #![trigger t[i]] 0 <= i < t.len() ==> t[i].1 == f(t[i].0@) && f(t[i].0@) > 0
    &&& forall|p: Seq<char>| #[trigger] f(p) > 0 ==> exists|i: int| 0 <= i < t.len() && t[i].0@ == p
}

/// The counts of a pair table, likewise.
pub open spec fn pair_table(
    t: Seq<(String, String, u64)>,
    f: spec_fn((Seq<char>, Seq<char>)) -> nat,
) -> bool {
    &&& forall|i: int, j: int|
        #![trigger t[i], t[j]]
        0 <= i < j < t.len() ==> (t[i].0@, t[i].1@) != (t[j].0@, t[j].1@)
    &&& forall|i: int|
        #![trigger t[i]]
        0 <= i < t.len() ==> t[i].2 == f((t[i].0@, t[i].1@)) && f((t[i].0@, t[i].1@)) > 0
    &&& forall|k: (Seq<char>, Seq<char>)| #[trigger] f(k) > 0 ==> exists|i: int|
        0 <= i < t.len() && (t[i].0@, t[i].1@) == k
}

fn bump_file(
    t: &mut Vec<(String, u64)>,
    name: &String,
    f: Ghost<spec_fn(Seq<char>) -> nat>,
    g: Ghost<spec_fn(Seq<char>) -> nat>,
)
    requires
        file_table(old(t)@, f@),
        g@(name@) == f@(name@) + 1,
        g@(name@) <= u64::MAX,
        forall|q: Seq<char>| q != name@ ==> #[trigger] g@(q) == f@(q),
    ensures
        file_table(final(t)@, g@),
{
    let ghost before = t@;
    let mut k: usize = 0;
    while k < t.len()
        invariant
            k <= t.len(),
            t@ == before,
            forall|j: int| 0 <= j < k ==> t@[j].0@ != name@,
            file_table(before, f@),
            g@(name@) == f@(name@) + 1,
            g@(name@) <= u64::MAX,
            forall|q: Seq<char>| q != name@ ==> #[trigger] g@(q) == f@(q),
        decreases t.len() - k,
    {
        if t[k].0 == *name {
            let c = t[k].1 + 1;
            let e = (t[k].0.clone(), c);
            t.set(k, e);
            proof {
                assert forall|q: Seq<char>| #[trigger] g@(q) > 0 implies exists|i: int|
                    0 <= i < t@.len() && t@[i].0@ == q by {
                    if q == name@ {
                        assert(t@[k as int].0@ == q);
                    } else {
                        let i = choose|i: int| 0 <= i < before.len() && before[i].0@ == q;
                        assert(t@[i] == before[i]);
                    }
                }
            }
            return ;
        }
        k += 1;
    }
    proof {
        assert(f@(name@) == 0);
    }
    t.push((name.clone(), 1));
    proof {
        assert forall|q: Seq<char>| #[trigger] g@(q) > 0 implies exists|i: int|
            0 <= i < t@.len() && t@[i].0@ == q by {
            if q == name@ {
                assert(t@[before.len() as int].0@ == q);
            } else {
                let i = choose|i: int| 0 <= i < before.len() && before[i].0@ == q;
                assert(t@[i] == before[i]);
            }
        }
    }
}

fn bump_pair(
    t: &mut Vec<(String, String, u64)>,
    a: &String,
    b: &String,
    f: Ghost<spec_fn((Seq<char>, Seq<char>)) -> nat>,
    g: Ghost<spec_fn((Seq<char>, Seq<char>)) -> nat>,
)
    requires
        pair_table(old(t)@, f@),
        g@((a@, b@)) == f@((a@, b@)) + 1,
        g@((a@, b@)) <= u64::MAX,
        forall|q: (Seq<char>, Seq<char>)| q != (a@, b@) ==> #[trigger] g@(q) == f@(q),
    ensures
        pair_table(final(t)@, g@),
{
    let ghost before = t@;
    let mut k: usize = 0;
    while k < t.len()
        invariant
            k <= t.len(),
            t@ == before,
            forall|j: int| 0 <= j < k ==> (t@[j].0@, t@[j].1@) != (a@, b@),
            pair_table(before, f@),
            g@((a@, b@)) == f@((a@, b@)) + 1,
            g@((a@, b@)) <= u64::MAX,
            forall|q: (Seq<char>, Seq<char>)| q != (a@, b@) ==> #[trigger] g@(q) == f@(q),
        decreases t.len() - k,
    {
        if t[k].0 == *a && t[k].1 == *b {
            let c = t[k].2 + 1;
            let e = (t[k].0.clone(), t[k].1.clone(), c);
            t.set(k, e);
            proof {
                assert forall|q: (Seq<char>, Seq<char>)| #[trigger] g@(q) > 0 implies exists|i: int|
                    0 <= i < t@.len() && (t@[i].0@, t@[i].1@) == q by {
                    if q == (a@, b@) {
                        assert((t@[k as int].0@, t@[k as int].1@) == q);
                    } else {
                        let i = choose|i: int| 0 <= i < before.len() && (before[i].0@, before[i].1@) == q;
                        assert(t@[i] == before[i]);
                    }
                }
            }
            return ;
        }
        k += 1;
    }
    proof {
        assert(f@((a@, b@)) == 0);
    }
    t.push((a.clone(), b.clone(), 1));
    proof {
        assert forall|q: (Seq<char>, Seq<char>)| #[trigger] g@(q) > 0 implies exists|i: int|
            0 <= i < t@.len() && (t@[i].0@, t@[i].1@) == q by {
            if q == (a@, b@) {
                assert((t@[before.len() as int].0@, t@[before.len() as int].1@) == q);
            } else {
                let i = choose|i: int| 0 <= i < before.len() && (before[i].0@, before[i].1@) == q;
                assert(t@[i] == before[i]);
            }
        }
    }
}

/// The counts gathered over the commits processed so far: commits with at
/// least one changed path, changes per file, and co-changes per pair of
/// files (the smaller path first).
#[derive(Debug, Clone)]
pub struct CouplingCounts {
    pub total_commits: u64,
    pub files: Vec<(String, u64)>,
    pub pairs: Vec<(String, String, u64)>,
}

/// `c` holds exactly the counts of the commits `cs`.
pub open spec fn counts_model(c: CouplingCounts, cs: Seq<Seq<Seq<char>>>) -> bool {
    &&& c.total_commits == coupling_total(cs)
    &&& file_table(c.files@, |p: Seq<char>| file_count(cs, p))
    &&& pair_table(c.pairs@, |k: (Seq<char>, Seq<char>)| pair_count(cs, k))
}

/// No count of the commits `cs` exceeds `u64`.
pub open spec fn coupling_fits(cs: Seq<Seq<Seq<char>>>) -> bool {
    &&& coupling_total(cs) <= u64::MAX
    &&& forall|p: Seq<char>| #[trigger] file_count(cs, p) <= u64::MAX
    &&& forall|k: (Seq<char>, Seq<char>)| #[trigger] pair_count(cs, k) <= u64::MAX
}

proof fn lemma_counts_prefix(cs: Seq<Seq<Seq<char>>>, n: int)
    requires
        0 <= n <= cs.len(),
        coupling_fits(cs),
    ensures
        coupling_fits(cs.subrange(0, n)),
{
    assert forall|p: Seq<char>| #[trigger] file_count(cs.subrange(0, n), p) <= u64::MAX by {
        lemma_coupling_window_independent(cs.subrange(0, n), cs.subrange(n, cs.len() as int), p, (p, p));
        assert(cs.subrange(0, n) + cs.subrange(n, cs.len() as int) =~= cs);
    }
    assert forall|k: (Seq<char>, Seq<char>)| #[trigger] pair_count(cs.subrange(0, n), k) <= u64::MAX by {
        lemma_coupling_window_independent(cs.subrange(0, n), cs.subrange(n, cs.len() as int), k.0, k);
        assert(cs.subrange(0, n) + cs.subrange(n, cs.len() as int) =~= cs);
    }
    lemma_coupling_window_independent(
        cs.subrange(0, n),
        cs.subrange(n, cs.len() as int),
        seq![],
        (seq![], seq![]),
    );
    assert(cs.subrange(0, n) + cs.subrange(n, cs.len() as int) =~= cs);
}

proof fn lemma_occurrences_prefix(c: Seq<Seq<char>>, n: int, p: Seq<char>)
    requires
        0 <= n <= c.len(),
    ensures
        occurrences(c.subrange(0, n), p) <= occurrences(c, p),
    decreases c.len(),
{
    if n == c.len() {
        assert(c.subrange(0, n) =~= c);
    } else {
        let t = c.drop_last();
        assert(t.subrange(0, n) =~= c.subrange(0, n));
        lemma_occurrences_prefix(t, n, p);
    }
}

proof fn lemma_pairs_prefix(c: Seq<Seq<char>>, n: int, key: (Seq<char>, Seq<char>))
    requires
        0 <= n <= c.len(),
    ensures
        commit_pairs(c.subrange(0, n), key) <= commit_pairs(c, key),
    decreases c.len(),
{
    if n == c.len() {
        assert(c.subrange(0, n) =~= c);
    } else {
        let t = c.drop_last();
        assert(t.subrange(0, n) =~= c.subrange(0, n));
        lemma_pairs_prefix(t, n, key);
    }
}

proof fn lemma_pairs_with_prefix(c: Seq<Seq<char>>, n: int, x: Seq<char>, key: (Seq<char>, Seq<char>))
    requires
        0 <= n <= c.len(),
    ensures
        pairs_with(c.subrange(0, n), x, key) <= pairs_with(c, x, key),
    decreases c.len(),
{
    if n == c.len() {
        assert(c.subrange(0, n) =~= c);
    } else {
        let t = c.drop_last();
        assert(t.subrange(0, n) =~= c.subrange(0, n));
        lemma_pairs_with_prefix(t, n, x, key);
    }
}

/// Adds the pairs of path `j` with the paths before it.
#[verifier::rlimit(40)]
fn count_pairs_with(
    counts: &mut CouplingCounts,
    paths: &Vec<String>,
    j: usize,
    prev: Ghost<Seq<Seq<Seq<char>>>>,
)
    requires
        j < paths.len(),
        coupling_fits(prev@.push(paths@.map_values(|s: String| s@))),
        pair_table(
            old(counts).pairs@,
            |k: (Seq<char>, Seq<char>)|
                pair_count(prev@, k) + commit_pairs(
                    paths@.map_values(|s: String| s@).subrange(0, j as int),
                    k,
                ),
        ),
    ensures
        final(counts).total_commits == old(counts).total_commits,
        final(counts).files == old(counts).files,
        pair_table(
            final(counts).pairs@,
            |k: (Seq<char>, Seq<char>)|
                pair_count(prev@, k) + commit_pairs(
                    paths@.map_values(|s: String| s@).subrange(0, j + 1),
                    k,
                ),
        ),
{
    let ghost c = paths@.map_values(|s: String| s@);
    let ghost all = prev@.push(c);
    let mut i: usize = 0;
    proof {
        assert(all.drop_last() =~= prev@);
        assert(all.last() == c);
        let f0 = |k: (Seq<char>, Seq<char>)| pair_count(prev@, k) + commit_pairs(c.subrange(0, j as int), k);
        let f1 = |k: (Seq<char>, Seq<char>)|
            pair_count(prev@, k) + commit_pairs(c.subrange(0, j as int), k) + pairs_with(
                c.subrange(0, 0),
                c[j as int],
                k,
            );
        assert forall|k: (Seq<char>, Seq<char>)| #[trigger] f0(k) == f1(k) by {}
        assert(f0 =~= f1);
    }
    while i < j
        invariant
            i <= j,
            j < paths.len(),
            c == paths@.map_values(|s: String| s@),
            all == prev@.push(c),
            all.drop_last() == prev@,
            all.last() == c,
            coupling_fits(all),
            counts.total_commits == old(counts).total_commits,
            counts.files == old(counts).files,
            pair_table(
                counts.pairs@,
                |k: (Seq<char>, Seq<char>)|
                    pair_count(prev@, k) + commit_pairs(c.subrange(0, j as int), k) + pairs_with(
                        c.subrange(0, i as int),
                        c[j as int],
                        k,
                    ),
            ),
        decreases j - i,
    {
        let less = str_less(&paths[i], &paths[j]);
        let (a, b) = if less {
            (&paths[i], &paths[j])
        } else {
            (&paths[j], &paths[i])
        };
        let ghost key = (a@, b@);
        let ghost f = |k: (Seq<char>, Seq<char>)|
            pair_count(prev@, k) + commit_pairs(c.subrange(0, j as int), k) + pairs_with(
                c.subrange(0, i as int),
                c[j as int],
                k,
            );
        let ghost g = |k: (Seq<char>, Seq<char>)|
            pair_count(prev@, k) + commit_pairs(c.subrange(0, j as int), k) + pairs_with(
                c.subrange(0, i + 1),
                c[j as int],
                k,
            );
        proof {
            assert(c[i as int] == paths@[i as int]@);
            assert(c[j as int] == paths@[j as int]@);
            assert(pair_key(c[i as int], c[j as int]) == key);
            assert(c.subrange(0, i + 1).drop_last() =~= c.subrange(0, i as int));
            assert(c.subrange(0, i + 1).last() == c[i as int]);
            assert forall|k: (Seq<char>, Seq<char>)| k != key implies #[trigger] g(k) == f(k) by {}
            lemma_pairs_with_prefix(c.subrange(0, j as int), i + 1, c[j as int], key);
            assert(c.subrange(0, j as int).subrange(0, i + 1) =~= c.subrange(0, i + 1));
            assert(c.subrange(0, j + 1).drop_last() =~= c.subrange(0, j as int));
            assert(c.subrange(0, j + 1).last() == c[j as int]);
            lemma_pairs_prefix(c, j + 1, key);
            assert(pair_count(all, key) == pair_count(prev@, key) + commit_pairs(c, key));
            assert(pair_count(all, key) <= u64::MAX);
        }
        bump_pair(&mut counts.pairs, a, b, Ghost(f), Ghost(g));
        i += 1;
    }
    proof {
        let f1 = |k: (Seq<char>, Seq<char>)|
            pair_count(prev@, k) + commit_pairs(c.subrange(0, j as int), k) + pairs_with(
                c.subrange(0, j as int),
                c[j as int],
                k,
            );
        let f2 = |k: (Seq<char>, Seq<char>)| pair_count(prev@, k) + commit_pairs(c.subrange(0, j + 1), k);
        assert(c.subrange(0, j + 1).drop_last() =~= c.subrange(0, j as int));
        assert(c.subrange(0, j + 1).last() == c[j as int]);
        assert forall|k: (Seq<char>, Seq<char>)| #[trigger] f1(k) == f2(k) by {}
        assert(f1 =~= f2);
    }
}

/// Adds one commit's changed paths to the counts.
#[verifier::rlimit(40)]
fn count_commit(counts: &mut CouplingCounts, paths: &Vec<String>, prev: Ghost<Seq<Seq<Seq<char>>>>)
    requires
        counts_model(*old(counts), prev@),
        coupling_fits(prev@.push(paths@.map_values(|s: String| s@))),
    ensures
        counts_model(*final(counts), prev@.push(paths@.map_values(|s: String| s@))),
{
    let ghost c = paths@.map_values(|s: String| s@);
    let ghost all = prev@.push(c);
    proof {
        assert(all.drop_last() =~= prev@);
        assert(all.last() == c);
    }
    if paths.len() == 0 {
        proof {
            let f1 = |p: Seq<char>| file_count(prev@, p);
            let f2 = |p: Seq<char>| file_count(all, p);
            assert forall|p: Seq<char>| #[trigger] f1(p) == f2(p) by {}
            assert(f1 =~= f2);
            let g1 = |k: (Seq<char>, Seq<char>)| pair_count(prev@, k);
            let g2 = |k: (Seq<char>, Seq<char>)| pair_count(all, k);
            assert forall|k: (Seq<char>, Seq<char>)| #[trigger] g1(k) == g2(k) by {}
            assert(g1 =~= g2);
        }
        return ;
    }
    counts.total_commits = counts.total_commits + 1;
    let mut j: usize = 0;
    proof {
        let f0 = |p: Seq<char>| file_count(prev@, p);
        let f1 = |p: Seq<char>| file_count(prev@, p) + occurrences(c.subrange(0, 0), p);
        assert forall|p: Seq<char>| #[trigger] f0(p) == f1(p) by {}
        assert(f0 =~= f1);
        let g0 = |k: (Seq<char>, Seq<char>)| pair_count(prev@, k);
        let g1 = |k: (Seq<char>, Seq<char>)| pair_count(prev@, k) + commit_pairs(c.subrange(0, 0), k);
        assert forall|k: (Seq<char>, Seq<char>)| #[trigger] g0(k) == g1(k) by {}
        assert(g0 =~= g1);
    }
    while j < paths.len()
        invariant
            j <= paths.len(),
            c == paths@.map_values(|s: String| s@),
            all == prev@.push(c),
            all.drop_last() == prev@,
            all.last() == c,
            coupling_fits(all),
            counts.total_commits == coupling_total(all),
            file_table(counts.files@, |p: Seq<char>| file_count(prev@, p) + occurrences(c.subrange(0, j as int), p)),
            pair_table(
                counts.pairs@,
                |k: (Seq<char>, Seq<char>)| pair_count(prev@, k) + commit_pairs(c.subrange(0, j as int), k),
            ),
        decreases paths.len() - j,
    {
        let ghost f = |p: Seq<char>| file_count(prev@, p) + occurrences(c.subrange(0, j as int), p);
        let ghost g = |p: Seq<char>| file_count(prev@, p) + occurrences(c.subrange(0, j + 1), p);
        proof {
            assert(c[j as int] == paths@[j as int]@);
            assert(c.subrange(0, j + 1).drop_last() =~= c.subrange(0, j as int));
            assert(c.subrange(0, j + 1).last() == c[j as int]);
            assert forall|q: Seq<char>| q != paths@[j as int]@ implies #[trigger] g(q) == f(q) by {}
            lemma_occurrences_prefix(c, j + 1, c[j as int]);
            assert(file_count(all, c[j as int]) <= u64::MAX);
        }
        bump_file(&mut counts.files, &paths[j], Ghost(f), Ghost(g));
        count_pairs_with(counts, paths, j, prev);
        j += 1;
    }
    proof {
        assert(c.subrange(0, c.len() as int) =~= c);
        let f1 = |p: Seq<char>| file_count(prev@, p) + occurrences(c.subrange(0, c.len() as int), p);
        let f2 = |p: Seq<char>| file_count(all, p);
        assert forall|p: Seq<char>| #[trigger] f1(p) == f2(p) by {}
        assert(f1 =~= f2);
        let g1 = |k: (Seq<char>, Seq<char>)| pair_count(prev@, k) + commit_pairs(c.subrange(0, c.len() as int), k);
        let g2 = |k: (Seq<char>, Seq<char>)| pair_count(all, k);
        assert forall|k: (Seq<char>, Seq<char>)| #[trigger] g1(k) == g2(k) by {}
        assert(g1 =~= g2);
    }
}

/// Adds the commits `commits[start..end]`, one window, to the counts.
fn process_commit_window(counts: &mut CouplingCounts, commits: &[Vec<String>], start: usize, end: usize)
    requires
        start <= end <= commits.len(),
        coupling_fits(commit_views(commits@)),
        counts_model(*old(counts), commit_views(commits@).subrange(0, start as int)),
    ensures
        counts_model(*final(counts), commit_views(commits@).subrange(0, end as int)),
{
    let ghost cs = commit_views(commits@);
    let mut i = start;
    while i < end
        invariant
            start <= i <= end <= commits.len(),
            cs == commit_views(commits@),
            coupling_fits(cs),
            counts_model(*counts, cs.subrange(0, i as int)),
        decreases end - i,
    {
        proof {
            assert(cs.subrange(0, i + 1) =~= cs.subrange(0, i as int).push(commits@[i as int]@.map_values(|s: String| s@)));
            lemma_counts_prefix(cs, i + 1);
        }
        count_commit(counts, &commits[i], Ghost(cs.subrange(0, i as int)));
        i += 1;
    }
}

/// The co-change counts over `commits`, each the paths one commit changed,
/// processed in windows of `window_size` commits. The counts are those of
/// all the commits whatever the window size.
pub fn analyze_coupling(commits: &[Vec<String>], window_size: usize) -> (c: CouplingCounts)
    requires
        coupling_fits(commit_views(commits@)),
    ensures
        counts_model(c, commit_views(commits@)),
{
    let ghost cs = commit_views(commits@);
    let mut counts = CouplingCounts { total_commits: 0, files: Vec::new(), pairs: Vec::new() };
    proof {
        assert(cs.subrange(0, 0) =~= Seq::<Seq<Seq<char>>>::empty());
        let f = |p: Seq<char>| file_count(cs.subrange(0, 0), p);
        assert forall|p: Seq<char>| #[trigger] f(p) == 0 by {}
        let g = |k: (Seq<char>, Seq<char>)| pair_count(cs.subrange(0, 0), k);
        assert forall|k: (Seq<char>, Seq<char>)| #[trigger] g(k) == 0 by {}
    }
    let mut start: usize = 0;
    let mut i: usize = 0;
    while i < commits.len()
        invariant
            start <= i <= commits.len(),
            cs == commit_views(commits@),
            coupling_fits(cs),
            counts_model(counts, cs.subrange(0, start as int)),
        decreases commits.len() - i,
    {
        if i + 1 - start >= window_size {
            process_commit_window(&mut counts, commits, start, i + 1);
            start = i + 1;
        }
        i += 1;
    }
    if start < commits.len() {
        process_commit_window(&mut counts, commits, start, commits.len());
    }
    proof {
        assert(cs.subrange(0, commits@.len() as int) =~= cs);
    }
    counts
}

} // verus!
