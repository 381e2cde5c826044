//! How work is cut into batches and how many threads carry it.
use vstd::prelude::*;

use crate::config::ParallelConfig;

verus! {

/// The batches of `slice::chunks(size)` over `len` items, as half-open
/// ranges: consecutive runs of `size` items, the last one possibly shorter.
pub open spec fn is_chunking(r: Seq<(usize, usize)>, len: nat, size: nat) -> bool {
    &&& r.len() == (len + size - 1) / (size as int)
    &&& forall|i: int|
        #![trigger r[i]]
        0 <= i < r.len() ==> r[i].0 == i * size && r[i].1 == if (i + 1) * size < len {
            (i + 1) * size
        } else {
            len as int
        }
}

/// The batches cover the items exactly once and in order: each is
/// non-empty, the first starts at 0, each starts where the one before it
/// ends, and the last ends at `len`; there are none only where there are no
/// items.
pub proof fn lemma_chunks_cover(r: Seq<(usize, usize)>, len: nat, size: nat)
    requires
        size > 0,
        is_chunking(r, len, size),
    ensures
        r.len() == 0 <==> len == 0,
        r.len() > 0 ==> r[0].0 == 0 && r.last().1 == len,
        forall|i: int| 0 <= i < r.len() - 1 ==> (#[trigger] r[i]).1 == r[i + 1].0,
        forall|i: int| 0 <= i < r.len() ==> (#[trigger] r[i]).0 < r[i].1,
{
    let n = r.len() as int;
    assert(n * size >= len && (n > 0 ==> (n - 1) * size < len) && (n == 0 <==> len == 0))
        by (nonlinear_arith)
        requires
            n == (len + size - 1) / (size as int),
            size > 0,
    ;
    assert forall|i: int| 0 <= i < n implies #[trigger] r[i].0 < r[i].1 by {
        assert(i * size <= (n - 1) * size && (i + 1) * size == i * size + size)
            by (nonlinear_arith)
            requires
                0 <= i < n,
                size > 0,
        ;
    }
    assert forall|i: int| 0 <= i < n - 1 implies (#[trigger] r[i]).1 == r[i + 1].0 by {
        assert((i + 1) * size <= (n - 1) * size) by (nonlinear_arith)
            requires
                0 <= i < n - 1,
                size > 0,
        ;
    }
    if n > 0 {
        assert(r[n - 1] == r.last());
    }
}

/// The batch ranges of `len` items cut into batches of `size`.
pub fn chunk_ranges(len: usize, size: usize) -> (r: Vec<(usize, usize)>)
    requires
        size > 0,
    ensures
        is_chunking(r@, len as nat, size as nat),
{
    proof {
        assert(len % size != 0 ==> len / size + 1 <= usize::MAX) by (nonlinear_arith)
            requires
                size > 0,
                len <= usize::MAX,
        ;
    }
    let n: usize = len / size + if len % size != 0 {
        1
    } else {
        0
    };
    proof {
        assert(n == (len + size - 1) / (size as int)) by (nonlinear_arith)
            requires
                n == len / size + if len % size != 0 {
                    1int
                } else {
                    0int
                },
                size > 0,
        ;
        assert(n > 0 ==> (n - 1) * size < len) by (nonlinear_arith)
            requires
                n == len / size + if len % size != 0 {
                    1int
                } else {
                    0int
                },
                size > 0,
        ;
    }
    let mut r: Vec<(usize, usize)> = Vec::new();
    let mut i: usize = 0;
    while i < n
        invariant
            size > 0,
            i <= n,
            n == (len + size - 1) / (size as int),
            n > 0 ==> (n - 1) * size < len,
            r@.len() == i,
            forall|k: int|
                #![trigger r@[k]]
                0 <= k < i ==> r@[k].0 == k * size && r@[k].1 == if (k + 1) * size < len {
                    (k + 1) * size
                } else {
                    len as int
                },
        decreases n - i,
    {
        proof {
            assert(i * size <= (n - 1) * size) by (nonlinear_arith)
                requires
                    i < n,
                    size > 0,
            ;
            assert((i + 1) * size == i * size + size) by (nonlinear_arith);
        }
        let start = i * size;
        let end = if len - start > size {
            start + size
        } else {
            len
        };
        r.push((start, end));
        i += 1;
    }
    r
}

/// `rayon::current_num_threads`. Trusted for nothing but its type: the
/// answer depends on the machine and on the pool's configuration.
#[verifier::external_body]
fn rayon_threads() -> (n: usize) {
    rayon::current_num_threads()
}

/// The number of threads that carry parallel work: the configured number,
/// or, where it is 0, as many as the thread pool has.
pub fn thread_count(config: &ParallelConfig) -> (n: usize)
    ensures
        config.max_threads > 0 ==> n == config.max_threads,
{
    if config.max_threads == 0 {
        rayon_threads()
    } else {
        config.max_threads
    }
}

} // verus!
