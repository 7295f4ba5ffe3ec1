//! Work partitioning: splits `n` candidate indices into up to `t` contiguous
//! chunks, one per worker. A chunk whose start would lie at or past `n` is
//! not produced, so every produced chunk is non-empty.

use vstd::prelude::*;
use vstd::arithmetic::div_mod::lemma_fundamental_div_mod;
use vstd::arithmetic::mul::lemma_mul_is_commutative;
use vstd::arithmetic::mul::lemma_mul_is_distributive_add_other_way;
use vstd::arithmetic::mul::lemma_mul_inequality;

verus! {

/// A contiguous half-open index range `[start, end)` over the candidate
/// list, owned by exactly one worker.
#[derive(Clone, Copy, Debug, PartialEq, Eq, Structural)]
pub struct Partition {
    pub start: usize,
    pub end: usize,
}

/// Chunk size for `n` candidates over `t` workers: the ceiling of `n / t`.
pub open spec fn chunk_size_spec(n: int, t: int) -> int
    recommends
        t >= 1,
{
    n / t + if n % t == 0 {
        0int
    } else {
        1int
    }
}

/// The start of chunk `i`: `i * chunk`, clamped to `n` once past the end.
pub open spec fn chunk_start(i: int, c: int, n: int) -> int {
    if i * c <= n {
        i * c
    } else {
        n
    }
}

proof fn lemma_chunk_size_bounds(n: int, t: int)
    requires
        n >= 0,
        t >= 1,
    ensures
        chunk_size_spec(n, t) * t >= n,
        n >= 1 ==> 1 <= chunk_size_spec(n, t) <= n,
        n == 0 ==> chunk_size_spec(n, t) == 0,
{
    lemma_fundamental_div_mod(n, t);
    lemma_mul_is_commutative(n / t, t);
    let c = chunk_size_spec(n, t);
    if n % t == 0 {
        assert(c * t == (n / t) * t);
    } else {
        lemma_mul_is_distributive_add_other_way(t, n / t, 1);
        assert(c * t == (n / t) * t + t);
    }
    if n >= 1 {
        if n % t == 0 {
            assert(n / t >= 1) by {
                if n / t <= 0 {
                    lemma_mul_inequality(n / t, 0, t);
                }
            };
            assert(n / t <= n) by {
                if n / t > n {
                    lemma_mul_inequality(n + 1, n / t, t);
                    assert((n + 1) * t >= n + 1) by {
                        lemma_mul_inequality(1, t, n + 1);
                        lemma_mul_is_commutative(n + 1, t);
                    };
                }
            };
        } else {
            // t == 1 would force n % t == 0, so t >= 2 here.
            assert(t >= 2);
            assert(n / t < n) by {
                if n / t >= n {
                    lemma_mul_inequality(n, n / t, t);
                    assert(n * t >= n * 2) by {
                        lemma_mul_inequality(2, t, n);
                        lemma_mul_is_commutative(n, t);
                        lemma_mul_is_commutative(n, 2);
                    };
                }
            };
        }
    }
}

/// Computes the chunk size `ceil(n / t)`.
pub fn chunk_size(n: usize, t: usize) -> (c: usize)
    requires
        t >= 1,
    ensures
        c == chunk_size_spec(n as int, t as int),
{
    proof {
        lemma_chunk_size_bounds(n as int, t as int);
    }
    if n % t == 0 {
        n / t
    } else {
        n / t + 1
    }
}

/// Computes the work partitions for `n` candidates over `t` workers.
///
/// Chunk `i` covers `[i * c, min(i * c + c, n))` where `c = ceil(n / t)`;
/// chunks that would start at or past `n` are dropped, so exactly the
/// non-empty chunks are returned, in order.
pub fn partitions(n: usize, t: usize) -> (r: Vec<Partition>)
    requires
        t >= 1,
    ensures
        ({
            let c = chunk_size_spec(n as int, t as int);
            &&& r@.len() <= t
            &&& forall|i: int|
                0 <= i < r@.len() ==> (#[trigger] r@[i]).start == i * c && r@[i].end == (if i * c
                    + c <= n {
                    i * c + c
                } else {
                    n as int
                })
            &&& forall|i: int| 0 <= i < r@.len() ==> #[trigger] (i * c) < n
            &&& forall|i: int| 0 <= i < t && #[trigger] (i * c) < n ==> i < r@.len()
        }),
{
    let c = chunk_size(n, t);
    proof {
        lemma_chunk_size_bounds(n as int, t as int);
    }
    let mut parts: Vec<Partition> = Vec::new();
    let mut i: usize = 0;
    let mut start: usize = 0;
    while i < t && start < n
        invariant
            t >= 1,
            i <= t,
            c == chunk_size_spec(n as int, t as int),
            n >= 1 ==> 1 <= c <= n,
            n == 0 ==> c == 0,
            start == chunk_start(i as int, c as int, n as int),
            parts@.len() == i,
            forall|k: int|
                0 <= k < i ==> (#[trigger] parts@[k]).start == k * c && parts@[k].end == (if k * c
                    + c <= n {
                    k * c + c
                } else {
                    n as int
                }),
            forall|k: int| 0 <= k < i ==> #[trigger] (k * c) < n,
        decreases t - i,
    {
        proof {
            // start < n, so the clamp in chunk_start was not taken.
            assert(start == i * c);
        }
        let end = if c >= n - start {
            n
        } else {
            start + c
        };
        parts.push(Partition { start, end });
        proof {
            lemma_mul_is_distributive_add_other_way(c as int, i as int, 1);
            assert((i + 1) * (c as int) == i * c + c);
        }
        start = if c >= n - start {
            n
        } else {
            start + c
        };
        i = i + 1;
    }
    proof {
        let ci = c as int;
        if i < t {
            // Exited because start >= n: every later chunk would start past n.
            assert(chunk_start(i as int, ci, n as int) >= n);
            assert(forall|j: int| 0 <= j < t && #[trigger] (j * ci) < n ==> j < parts@.len()) by {
                assert forall|j: int| 0 <= j < t && #[trigger] (j * ci) < n implies j
                    < parts@.len() by {
                    if j >= i {
                        assert(i * ci >= n);
                        lemma_mul_inequality(i as int, j, ci);
                        lemma_mul_is_commutative(i as int, ci);
                        lemma_mul_is_commutative(j, ci);
                    }
                }
            };
        }
    }
    parts
}

/// The sizes of the returned partitions sum to exactly `n`: every candidate
/// index is covered exactly once, so a counter bumped once per processed
/// candidate across all workers ends at `n`.
pub open spec fn sizes_sum(parts: Seq<Partition>) -> int
    decreases parts.len(),
{
    if parts.len() == 0 {
        0
    } else {
        sizes_sum(parts.drop_last()) + (parts.last().end - parts.last().start)
    }
}

/// The partitions cover `[0, n)` exactly: they are contiguous from 0 to `n`.
/// Together with the exact chunk bounds in `partitions`' contract this is
/// the no-overlap, full-cover statement: chunk `i` is `[i*c, min((i+1)*c, n))`,
/// consecutive chunks abut, the first starts at 0, and the last ends at `n`.
pub proof fn lemma_partitions_cover(parts: Seq<Partition>, n: int, t: int)
    requires
        t >= 1,
        n >= 0,
        parts.len() <= t,
        ({
            let c = chunk_size_spec(n, t);
            &&& forall|i: int|
                0 <= i < parts.len() ==> (#[trigger] parts[i]).start == i * c && parts[i].end == (
                if i * c + c <= n {
                    i * c + c
                } else {
                    n
                })
            &&& forall|i: int| 0 <= i < parts.len() ==> #[trigger] (i * c) < n
            &&& forall|i: int| 0 <= i < t && #[trigger] (i * c) < n ==> i < parts.len()
        }),
    ensures
        forall|i: int| 0 <= i < parts.len() ==> (#[trigger] parts[i]).start < parts[i].end <= n,
        forall|i: int|
            0 <= i < parts.len() - 1 ==> (#[trigger] parts[i]).end == parts[i + 1].start,
        parts.len() > 0 ==> parts[0].start == 0,
        parts.len() > 0 ==> parts[parts.len() - 1].end == n,
        n == 0 ==> parts.len() == 0,
        n > 0 ==> parts.len() > 0,
        sizes_sum(parts) == n,
{
    let c = chunk_size_spec(n, t);
    lemma_chunk_size_bounds(n, t);
    if n == 0 {
        assert(parts.len() == 0) by {
            if parts.len() > 0 {
                assert(0 * c < n);
            }
        };
        assert(sizes_sum(parts) == 0);
    } else {
        assert(parts.len() > 0) by {
            assert(0 * c < n);
        };
        // Per-chunk bounds.
        assert forall|i: int| 0 <= i < parts.len() implies (#[trigger] parts[i]).start < parts[i].end
            <= n by {
            assert(i * c < n);
        };
        // Consecutive chunks abut: end of i is min((i+1)*c, n) and start of
        // i+1 is (i+1)*c, which is below n whenever chunk i+1 exists.
        assert forall|i: int| 0 <= i < parts.len() - 1 implies (#[trigger] parts[i]).end == parts[i
            + 1].start by {
            lemma_mul_is_distributive_add_other_way(c, i, 1);
            assert((i + 1) * c == i * c + c);
            assert((i + 1) * c < n);
        };
        // The last chunk reaches n.
        let last = parts.len() - 1;
        assert(parts[last].end == n) by {
            lemma_mul_is_distributive_add_other_way(c, last, 1);
            assert((last + 1) * c == last * c + c);
            if last * c + c < n {
                if last + 1 < t {
                    assert((last + 1) * c < n);
                    assert(last + 1 < parts.len());
                } else {
                    // last + 1 == t, yet t * c >= n.
                    lemma_mul_is_commutative(c, t);
                    assert(t * c >= n);
                }
            }
        };
        lemma_cover_sum(parts, n);
    }
}

/// For a contiguous run of partitions, the sizes telescope to `last end - first start`.
proof fn lemma_cover_sum(parts: Seq<Partition>, n: int)
    requires
        parts.len() > 0,
        forall|i: int| 0 <= i < parts.len() - 1 ==> (#[trigger] parts[i]).end == parts[i + 1].start,
        parts[0].start == 0,
        parts[parts.len() - 1].end == n,
    ensures
        sizes_sum(parts) == n,
    decreases parts.len(),
{
    if parts.len() == 1 {
        assert(parts.drop_last().len() == 0);
        assert(sizes_sum(parts.drop_last()) == 0);
        assert(parts.last() == parts[0]);
        assert(sizes_sum(parts) == parts[0].end - parts[0].start);
    } else {
        let prefix = parts.drop_last();
        assert(forall|i: int|
            0 <= i < prefix.len() - 1 ==> (#[trigger] prefix[i]).end == prefix[i + 1].start);
        lemma_cover_sum(prefix, parts[parts.len() - 2].end as int);
        assert(parts.last().start == parts[parts.len() - 2].end);
    }
}

} // verus!
