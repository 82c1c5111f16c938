//! How a sequence falls into chunks.
use vstd::prelude::*;

use crate::parallel::{chunk, chunk_count};

verus! {

/// There are as many chunks as it takes to hold all items, and no more.
pub proof fn law_chunk_count(n: nat, size: nat)
    requires
        size >= 1,
    ensures
        n <= chunk_count(n, size) * size,
        n > 0 ==> (chunk_count(n, size) - 1) * size < n,
        n == 0 ==> chunk_count(n, size) == 0,
{
    let q = n / size;
    assert(n == q * size + n % size) by (nonlinear_arith)
        requires
            size >= 1,
            q == n / size,
    ;
    assert((q + 1) * size == q * size + size && (q - 1) * size == q * size - size)
        by (nonlinear_arith);
}

/// The chunks hold all items, in order: item `k` of chunk `i` is item `i size + k` of the whole. All
/// chunks but the last one are full, and none is empty.
pub proof fn law_chunks<T>(s: Seq<T>, size: nat, i: int)
    requires
        size >= 1,
        0 <= i < chunk_count(s.len(), size),
    ensures
        1 <= chunk(s, size, i).len() <= size,
        i < chunk_count(s.len(), size) - 1 ==> chunk(s, size, i).len() == size,
        i == chunk_count(s.len(), size) - 1 ==> i * size + chunk(s, size, i).len() == s.len(),
        forall|k: int|
            0 <= k < chunk(s, size, i).len() ==> #[trigger] chunk(s, size, i)[k] == s[i * size + k],
{
    let m = chunk_count(s.len(), size) as int;
    let n = size as int;
    law_chunk_count(s.len(), size);
    assert(0 <= i * n <= (m - 1) * n) by (nonlinear_arith)
        requires
            0 <= i <= m - 1,
            n >= 1,
    ;
    if i < m - 1 {
        assert(i * n + n <= (m - 1) * n) by (nonlinear_arith)
            requires
                i + 1 <= m - 1,
                n >= 1,
        ;
    } else {
        assert(i * n + n == m * n) by (nonlinear_arith)
            requires
                i == m - 1,
        ;
    }
}

/// One chunk for each of `threads` threads: there are at most that many.
pub proof fn law_chunks_of_threads(n: nat, threads: nat)
    requires
        threads >= 1,
        n >= 1,
    ensures
        chunk_count(n, threads) >= 1,
        chunk_count(n, chunk_count(n, threads)) <= threads,
{
    let size = chunk_count(n, threads);
    law_chunk_count(n, threads);
    assert(size >= 1) by (nonlinear_arith)
        requires
            n <= size * threads,
            n >= 1,
    ;
    law_chunk_count(n, size);
    let m = chunk_count(n, size);
    assert(m <= threads) by (nonlinear_arith)
        requires
            (m - 1) * size < n,
            n <= size * threads,
            size >= 1,
    ;
}

} // verus!
