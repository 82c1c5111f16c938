//! The parallel loops, run on rayon's thread pool.
use rayon::prelude::{
    IndexedParallelIterator, IntoParallelRefMutIterator, ParallelIterator, ParallelSlice,
};
use vstd::prelude::*;

verus! {

/// How many chunks of at most `size` items a sequence of `n` items falls into.
pub open spec fn chunk_count(n: nat, size: nat) -> nat {
    if n % size == 0 {
        n / size
    } else {
        n / size + 1
    }
}

/// The chunk of `s` with index `i`: all chunks hold `size` items, but for the last one, which
/// holds what is left.
pub open spec fn chunk<T>(s: Seq<T>, size: nat, i: int) -> Seq<T> {
    s.subrange(
        i * size,
        if i * size + size <= s.len() {
            i * size + size
        } else {
            s.len() as int
        },
    )
}

/// `n / d`, rounded up.
pub fn ceil_div(n: usize, d: usize) -> (r: usize)
    requires
        d >= 1,
    ensures
        r == chunk_count(n as nat, d as nat),
{
    let q: usize = n / d;
    if n % d == 0 {
        q
    } else {
        proof {
            assert(n == d * q + n % d && q < n) by (nonlinear_arith)
                requires
                    d >= 1,
                    q == n / d,
                    n % d != 0,
            ;
        }
        q + 1
    }
}

/// Calls `rayon::current_num_threads`.
///
/// What the pool holds depends on the machine and on its settings. Claimed is only that
/// there is at least one thread: rayon builds no pool with fewer.
#[verifier::external_body]
pub(crate) fn current_num_threads() -> (n: usize)
    ensures
        n >= 1,
{
    rayon::current_num_threads()
}

/// Calls rayon's `par_chunks` on `data`, maps `f` over the chunks and collects the results.
///
/// Claimed is that the results stand in the order of the chunks, one for each, and that each
/// is what `f` returned for its chunk.
#[verifier::external_body]
pub(crate) fn map_chunks<T: Sync, R: Send, F: Fn(&[T]) -> R + Sync + Send>(
    data: &[T],
    size: usize,
    f: F,
) -> (r: Vec<R>)
    requires
        size >= 1,
        forall|c: &[T]| #[trigger] f.requires((c,)),
    ensures
        r@.len() == chunk_count(data@.len(), size as nat),
        forall|i: int|
            #![trigger r@[i]]
            0 <= i < r@.len() ==> exists|c: &[T]| #[trigger]
                f.ensures((c,), r@[i]) && c@ == chunk(data@, size as nat, i),
{
    data.par_chunks(size).map(f).collect()
}

/// Calls rayon's `par_chunks` on `x` and on `y`, zips the two, maps `f` over the pairs of
/// chunks and collects the results.
///
/// Claimed is that the results stand in the order of the chunks, one for each pair, and that
/// each is what `f` returned for the two chunks with its index.
#[verifier::external_body]
pub(crate) fn map_chunk_pairs<T: Sync, R: Send, F: Fn(&[T], &[T]) -> R + Sync + Send>(
    x: &[T],
    y: &[T],
    size: usize,
    f: F,
) -> (r: Vec<R>)
    requires
        size >= 1,
        x@.len() == y@.len(),
        forall|c: &[T], d: &[T]| c@.len() == d@.len() ==> #[trigger] f.requires((c, d)),
    ensures
        r@.len() == chunk_count(x@.len(), size as nat),
        forall|i: int|
            #![trigger r@[i]]
            0 <= i < r@.len() ==> exists|c: &[T], d: &[T]| #[trigger]
                f.ensures((c, d), r@[i]) && c@ == chunk(x@, size as nat, i) && d@ == chunk(
                    y@,
                    size as nat,
                    i,
                ),
{
    x.par_chunks(size).zip(y.par_chunks(size)).map(|(c, d)| f(c, d)).collect()
}

/// Calls rayon's `par_iter_mut` on `items` and runs `f` on each of them.
///
/// Claimed is that the items stay in place and that `f` has run once on each.
#[verifier::external_body]
pub(crate) fn for_each_item<R: Send, F: Fn(&mut R) + Sync + Send>(items: &mut Vec<R>, f: F)
    requires
        forall|m: &mut R| #[trigger] f.requires((m,)),
    ensures
        final(items)@.len() == old(items)@.len(),
        forall|i: int|
            #![trigger final(items)@[i]]
            0 <= i < final(items)@.len() ==> exists|m: &mut R| #[trigger]
                f.ensures((m,), ()) && *m == old(items)@[i] && *final(m) == final(items)@[i],
{
    items.par_iter_mut().for_each(f)
}

} // verus!
