//! Linear binning of one-dimensional data.
use vstd::prelude::*;

use crate::parallel::{ceil_div, chunk, chunk_count, current_num_threads, map_chunks};
use crate::scalar::{is_negligible, negligible, one, zero, Arith, Scalar};

verus! {

/// The width of one of `bins` bins over `[xmin, xmax]`.
pub open spec fn bin_width<T: Arith>(xmin: T, xmax: T, bins: usize) -> T {
    xmax.minus(xmin).over(T::whole(bins))
}

/// Where `x` lies, counted in bins of width `width` from `xmin`.
pub open spec fn bin_position<T: Arith>(x: T, xmin: T, width: T) -> T {
    x.minus(xmin).over(width)
}

/// The weight that bin `i` of `bins` receives from the data point `x`, if it receives any.
///
/// A point inside the range is shared between the bin that it lies in and the next one, in
/// proportion to how far it has moved through its bin. A point that closes the range counts
/// for the last bin.
pub open spec fn share<T: Arith>(x: T, xmin: T, xmax: T, width: T, bins: nat, i: int) -> Option<
    T,
> {
    if xmin.at_most(x) && x.below(xmax) {
        let pos = bin_position(x, xmin, width);
        let k = pos.floor_index();
        let past = pos.minus(T::whole(k));
        if i == k {
            Some(one::<T>().minus(past))
        } else if i == k + 1 {
            Some(past)
        } else {
            None
        }
    } else if negligible(x.minus(xmax)) && i == bins - 1 {
        Some(one())
    } else {
        None
    }
}

/// `hist` with the weights of the data point `x` added.
pub open spec fn deposited<T: Arith>(hist: Seq<T>, x: T, xmin: T, xmax: T, width: T) -> Seq<T> {
    Seq::new(
        hist.len(),
        |i: int|
            match share(x, xmin, xmax, width, hist.len(), i) {
                Some(w) => hist[i].plus(w),
                None => hist[i],
            },
    )
}

/// A histogram of `bins` zeros.
pub open spec fn zeros<T: Arith>(bins: nat) -> Seq<T> {
    Seq::new(bins, |i: int| zero())
}

/// The histogram of `data`, filled point by point.
pub open spec fn histogram<T: Arith>(data: Seq<T>, xmin: T, xmax: T, width: T, bins: nat) -> Seq<T>
    decreases data.len(),
{
    if data.len() == 0 {
        zeros(bins)
    } else {
        let before = histogram(data.drop_last(), xmin, xmax, width, bins);
        deposited(before, data.last(), xmin, xmax, width)
    }
}

/// The histograms of the first `n` chunks of `data`, added up in order.
pub open spec fn merged<T: Arith>(
    data: Seq<T>,
    xmin: T,
    xmax: T,
    width: T,
    bins: nat,
    size: nat,
    n: nat,
) -> Seq<T>
    decreases n,
{
    if n == 0 {
        zeros(bins)
    } else {
        let before = merged(data, xmin, xmax, width, bins, size, (n - 1) as nat);
        let local = histogram(chunk(data, size, n - 1), xmin, xmax, width, bins);
        Seq::new(bins, |i: int| before[i].plus(local[i]))
    }
}

/// The histogram of `data` over `bins` bins of `[xmin, xmax]`, as `threads` threads compute
/// it: each takes one chunk of the data.
pub open spec fn binned<T: Arith>(
    data: Seq<T>,
    xmin: T,
    xmax: T,
    bins: usize,
    threads: usize,
) -> Seq<T> {
    let width = bin_width(xmin, xmax, bins);
    if bins == 0 || negligible(width) || data.len() == 0 {
        zeros(bins as nat)
    } else {
        let size = chunk_count(data.len(), threads as nat);
        merged(data, xmin, xmax, width, bins as nat, size, chunk_count(data.len(), size))
    }
}

/// A vector of `bins` zeros.
pub fn zero_vec<T: Scalar>(bins: usize) -> (r: Vec<T>)
    ensures
        r@ == zeros::<T>(bins as nat),
{
    let zero: T = T::of_usize(0);
    let mut r: Vec<T> = Vec::new();
    for i in 0..bins
        invariant
            zero == crate::scalar::zero::<T>(),
            r@ == zeros::<T>(i as nat),
    {
        r.push(zero);
        proof {
            assert(r@ =~= zeros::<T>((i + 1) as nat));
        }
    }
    r
}

/// Adds the weights of the data point `x` to `hist`.
fn deposit<T: Scalar>(hist: &mut Vec<T>, x: T, xmin: T, xmax: T, width: T)
    requires
        old(hist)@.len() >= 1,
    ensures
        final(hist)@ == deposited(old(hist)@, x, xmin, xmax, width),
{
    let bins: usize = hist.len();
    if xmin.is_at_most(x) && x.is_below(xmax) {
        let pos: T = x.difference(xmin).quotient(width);
        let k: usize = pos.floor_to_index();
        let past: T = pos.difference(T::of_usize(k));
        if k < bins {
            let left: T = hist[k].sum(T::of_usize(1).difference(past));
            hist.set(k, left);
            if k < bins - 1 {
                let right: T = hist[k + 1].sum(past);
                hist.set(k + 1, right);
            }
        }
    } else if is_negligible(x.difference(xmax)) {
        let last: T = hist[bins - 1].sum(T::of_usize(1));
        hist.set(bins - 1, last);
    }
    proof {
        assert(hist@ =~= deposited(old(hist)@, x, xmin, xmax, width));
    }
}

/// The histogram of one chunk.
fn chunk_histogram<T: Scalar>(data: &[T], xmin: T, xmax: T, width: T, bins: usize) -> (r: Vec<T>)
    requires
        bins >= 1,
    ensures
        r@ == histogram(data@, xmin, xmax, width, bins as nat),
{
    let n: usize = data.len();
    let mut hist: Vec<T> = zero_vec(bins);
    for i in 0..n
        invariant
            n == data@.len(),
            bins >= 1,
            hist@.len() == bins,
            hist@ == histogram(data@.take(i as int), xmin, xmax, width, bins as nat),
    {
        deposit(&mut hist, data[i], xmin, xmax, width);
        proof {
            assert(data@.take(i + 1).drop_last() =~= data@.take(i as int));
        }
    }
    proof {
        assert(data@.take(n as int) =~= data@);
    }
    hist
}

/// Adds `local` to `global`, bin by bin.
fn add_histogram<T: Scalar>(global: &mut Vec<T>, local: &Vec<T>)
    requires
        old(global)@.len() == local@.len(),
    ensures
        final(global)@ == Seq::new(local@.len(), |i: int| old(global)@[i].plus(local@[i])),
{
    let bins: usize = local.len();
    for i in 0..bins
        invariant
            bins == local@.len(),
            global@.len() == bins,
            forall|j: int| 0 <= j < i ==> #[trigger] global@[j] == old(global)@[j].plus(local@[j]),
            forall|j: int| i <= j < bins ==> #[trigger] global@[j] == old(global)@[j],
    {
        let s: T = global[i].sum(local[i]);
        global.set(i, s);
    }
    proof {
        assert(global@ =~= Seq::new(local@.len(), |i: int| old(global)@[i].plus(local@[i])));
    }
}

/// The histogram of `data` over `bins` bins of `[xmin, xmax]`, with one chunk of the data for
/// each of `threads` threads.
pub fn linear_binning_with_threads<T: Scalar>(
    data: &[T],
    xmin: T,
    xmax: T,
    bins: usize,
    threads: usize,
) -> (r: Vec<T>)
    requires
        threads >= 1,
    ensures
        r@ == binned(data@, xmin, xmax, bins, threads),
{
    let width: T = xmax.difference(xmin).quotient(T::of_usize(bins));
    if bins == 0 || is_negligible(width) || data.len() == 0 {
        return zero_vec(bins);
    }
    let size: usize = ceil_div(data.len(), threads);
    proof {
        assert(size >= 1) by (nonlinear_arith)
            requires
                data@.len() >= 1,
                threads >= 1,
                size == chunk_count(data@.len(), threads as nat),
        ;
    }
    let f = |c: &[T]| -> (h: Vec<T>)
        ensures
            h@ == histogram(c@, xmin, xmax, width, bins as nat),
        { chunk_histogram(c, xmin, xmax, width, bins) };
    let locals: Vec<Vec<T>> = map_chunks(data, size, f);
    let n: usize = locals.len();
    let mut global: Vec<T> = zero_vec(bins);
    for i in 0..n
        invariant
            n == locals@.len(),
            n == chunk_count(data@.len(), size as nat),
            global@.len() == bins,
            global@ == merged(data@, xmin, xmax, width, bins as nat, size as nat, i as nat),
            forall|j: int|
                0 <= j < n ==> #[trigger] locals@[j]@ == histogram(
                    chunk(data@, size as nat, j),
                    xmin,
                    xmax,
                    width,
                    bins as nat,
                ),
    {
        proof {
            let part = chunk(data@, size as nat, i as int);
            lemma_histogram_len(part, xmin, xmax, width, bins as nat);
        }
        add_histogram(&mut global, &locals[i]);
    }
    global
}

/// The histogram of `data` over `bins` bins of `[xmin, xmax]`, computed on the current thread
/// pool.
///
/// How many threads the pool has depends on the machine, and with it how the sums are
/// grouped.
pub fn linear_binning<T: Scalar>(data: &[T], xmin: T, xmax: T, bins: usize) -> (r: Vec<T>)
    ensures
        exists|threads: usize|
            threads >= 1 && r@ == #[trigger] binned(data@, xmin, xmax, bins, threads),
{
    let threads: usize = current_num_threads();
    linear_binning_with_threads(data, xmin, xmax, bins, threads)
}

/// A histogram has as many entries as there are bins.
pub proof fn lemma_histogram_len<T: Arith>(data: Seq<T>, xmin: T, xmax: T, width: T, bins: nat)
    ensures
        histogram(data, xmin, xmax, width, bins).len() == bins,
    decreases data.len(),
{
    if data.len() > 0 {
        lemma_histogram_len(data.drop_last(), xmin, xmax, width, bins);
    }
}

} // verus!
