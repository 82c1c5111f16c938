//! Kernel density estimation of one-dimensional data.
use vstd::prelude::*;

use crate::binning::{bin_width, binned, linear_binning_with_threads, zero_vec, zeros};
use crate::deriche::{are_poles, filter_poles, filter_with_poles, smoothed};
use crate::error::{Axis, KdeError};
use crate::parallel::current_num_threads;
use crate::scalar::{
    absolute, half, is_negligible, magnitude, negligible, one, tiny, total, total_of, zero, Arith,
    Scalar,
};

verus! {

/// A density on a grid.
pub struct KdeGrid<T> {
    /// The centres of the bins.
    pub x: Vec<T>,
    /// The density at the centres.
    pub pdf: Vec<T>,
}

impl<T> View for KdeGrid<T> {
    type V = (Seq<T>, Seq<T>);

    open spec fn view(&self) -> (Seq<T>, Seq<T>) {
        (self.x@, self.pdf@)
    }
}

/// How many numbers of `data` are infinite or undefined.
pub open spec fn non_finite_count<T: Arith>(data: Seq<T>) -> nat
    decreases data.len(),
{
    if data.len() == 0 {
        0
    } else {
        non_finite_count(data.drop_last()) + if data.last().finite() {
            0nat
        } else {
            1nat
        }
    }
}

/// Why an estimate of `data` is refused before it is looked at, if it is.
pub open spec fn request_error<T: Arith>(data: Seq<T>, bins: usize, sigma: T) -> Option<
    KdeError<T>,
> {
    if data.len() < 4 {
        Some(KdeError::TooFewSamples)
    } else if bins == 0 {
        Some(KdeError::NoBins)
    } else if non_finite_count(data) > 0 {
        Some(KdeError::NonFinite(non_finite_count(data) as usize))
    } else if sigma.below(zero()) {
        Some(KdeError::NegativeSigma)
    } else {
        None
    }
}

/// The smallest number of `data`.
pub open spec fn lowest<T: Arith>(data: Seq<T>) -> T
    decreases data.len(),
{
    if data.len() <= 1 {
        data[0]
    } else {
        let low = lowest(data.drop_last());
        if data.last().below(low) {
            data.last()
        } else {
            low
        }
    }
}

/// The largest number of `data`.
pub open spec fn highest<T: Arith>(data: Seq<T>) -> T
    decreases data.len(),
{
    if data.len() <= 1 {
        data[0]
    } else {
        let high = highest(data.drop_last());
        if high.below(data.last()) {
            data.last()
        } else {
            high
        }
    }
}

/// The centres of `bins` bins of the width `dx` from `xmin` on.
pub open spec fn centres<T: Arith>(xmin: T, dx: T, bins: nat) -> Seq<T> {
    Seq::new(bins, |i: int| xmin.plus(T::whole(i as usize).plus(half()).times(dx)))
}

/// The width of the bins over a range that has no width of its own.
pub open spec fn degenerate_width<T: Arith>(xmin: T, xmax: T, bins: usize) -> T {
    xmax.minus(xmin).plus(tiny()).over(T::whole(bins))
}

/// The density of data that lies at one place: all of it in the middle bin.
pub open spec fn degenerate<T: Arith>(xmin: T, xmax: T, bins: usize) -> (Seq<T>, Seq<T>) {
    let dx = degenerate_width(xmin, xmax, bins);
    (
        centres(xmin, dx, bins as nat),
        zeros(bins as nat).update(bins as int / 2, one::<T>().over(dx)),
    )
}

/// The histogram of a range, ready to be smoothed.
#[verifier::ext_equal]
pub struct BinnedRange<T> {
    /// The lower end of the range.
    pub xmin: T,
    /// The width of the bins.
    pub dx: T,
    /// The bandwidth, counted in bins.
    pub sigma: T,
    /// The weights of the bins.
    pub hist: Seq<T>,
}

/// Where an estimate stands before it is smoothed.
pub enum Stage<T> {
    /// There is nothing to smooth: this is the density.
    Finished((Seq<T>, Seq<T>)),
    /// This is to be smoothed.
    Binned(BinnedRange<T>),
}

/// Whether every entry counts as zero.
pub open spec fn all_negligible<T: Arith>(s: Seq<T>) -> bool {
    forall|i: int| 0 <= i < s.len() ==> negligible(#[trigger] s[i])
}

/// Whether some entry does not count as zero.
pub open spec fn some_sizable<T: Arith>(s: Seq<T>) -> bool {
    exists|i: int| 0 <= i < s.len() && tiny::<T>().at_most(magnitude(#[trigger] s[i]))
}

/// How far an estimate of `data` comes without smoothing, on `threads` threads.
pub open spec fn prepared<T: Arith>(data: Seq<T>, bins: usize, sigma: T, threads: usize) -> Result<
    Stage<T>,
    KdeError<T>,
> {
    match request_error(data, bins, sigma) {
        Some(e) => Err(e),
        None => {
            let xmin = lowest(data);
            let xmax = highest(data);
            let dx = bin_width(xmin, xmax, bins);
            if negligible(xmax.minus(xmin)) {
                Ok(Stage::Finished(degenerate(xmin, xmax, bins)))
            } else if xmax.below(xmin) {
                Err(KdeError::InvertedRange { axis: Axis::X, max: xmax, min: xmin })
            } else if negligible(dx) {
                Err(KdeError::BinTooNarrow)
            } else {
                let hist = binned(data, xmin, xmax, bins, threads);
                if all_negligible(hist) {
                    Ok(Stage::Finished((centres(xmin, dx, bins as nat), zeros(bins as nat))))
                } else {
                    let sigma = sigma.times(T::whole(bins).over(xmax.minus(xmin)));
                    Ok(Stage::Binned(BinnedRange { xmin, dx, sigma, hist }))
                }
            }
        },
    }
}

/// The histogram `hist` over bins of the width `dx`, brought to the integral one.
pub open spec fn normalized<T: Arith>(x: Seq<T>, hist: Seq<T>, dx: T) -> Result<
    (Seq<T>, Seq<T>),
    KdeError<T>,
> {
    let factor = total(hist).times(dx);
    if !negligible(factor) {
        Ok((x, Seq::new(hist.len(), |i: int| hist[i].over(factor))))
    } else if some_sizable(hist) {
        Err(KdeError::NotNormalizable)
    } else {
        Ok((x, hist))
    }
}

/// The density that comes of the histogram `b`, where the filter has the poles `poles`.
pub open spec fn finished<T: Arith>(b: BinnedRange<T>, pi: T, poles: Seq<(T, T)>) -> Result<
    (Seq<T>, Seq<T>),
    KdeError<T>,
> {
    normalized(centres(b.xmin, b.dx, b.hist.len()), smoothed(b.hist, b.sigma, pi, poles), b.dx)
}

/// Whether `r` is the estimate of `data` on `threads` threads, with the poles that `exp`, `cos`
/// and `sin` give the filter.
pub open spec fn is_estimate_on<T: Arith, E: Fn(T) -> T, C: Fn(T) -> T, S: Fn(T) -> T>(
    r: Result<(Seq<T>, Seq<T>), KdeError<T>>,
    data: Seq<T>,
    bins: usize,
    sigma: T,
    pi: T,
    exp: E,
    cos: C,
    sin: S,
    threads: usize,
) -> bool {
    match prepared(data, bins, sigma, threads) {
        Err(e) => r == Err::<(Seq<T>, Seq<T>), KdeError<T>>(e),
        Ok(Stage::Finished(grid)) => r == Ok::<(Seq<T>, Seq<T>), KdeError<T>>(grid),
        Ok(Stage::Binned(b)) => exists|poles: Seq<(T, T)>| #[trigger]
            are_poles(poles, b.sigma, exp, cos, sin) && r == finished(b, pi, poles),
    }
}

/// Whether `r` is the estimate of `data` on some number of threads.
pub open spec fn is_estimate<T: Arith, E: Fn(T) -> T, C: Fn(T) -> T, S: Fn(T) -> T>(
    r: Result<(Seq<T>, Seq<T>), KdeError<T>>,
    data: Seq<T>,
    bins: usize,
    sigma: T,
    pi: T,
    exp: E,
    cos: C,
    sin: S,
) -> bool {
    exists|threads: usize|
        threads >= 1 && #[trigger] is_estimate_on(
            r,
            data,
            bins,
            sigma,
            pi,
            exp,
            cos,
            sin,
            threads,
        )
}

/// What a computed result says of the estimate.
pub open spec fn grid_result<T>(r: Result<KdeGrid<T>, KdeError<T>>) -> Result<
    (Seq<T>, Seq<T>),
    KdeError<T>,
> {
    match r {
        Ok(grid) => Ok(grid@),
        Err(e) => Err(e),
    }
}

/// The index of the largest value, undefined values left aside: of the last one, where several
/// are largest.
pub open spec fn peak<T: Arith>(p: Seq<T>) -> Option<int>
    decreases p.len(),
{
    if p.len() == 0 {
        None
    } else {
        let before = peak(p.drop_last());
        let v = p.last();
        if !v.at_most(v) {
            before
        } else {
            match before {
                Some(j) if !p[j].at_most(v) => before,
                _ => Some(p.len() - 1),
            }
        }
    }
}

/// Whether some value is finite.
pub open spec fn some_finite<T: Arith>(p: Seq<T>) -> bool {
    exists|i: int| 0 <= i < p.len() && #[trigger] p[i].finite()
}

/// The place of the grid `x` where the density `pdf` is largest.
pub open spec fn mode<T: Arith>(x: Seq<T>, pdf: Seq<T>) -> Result<T, KdeError<T>> {
    if pdf.len() == 0 {
        Err(KdeError::EmptyDensity)
    } else if !some_finite(pdf) {
        Err(KdeError::NoValidMode)
    } else {
        match peak(pdf) {
            None => Err(KdeError::NoValidMode),
            Some(i) => if i < x.len() {
                Ok(x[i])
            } else {
                Err(KdeError::ModeOutsideGrid)
            },
        }
    }
}

/// The place where the density of an estimate is largest, or why there is none.
pub open spec fn mode_of<T: Arith>(g: Result<(Seq<T>, Seq<T>), KdeError<T>>) -> Result<
    T,
    KdeError<T>,
> {
    match g {
        Ok((x, pdf)) => mode(x, pdf),
        Err(e) => Err(e),
    }
}

/// Whether `r` is the place of a largest value of the density, if its values are in order and some
/// is finite.
pub open spec fn is_at_largest<T: Arith>(
    r: Result<T, KdeError<T>>,
    g: Result<(Seq<T>, Seq<T>), KdeError<T>>,
) -> bool {
    match g {
        Ok((x, pdf)) => ordered(pdf) && some_finite(pdf) ==> exists|i: int| #[trigger]
            is_largest(pdf, i) && r == Ok::<T, KdeError<T>>(x[i]),
        Err(_) => true,
    }
}

/// Whether any two of the values can be compared, and comparing them is transitive.
pub open spec fn ordered<T: Arith>(p: Seq<T>) -> bool {
    &&& forall|i: int, j: int|
        0 <= i < p.len() && 0 <= j < p.len() ==> #[trigger] p[i].at_most(p[j]) || p[j].at_most(p[i])
    &&& forall|i: int, j: int, k: int|
        0 <= i < p.len() && 0 <= j < p.len() && 0 <= k < p.len() && #[trigger] p[i].at_most(p[j])
            && #[trigger] p[j].at_most(p[k]) ==> p[i].at_most(p[k])
}

/// Whether no value exceeds the one at `i`.
pub open spec fn is_largest<T: Arith>(p: Seq<T>, i: int) -> bool {
    &&& 0 <= i < p.len()
    &&& forall|j: int| 0 <= j < p.len() ==> (#[trigger] p[j]).at_most(p[i])
}

/// Of values in order, none exceeds the one at the peak.
proof fn lemma_peak_is_largest<T: Arith>(p: Seq<T>)
    requires
        ordered(p),
        p.len() >= 1,
    ensures
        match peak(p) {
            Some(i) => is_largest(p, i),
            None => false,
        },
    decreases p.len(),
{
    let rest = p.drop_last();
    let last = p.len() - 1;
    assert(p[last].at_most(p[last]));
    if rest.len() == 0 {
        assert(peak(rest) is None);
    } else {
        assert forall|i: int, j: int|
            0 <= i < rest.len() && 0 <= j < rest.len() implies #[trigger] rest[i].at_most(rest[j])
            || rest[j].at_most(rest[i]) by {
            assert(p[i].at_most(p[j]) || p[j].at_most(p[i]));
        }
        assert forall|i: int, j: int, k: int|
            0 <= i < rest.len() && 0 <= j < rest.len() && 0 <= k < rest.len()
                && #[trigger] rest[i].at_most(rest[j]) && #[trigger] rest[j].at_most(
                rest[k],
            ) implies rest[i].at_most(rest[k]) by {
            assert(p[i].at_most(p[j]) && p[j].at_most(p[k]));
        }
        lemma_peak_is_largest(rest);
        let best = peak(rest)->Some_0;
        let top = peak(p)->Some_0;
        assert(p[best].at_most(p[last]) || p[last].at_most(p[best]));
        assert forall|j: int| 0 <= j < p.len() implies (#[trigger] p[j]).at_most(p[top]) by {
            if j < last {
                assert(rest[j].at_most(rest[best]));
                assert(p[j].at_most(p[best]));
            }
        }
    }
}

/// What the mode is: for values in order of which some is finite, it is the place of a largest one.
pub proof fn law_mode_is_place_of_largest<T: Arith>(x: Seq<T>, pdf: Seq<T>)
    requires
        x.len() == pdf.len(),
        ordered(pdf),
        some_finite(pdf),
    ensures
        exists|i: int| #[trigger]
            is_largest(pdf, i) && mode(x, pdf) == Ok::<T, KdeError<T>>(x[i]),
{
    lemma_peak_is_largest(pdf);
}

/// A histogram has as many entries as there are bins, on any number of threads.
proof fn lemma_binned_len<T: Arith>(data: Seq<T>, xmin: T, xmax: T, bins: usize, threads: usize)
    ensures
        binned(data, xmin, xmax, bins, threads).len() == bins,
{
}

/// The grid and the density of an estimate have one entry for each bin, and there are bins.
pub proof fn law_estimate_has_an_entry_for_each_bin<
    T: Arith,
    E: Fn(T) -> T,
    C: Fn(T) -> T,
    S: Fn(T) -> T,
>(
    r: Result<(Seq<T>, Seq<T>), KdeError<T>>,
    data: Seq<T>,
    bins: usize,
    sigma: T,
    pi: T,
    exp: E,
    cos: C,
    sin: S,
)
    requires
        is_estimate(r, data, bins, sigma, pi, exp, cos, sin),
    ensures
        match r {
            Ok((x, pdf)) => x.len() == bins && pdf.len() == bins && bins >= 1,
            Err(_) => true,
        },
{
    let threads = choose|threads: usize|
        threads >= 1 && #[trigger] is_estimate_on(
            r,
            data,
            bins,
            sigma,
            pi,
            exp,
            cos,
            sin,
            threads,
        );
    lemma_binned_len(data, lowest(data), highest(data), bins, threads);
}

/// The histogram of a range, ready to be smoothed.
pub struct BinnedData<T> {
    /// The lower end of the range.
    pub xmin: T,
    /// The width of the bins.
    pub dx: T,
    /// The bandwidth, counted in bins.
    pub sigma: T,
    /// The weights of the bins.
    pub hist: Vec<T>,
}

impl<T> View for BinnedData<T> {
    type V = BinnedRange<T>;

    open spec fn view(&self) -> BinnedRange<T> {
        BinnedRange { xmin: self.xmin, dx: self.dx, sigma: self.sigma, hist: self.hist@ }
    }
}

/// Where an estimate stands before it is smoothed.
pub enum Prepared<T> {
    /// There is nothing to smooth: this is the density.
    Finished(KdeGrid<T>),
    /// This is to be smoothed.
    Binned(BinnedData<T>),
}

impl<T> View for Prepared<T> {
    type V = Stage<T>;

    open spec fn view(&self) -> Stage<T> {
        match *self {
            Prepared::Finished(grid) => Stage::Finished(grid@),
            Prepared::Binned(b) => Stage::Binned(b@),
        }
    }
}

/// How many numbers of `data` are infinite or undefined.
fn count_non_finite<T: Scalar>(data: &[T]) -> (r: usize)
    ensures
        r == non_finite_count(data@),
{
    let n: usize = data.len();
    let mut count: usize = 0;
    for i in 0..n
        invariant
            n == data@.len(),
            count <= i,
            count == non_finite_count(data@.take(i as int)),
    {
        proof {
            assert(data@.take(i + 1).drop_last() =~= data@.take(i as int));
        }
        if !data[i].is_finite() {
            count = count + 1;
        }
    }
    proof {
        assert(data@.take(n as int) =~= data@);
    }
    count
}

/// Why an estimate of `data` is refused before it is looked at, if it is.
pub fn check_request<T: Scalar>(data: &[T], bins: usize, sigma: T) -> (r: Option<KdeError<T>>)
    ensures
        r == request_error(data@, bins, sigma),
{
    if data.len() < 4 {
        return Some(KdeError::TooFewSamples);
    }
    if bins == 0 {
        return Some(KdeError::NoBins);
    }
    let count: usize = count_non_finite(data);
    if count > 0 {
        return Some(KdeError::NonFinite(count));
    }
    if sigma.is_below(T::of_usize(0)) {
        return Some(KdeError::NegativeSigma);
    }
    None
}

/// The smallest and the largest number of `data`.
pub fn data_range<T: Scalar>(data: &[T]) -> (r: (T, T))
    requires
        data@.len() >= 1,
    ensures
        r == (lowest(data@), highest(data@)),
{
    let n: usize = data.len();
    let mut low: T = data[0];
    let mut high: T = data[0];
    for i in 1..n
        invariant
            n == data@.len() >= 1,
            low == lowest(data@.take(i as int)),
            high == highest(data@.take(i as int)),
    {
        proof {
            assert(data@.take(i + 1).drop_last() =~= data@.take(i as int));
        }
        let v: T = data[i];
        if v.is_below(low) {
            low = v;
        }
        if high.is_below(v) {
            high = v;
        }
    }
    proof {
        assert(data@.take(n as int) =~= data@);
    }
    (low, high)
}

/// The centres of `bins` bins of the width `dx` from `xmin` on.
pub fn bin_centres<T: Scalar>(xmin: T, dx: T, bins: usize) -> (r: Vec<T>)
    ensures
        r@ == centres(xmin, dx, bins as nat),
{
    let half: T = T::of_ratio(1, 2);
    let mut r: Vec<T> = Vec::new();
    for i in 0..bins
        invariant
            half == crate::scalar::half::<T>(),
            r@ == centres(xmin, dx, i as nat),
    {
        r.push(xmin.sum(T::of_usize(i).sum(half).product(dx)));
        proof {
            assert(r@ =~= centres(xmin, dx, (i + 1) as nat));
        }
    }
    r
}

/// The density of data that lies at one place.
fn degenerate_grid<T: Scalar>(xmin: T, xmax: T, bins: usize) -> (r: KdeGrid<T>)
    requires
        bins >= 1,
    ensures
        r@ == degenerate(xmin, xmax, bins),
{
    let width: T = xmax.difference(xmin).sum(T::of_ratio(1, 1_000_000_000));
    let dx: T = width.quotient(T::of_usize(bins));
    let mut pdf: Vec<T> = zero_vec(bins);
    pdf.set(bins / 2, T::of_usize(1).quotient(dx));
    KdeGrid { x: bin_centres(xmin, dx, bins), pdf }
}

/// Whether every entry counts as zero.
fn are_all_negligible<T: Scalar>(s: &Vec<T>) -> (r: bool)
    ensures
        r == all_negligible(s@),
{
    for i in 0..s.len()
        invariant
            forall|j: int| 0 <= j < i ==> negligible(#[trigger] s@[j]),
    {
        if !is_negligible(s[i]) {
            return false;
        }
    }
    true
}

/// Whether some entry does not count as zero.
fn is_some_sizable<T: Scalar>(s: &Vec<T>) -> (r: bool)
    ensures
        r == some_sizable(s@),
{
    let tiny: T = T::of_ratio(1, 1_000_000_000);
    for i in 0..s.len()
        invariant
            tiny == crate::scalar::tiny::<T>(),
            forall|j: int| 0 <= j < i ==> !tiny.at_most(magnitude(#[trigger] s@[j])),
    {
        if tiny.is_at_most(absolute(s[i])) {
            return true;
        }
    }
    false
}

/// Checks the request, finds the range of `data` and bins it, with one chunk for each of
/// `threads` threads.
pub fn prepare<T: Scalar>(data: &[T], bins: usize, sigma: T, threads: usize) -> (r: Result<
    Prepared<T>,
    KdeError<T>,
>)
    requires
        threads >= 1,
    ensures
        match r {
            Ok(stage) => prepared(data@, bins, sigma, threads)
                == Ok::<Stage<T>, KdeError<T>>(stage@),
            Err(e) => prepared(data@, bins, sigma, threads) == Err::<Stage<T>, KdeError<T>>(e),
        },
{
    match check_request(data, bins, sigma) {
        Some(e) => {
            return Err(e);
        },
        None => {},
    }
    let (xmin, xmax) = data_range(data);
    let range: T = xmax.difference(xmin);
    if is_negligible(range) {
        return Ok(Prepared::Finished(degenerate_grid(xmin, xmax, bins)));
    }
    if xmax.is_below(xmin) {
        return Err(KdeError::InvertedRange { axis: Axis::X, max: xmax, min: xmin });
    }
    let dx: T = range.quotient(T::of_usize(bins));
    if is_negligible(dx) {
        return Err(KdeError::BinTooNarrow);
    }
    let hist: Vec<T> = linear_binning_with_threads(data, xmin, xmax, bins, threads);
    if are_all_negligible(&hist) {
        let x: Vec<T> = bin_centres(xmin, dx, bins);
        return Ok(Prepared::Finished(KdeGrid { x, pdf: zero_vec(bins) }));
    }
    let sigma_in_bins: T = sigma.product(T::of_usize(bins).quotient(range));
    Ok(Prepared::Binned(BinnedData { xmin, dx, sigma: sigma_in_bins, hist }))
}

/// Brings the histogram `hist` over bins of the width `dx` to the integral one.
pub fn normalize<T: Scalar>(x: Vec<T>, hist: Vec<T>, dx: T) -> (r: Result<KdeGrid<T>, KdeError<T>>)
    ensures
        grid_result(r) == normalized(x@, hist@, dx),
{
    let factor: T = total_of(hist.as_slice()).product(dx);
    if is_negligible(factor) {
        if is_some_sizable(&hist) {
            return Err(KdeError::NotNormalizable);
        }
        return Ok(KdeGrid { x, pdf: hist });
    }
    let mut pdf: Vec<T> = Vec::new();
    for i in 0..hist.len()
        invariant
            pdf@ == Seq::new(i as nat, |j: int| hist@[j].over(factor)),
    {
        pdf.push(hist[i].quotient(factor));
        proof {
            assert(pdf@ =~= Seq::new((i + 1) as nat, |j: int| hist@[j].over(factor)));
        }
    }
    Ok(KdeGrid { x, pdf })
}

/// Smooths and normalizes the histogram `b`, where the filter has the poles `poles`.
pub fn finish<T: Scalar>(b: BinnedData<T>, pi: T, poles: &Vec<(T, T)>) -> (r: Result<
    KdeGrid<T>,
    KdeError<T>,
>)
    requires
        poles@.len() == 4,
    ensures
        grid_result(r) == finished(b@, pi, poles@),
{
    let x: Vec<T> = bin_centres(b.xmin, b.dx, b.hist.len());
    let mut hist: Vec<T> = b.hist;
    filter_with_poles(hist.as_mut_slice(), b.sigma, pi, poles);
    normalize(x, hist, b.dx)
}

/// The density of `data` on a grid of `bins` bins over its range, estimated with a Gaussian
/// kernel of the bandwidth `sigma`, with one chunk of the data for each of `threads` threads.
pub fn kde_deriche_with_threads<T: Scalar, E: Fn(T) -> T, C: Fn(T) -> T, S: Fn(T) -> T>(
    data: &[T],
    bins: usize,
    sigma: T,
    pi: T,
    exp: &E,
    cos: &C,
    sin: &S,
    threads: usize,
) -> (r: Result<KdeGrid<T>, KdeError<T>>)
    requires
        threads >= 1,
        forall|x: T| #[trigger] exp.requires((x,)),
        forall|x: T| #[trigger] cos.requires((x,)),
        forall|x: T| #[trigger] sin.requires((x,)),
    ensures
        is_estimate_on(grid_result(r), data@, bins, sigma, pi, *exp, *cos, *sin, threads),
{
    match prepare(data, bins, sigma, threads) {
        Err(e) => Err(e),
        Ok(Prepared::Finished(grid)) => Ok(grid),
        Ok(Prepared::Binned(b)) => {
            let poles: Vec<(T, T)> = filter_poles(b.sigma, exp, cos, sin);
            finish(b, pi, &poles)
        },
    }
}

/// The density of `data` on a grid of `bins` bins over its range, estimated with a Gaussian
/// kernel of the bandwidth `sigma`.
///
/// The histogram is computed on the current thread pool, and how many threads that has depends
/// on the machine.
pub fn kde_deriche<T: Scalar, E: Fn(T) -> T, C: Fn(T) -> T, S: Fn(T) -> T>(
    data: &[T],
    bins: usize,
    sigma: T,
    pi: T,
    exp: &E,
    cos: &C,
    sin: &S,
) -> (r: Result<KdeGrid<T>, KdeError<T>>)
    requires
        forall|x: T| #[trigger] exp.requires((x,)),
        forall|x: T| #[trigger] cos.requires((x,)),
        forall|x: T| #[trigger] sin.requires((x,)),
    ensures
        is_estimate(grid_result(r), data@, bins, sigma, pi, *exp, *cos, *sin),
{
    let threads: usize = current_num_threads();
    kde_deriche_with_threads(data, bins, sigma, pi, exp, cos, sin, threads)
}

/// The place of the grid `x` where the density `pdf` is largest.
pub fn find_mode<T: Scalar>(x: &Vec<T>, pdf: &Vec<T>) -> (r: Result<T, KdeError<T>>)
    ensures
        r == mode(x@, pdf@),
        x@.len() == pdf@.len() && ordered(pdf@) && some_finite(pdf@) ==> exists|i: int| #[trigger]
            is_largest(pdf@, i) && r == Ok::<T, KdeError<T>>(x@[i]),
{
    proof {
        if x@.len() == pdf@.len() && ordered(pdf@) && some_finite(pdf@) {
            law_mode_is_place_of_largest(x@, pdf@);
        }
    }
    let n: usize = pdf.len();
    if n == 0 {
        return Err(KdeError::EmptyDensity);
    }
    let mut best: Option<usize> = None;
    let mut any_finite: bool = false;
    for i in 0..n
        invariant
            n == pdf@.len(),
            any_finite == (exists|j: int| 0 <= j < i && #[trigger] pdf@[j].finite()),
            peak(pdf@.take(i as int)) == (match best {
                Some(j) => Some(j as int),
                None => None::<int>,
            }),
            match best {
                Some(j) => j < i,
                None => true,
            },
    {
        proof {
            assert(pdf@.take(i + 1).drop_last() =~= pdf@.take(i as int));
        }
        let v: T = pdf[i];
        if v.is_finite() {
            any_finite = true;
        }
        if v.is_at_most(v) {
            match best {
                Some(j) => {
                    if pdf[j].is_at_most(v) {
                        best = Some(i);
                    }
                },
                None => {
                    best = Some(i);
                },
            }
        }
    }
    proof {
        assert(pdf@.take(n as int) =~= pdf@);
    }
    if !any_finite {
        return Err(KdeError::NoValidMode);
    }
    match best {
        None => Err(KdeError::NoValidMode),
        Some(i) => {
            if i < x.len() {
                Ok(x[i])
            } else {
                Err(KdeError::ModeOutsideGrid)
            }
        },
    }
}

/// The mode of `data`: the place of the grid where the estimate of its density is largest, with one
/// chunk of the data for each of `threads` threads.
pub fn kde_mode_deriche_with_threads<T: Scalar, E: Fn(T) -> T, C: Fn(T) -> T, S: Fn(T) -> T>(
    data: &[T],
    bins: usize,
    sigma: T,
    pi: T,
    exp: &E,
    cos: &C,
    sin: &S,
    threads: usize,
) -> (r: Result<T, KdeError<T>>)
    requires
        threads >= 1,
        forall|x: T| #[trigger] exp.requires((x,)),
        forall|x: T| #[trigger] cos.requires((x,)),
        forall|x: T| #[trigger] sin.requires((x,)),
    ensures
        exists|g: Result<(Seq<T>, Seq<T>), KdeError<T>>| #[trigger]
            is_estimate_on(g, data@, bins, sigma, pi, *exp, *cos, *sin, threads) && r == mode_of(g)
                && is_at_largest(r, g),
{
    let g: Result<KdeGrid<T>, KdeError<T>> = kde_deriche_with_threads(
        data,
        bins,
        sigma,
        pi,
        exp,
        cos,
        sin,
        threads,
    );
    let ghost view = grid_result(g);
    proof {
        assert(is_estimate_on(view, data@, bins, sigma, pi, *exp, *cos, *sin, threads));
        law_estimate_has_an_entry_for_each_bin(
            view,
            data@,
            bins,
            sigma,
            pi,
            *exp,
            *cos,
            *sin,
        );
    }
    match g {
        Ok(grid) => find_mode(&grid.x, &grid.pdf),
        Err(e) => Err(e),
    }
}

/// The mode of `data`: the place of the grid where the estimate of its density is largest.
///
/// The histogram is computed on the current thread pool, and how many threads that has depends
/// on the machine.
pub fn kde_mode_deriche<T: Scalar, E: Fn(T) -> T, C: Fn(T) -> T, S: Fn(T) -> T>(
    data: &[T],
    bins: usize,
    sigma: T,
    pi: T,
    exp: &E,
    cos: &C,
    sin: &S,
) -> (r: Result<T, KdeError<T>>)
    requires
        forall|x: T| #[trigger] exp.requires((x,)),
        forall|x: T| #[trigger] cos.requires((x,)),
        forall|x: T| #[trigger] sin.requires((x,)),
    ensures
        exists|g: Result<(Seq<T>, Seq<T>), KdeError<T>>| #[trigger]
            is_estimate(g, data@, bins, sigma, pi, *exp, *cos, *sin) && r == mode_of(g)
                && is_at_largest(r, g),
{
    let threads: usize = current_num_threads();
    let r: Result<T, KdeError<T>> = kde_mode_deriche_with_threads(
        data,
        bins,
        sigma,
        pi,
        exp,
        cos,
        sin,
        threads,
    );
    proof {
        let g = choose|g: Result<(Seq<T>, Seq<T>), KdeError<T>>| #[trigger]
            is_estimate_on(g, data@, bins, sigma, pi, *exp, *cos, *sin, threads) && r == mode_of(g)
                && is_at_largest(r, g);
        assert(is_estimate(g, data@, bins, sigma, pi, *exp, *cos, *sin));
    }
    r
}

} // verus!
