use fast_kde::error::{inverted_range_message, Axis, KdeError};
use fast_kde::exact::Exact;
use fast_kde::kde::{
    bin_centres, check_request, data_range, find_mode, finish, kde_deriche,
    kde_deriche_with_threads, kde_mode_deriche,
    kde_mode_deriche_with_threads, normalize, prepare, BinnedData, KdeGrid, Prepared,
};
use fast_kde::kde_2d::{
    check_request_2d, finish_2d, kde_deriche_2d, kde_deriche_2d_with_threads, normalize_2d,
    prepare_2d, BinnedPoints, KdeGrid2d,
};
use fast_kde::scalar::{total_of, Scalar};
use fast_kde::table::{
    kde_deriche_2d_of_table, kde_deriche_2d_of_table_with_threads, split_axes, table_layout, Layout,
};

fn q(num: u32, den: u32) -> Exact {
    Exact::of_ratio(num, den)
}

fn m(num: u32, den: u32) -> Exact {
    q(num, den).opposite()
}

fn w(n: usize) -> Exact {
    Exact::of_usize(n)
}

fn undefined() -> Exact {
    w(1).quotient(w(0))
}

fn id(x: Exact) -> Exact {
    x
}

fn density(r: Result<KdeGrid<Exact>, KdeError<Exact>>) -> KdeGrid<Exact> {
    match r {
        Ok(grid) => grid,
        Err(e) => panic!("refused: {:?}", e),
    }
}

fn density_2d(r: Result<KdeGrid2d<Exact>, KdeError<Exact>>) -> KdeGrid2d<Exact> {
    match r {
        Ok(grid) => grid,
        Err(e) => panic!("refused: {:?}", e),
    }
}

fn estimate(data: &[Exact], bins: usize, sigma: Exact) -> Result<KdeGrid<Exact>, KdeError<Exact>> {
    kde_deriche(data, bins, sigma, w(2), &id, &id, &id)
}

fn refusal(data: &[Exact], bins: usize, sigma: Exact) -> KdeError<Exact> {
    match estimate(data, bins, sigma) {
        Ok(_) => panic!("not refused"),
        Err(e) => e,
    }
}

fn sample() -> Vec<Exact> {
    vec![w(0), w(1), w(3), w(7), w(8)]
}

fn text(e: KdeError<Exact>) -> String {
    e.message(&|x: Exact| format!("{}/{}", x.num, x.den))
}

#[test]
fn fewer_than_four_samples_are_refused() {
    let e = refusal(&[w(1), w(2), w(3)], 8, w(1));
    assert_eq!(e, KdeError::TooFewSamples);
    assert_eq!(text(e), "Need at least 4 samples for KDE.");
    assert!(estimate(&[w(1), w(2), w(3), w(4)], 8, w(0)).is_ok());
}

#[test]
fn no_bins_are_refused() {
    let e = refusal(&sample(), 0, w(1));
    assert_eq!(e, KdeError::NoBins);
    assert_eq!(text(e), "Number of bins must be greater than 0.");
}

#[test]
fn undefined_samples_are_counted_and_refused() {
    let data = vec![w(1), undefined(), w(3), undefined(), w(4)];
    let e = refusal(&data, 8, w(1));
    assert_eq!(e, KdeError::NonFinite(2));
    assert_eq!(text(e), "Input data must be finite; found 2 non-finite value(s).");
    assert_eq!(
        text(KdeError::NonFinite(1203)),
        "Input data must be finite; found 1203 non-finite value(s)."
    );
}

#[test]
fn a_negative_bandwidth_is_refused() {
    let e = refusal(&sample(), 8, m(1, 2));
    assert_eq!(e, KdeError::NegativeSigma);
    assert_eq!(text(e), "Sigma must be non-negative.");
}

#[test]
fn the_checks_come_in_order() {
    let short = vec![undefined()];
    assert_eq!(check_request(&short, 0, m(1, 1)), Some(KdeError::TooFewSamples));
    let four = vec![undefined(); 4];
    assert_eq!(check_request(&four, 0, m(1, 1)), Some(KdeError::NoBins));
    assert_eq!(check_request(&four, 1, m(1, 1)), Some(KdeError::NonFinite(4)));
    assert_eq!(check_request(&sample(), 1, m(1, 1)), Some(KdeError::NegativeSigma));
    assert_eq!(check_request(&sample(), 1, w(0)), None);
}

#[test]
fn bins_without_width_are_refused() {
    let data = vec![w(0), w(0), w(0), q(1, 500_000_000)];
    let e = refusal(&data, 3, w(1));
    assert_eq!(e, KdeError::BinTooNarrow);
    assert_eq!(text(e), "dx (bin width) is too small or zero.");
    assert!(estimate(&data, 2, w(0)).is_ok());
}

#[test]
fn data_at_one_place_fills_the_middle_bin() {
    let data = vec![w(5), w(5), w(5), w(5)];
    let g = density(estimate(&data, 4, w(1)));
    let dx = q(1, 4_000_000_000);
    assert_eq!(g.pdf, vec![w(0), w(0), w(4_000_000_000), w(0)]);
    assert_eq!(g.x[0], w(5).sum(dx.product(q(1, 2))));
    assert_eq!(g.x[3], w(5).sum(dx.product(q(7, 2))));
    assert_eq!(total_of(&g.pdf).product(dx), w(1));
}

#[test]
fn the_range_of_the_data() {
    assert_eq!(data_range(&[w(3), w(1), w(8), w(1), w(2)]), (w(1), w(8)));
    assert_eq!(data_range(&[w(3)]), (w(3), w(3)));
}

#[test]
fn the_centres_of_the_bins() {
    assert_eq!(bin_centres(w(1), w(2), 3), vec![w(2), w(4), w(6)]);
    assert_eq!(bin_centres(w(1), q(1, 2), 2), vec![q(5, 4), q(7, 4)]);
}

#[test]
fn without_smoothing_the_histogram_is_normalized() {
    let g = density(estimate(&sample(), 4, w(0)));
    assert_eq!(g.x, vec![w(1), w(3), w(5), w(7)]);
    assert_eq!(g.pdf, vec![q(1, 6), q(1, 9), q(1, 18), q(1, 6)]);
    assert_eq!(total_of(&g.pdf).product(w(2)), w(1));
}

#[test]
fn the_bandwidth_is_counted_in_bins() {
    match prepare(&sample(), 4, w(6), 1) {
        Ok(Prepared::Binned(b)) => {
            assert_eq!(b.xmin, w(0));
            assert_eq!(b.dx, w(2));
            assert_eq!(b.sigma, w(3));
            assert_eq!(b.hist, vec![q(3, 2), w(1), q(1, 2), q(3, 2)]);
        }
        _ => panic!("not binned"),
    }
}

#[test]
fn a_histogram_is_smoothed_and_normalized() {
    let b = BinnedData {
        xmin: w(0),
        dx: w(2),
        sigma: w(1),
        hist: vec![q(3, 2), w(1), q(1, 2), q(3, 2)],
    };
    let poles = vec![
        (q(1, 2), q(1, 4)),
        (q(1, 2), m(1, 4)),
        (q(1, 4), q(1, 2)),
        (q(1, 4), m(1, 2)),
    ];
    let g = density(finish(b, w(2), &poles));
    assert_eq!(g.x, vec![w(1), w(3), w(5), w(7)]);
    assert_eq!(
        g.pdf,
        vec![q(552365, 857772), q(9865, 71481), m(16865, 23827), q(365281, 857772)]
    );
    assert_eq!(total_of(&g.pdf).product(w(2)), w(1));
}

#[test]
fn the_number_of_threads_does_not_change_an_estimate() {
    let data: Vec<Exact> = (0..60).map(|i| q((i * 37) % 80, 10)).collect();
    let one = density(kde_deriche_with_threads(&data, 8, w(0), w(2), &id, &id, &id, 1));
    for threads in [2, 7, 60, 61] {
        let g = density(kde_deriche_with_threads(&data, 8, w(0), w(2), &id, &id, &id, threads));
        assert_eq!(g.x, one.x);
        assert_eq!(g.pdf, one.pdf);
    }
    let pool = density(estimate(&data, 8, w(0)));
    assert_eq!(pool.pdf, one.pdf);
}

#[test]
fn a_histogram_that_cancels_out_is_refused() {
    let e = match normalize(vec![w(1), w(2)], vec![w(1), w(1).opposite()], w(1)) {
        Ok(_) => panic!("not refused"),
        Err(e) => e,
    };
    assert_eq!(e, KdeError::NotNormalizable);
    assert_eq!(
        text(e),
        "Normalization factor is near zero despite non-zero filtered histogram sum."
    );
}

#[test]
fn a_histogram_of_zeros_stays() {
    let g = density(normalize(vec![w(1), w(2)], vec![w(0), w(0)], w(1)));
    assert_eq!(g.x, vec![w(1), w(2)]);
    assert_eq!(g.pdf, vec![w(0), w(0)]);
}

#[test]
fn the_mode_is_the_place_of_the_maximum() {
    let x = vec![w(10), w(20), w(30)];
    assert_eq!(find_mode(&x, &vec![w(1), w(3), w(2)]), Ok(w(20)));
    assert_eq!(find_mode(&x, &vec![w(3), w(1), w(2)]), Ok(w(10)));
}

#[test]
fn of_several_maxima_the_last_one_counts() {
    let x = vec![w(10), w(20), w(30), w(40)];
    assert_eq!(find_mode(&x, &vec![w(3), w(1), w(3), w(2)]), Ok(w(30)));
}

#[test]
fn undefined_values_are_no_mode() {
    let x = vec![w(10), w(20), w(30)];
    assert_eq!(find_mode(&x, &vec![undefined(), w(1), undefined()]), Ok(w(20)));
    let e = KdeError::NoValidMode;
    assert_eq!(find_mode(&x, &vec![undefined(), undefined()]), Err(KdeError::NoValidMode));
    assert_eq!(text(e), "Could not find a valid mode in the PDF (e.g., all values are NaN/Inf).");
}

#[test]
fn an_empty_density_has_no_mode() {
    let none: Vec<Exact> = vec![];
    assert_eq!(find_mode(&none, &none), Err(KdeError::EmptyDensity));
    assert_eq!(text(KdeError::EmptyDensity), "PDF is empty, cannot find mode.");
}

#[test]
fn a_mode_outside_the_grid_is_refused() {
    assert_eq!(find_mode(&vec![w(1)], &vec![w(1), w(2)]), Err(KdeError::ModeOutsideGrid));
    assert_eq!(
        text(KdeError::ModeOutsideGrid),
        "Internal error: Argmax index out of bounds for x_coords."
    );
}

#[test]
fn the_mode_of_data() {
    let mode = kde_mode_deriche(&sample(), 4, w(0), w(2), &id, &id, &id);
    assert_eq!(mode, Ok(w(7)));
    let refused = kde_mode_deriche(&sample(), 0, w(0), w(2), &id, &id, &id);
    assert_eq!(refused, Err(KdeError::NoBins));
}

#[test]
fn an_inverted_range_is_named() {
    let e = KdeError::InvertedRange { axis: Axis::Y, max: w(1), min: q(3, 2) };
    assert_eq!(text(e), "ymax (1/1) must be greater than or equal to ymin (3/2)");
    assert_eq!(
        inverted_range_message(Axis::X, "0.5", "2"),
        "xmax (0.5) must be greater than or equal to xmin (2)"
    );
}

#[test]
fn the_layout_of_a_table() {
    assert_eq!(table_layout::<Exact>(&[2, 9]), Ok(Layout::Rows));
    assert_eq!(table_layout::<Exact>(&[9, 2]), Ok(Layout::Columns));
    assert_eq!(table_layout::<Exact>(&[2, 2]), Ok(Layout::Rows));
    assert_eq!(table_layout::<Exact>(&[3, 4]), Err(KdeError::NotTwoAxes));
    assert_eq!(table_layout::<Exact>(&[1, 2]), Ok(Layout::Columns));
    assert_eq!(table_layout::<Exact>(&[1, 5]), Err(KdeError::NotTwoAxes));
    assert_eq!(table_layout::<Exact>(&[0, 2]), Ok(Layout::Columns));
    assert_eq!(table_layout::<Exact>(&[8]), Err(KdeError::NotATable));
    assert_eq!(table_layout::<Exact>(&[2, 3, 4]), Err(KdeError::NotATable));
    assert_eq!(text(KdeError::NotTwoAxes), "Data shape must be either (2, N) or (N, 2).");
    assert_eq!(text(KdeError::NotATable), "Input array must be 2-dimensional.");
}

#[test]
fn points_are_checked() {
    let three = vec![w(1), w(2), w(3)];
    let two = vec![w(1), w(2)];
    assert_eq!(check_request_2d(&two, &two, 3), Some(KdeError::TooFewPoints));
    assert_eq!(check_request_2d(&three, &two, 3), Some(KdeError::TooFewPoints));
    assert_eq!(check_request_2d(&two, &three, 3), Some(KdeError::TooFewPoints));
    assert_eq!(check_request_2d(&three, &three, 0), Some(KdeError::NoCells));
    assert_eq!(check_request_2d(&three, &three, 3), None);
    assert_eq!(text(KdeError::TooFewPoints), "Need at least 3 samples per dimension for KDE 2D.");
    assert_eq!(text(KdeError::NoCells), "Number of bins must be greater than 0 in all dimensions.");
}

fn cross() -> (Vec<Exact>, Vec<Exact>) {
    let two = w(2);
    let four = w(4);
    (
        vec![two.opposite(), two.opposite(), two, two, w(0)],
        vec![four.opposite(), four, four.opposite(), four, w(0)],
    )
}

fn fifth(x: Exact) -> Exact {
    if x == m(1695, 1000) {
        q(1, 5)
    } else {
        q(1, 25)
    }
}

fn unit(_: Exact, _: Exact) -> Exact {
    w(1)
}

fn cross_density() -> Vec<Vec<Exact>> {
    let (a, b) = (q(444317, 35515592), q(267615, 17757796));
    let (c, d) = (q(339435, 35515592), q(731025, 35515592));
    vec![vec![a, b, c], vec![b, d, b], vec![c, b, a]]
}

#[test]
fn points_are_binned_over_padded_ranges() {
    let (x, y) = cross();
    let b = match prepare_2d(&x, &y, 3, w(1), 2) {
        Ok(b) => b,
        Err(_) => panic!("refused"),
    };
    assert_eq!((b.xmin, b.ymin), (w(3).opposite(), w(6).opposite()));
    assert_eq!((b.dx, b.dy), (w(2), w(4)));
    assert_eq!((b.sigma_x, b.sigma_y), (w(1), w(1)));
    let h = q(1, 4);
    assert_eq!(b.hist, vec![vec![h, h, w(0)], vec![h, q(1, 2), h], vec![w(0), h, h]]);
}

#[test]
fn the_density_of_points() {
    let (x, y) = cross();
    let g = density_2d(kde_deriche_2d(&x, &y, 3, &fifth, &unit));
    assert_eq!(g.x, vec![w(2).opposite(), w(0), w(2)]);
    assert_eq!(g.y, vec![w(4).opposite(), w(0), w(4)]);
    assert_eq!(g.pdf, cross_density());
    let mut sum = w(0);
    for row in &g.pdf {
        sum = sum.sum(total_of(row));
    }
    assert_eq!(sum.product(w(2)).product(w(4)), w(1));
}

#[test]
fn the_number_of_threads_does_not_change_a_density_of_points() {
    let (x, y) = cross();
    for threads in [1, 2, 5, 9] {
        let g = density_2d(kde_deriche_2d_with_threads(&x, &y, 3, &fifth, &unit, threads));
        assert_eq!(g.pdf, cross_density());
    }
}

#[test]
fn refused_points() {
    let two = vec![w(1), w(2)];
    let r = kde_deriche_2d(&two, &two, 3, &fifth, &unit);
    assert!(matches!(r, Err(KdeError::TooFewPoints)));
    let (x, y) = cross();
    assert!(matches!(kde_deriche_2d(&x, &y, 0, &fifth, &unit), Err(KdeError::NoCells)));
}

#[test]
fn points_at_one_place_are_refused() {
    let x = vec![w(1); 4];
    let r = kde_deriche_2d(&x, &x, 3, &fifth, &unit);
    assert!(matches!(r, Err(KdeError::CellTooNarrow)));
    assert_eq!(
        text(KdeError::CellTooNarrow),
        "Bin widths (dx, dy) must not be too small or zero."
    );
}

#[test]
fn cells_that_cancel_out_are_refused() {
    let rows = vec![vec![w(1), w(1).opposite()]];
    let r = normalize_2d(vec![w(0)], vec![w(0), w(1)], rows, w(1), w(1));
    assert!(matches!(r, Err(KdeError::NotNormalizable)));
}

#[test]
fn rows_and_columns_are_smoothed_in_either_order() {
    let hist = vec![vec![w(1), w(0), w(2)], vec![w(0), w(3), w(0)], vec![w(5), w(0), w(1)]];
    let mut turned = hist.clone();
    for i in 0..3 {
        for j in 0..3 {
            turned[j][i] = hist[i][j];
        }
    }
    let e = (q(1, 2), q(1, 4));
    let f = (q(1, 3), q(1, 9));
    let b = BinnedPoints {
        xmin: w(0),
        ymin: w(0),
        dx: w(1),
        dy: w(1),
        sigma_x: w(3),
        sigma_y: w(2),
        hist,
    };
    let t = BinnedPoints {
        xmin: w(0),
        ymin: w(0),
        dx: w(1),
        dy: w(1),
        sigma_x: w(2),
        sigma_y: w(3),
        hist: turned,
    };
    let g = density_2d(finish_2d(b, e, f));
    let h = density_2d(finish_2d(t, f, e));
    for i in 0..3 {
        for j in 0..3 {
            assert!(g.pdf[i][j].is_finite());
            assert_eq!(g.pdf[i][j], h.pdf[j][i]);
        }
    }
}

#[test]
fn the_wider_axis_has_the_wider_bandwidth() {
    let (y, x) = cross();
    let b = match prepare_2d(&x, &y, 3, w(1), 2) {
        Ok(b) => b,
        Err(_) => panic!("refused"),
    };
    assert_eq!((b.xmin, b.ymin), (w(6).opposite(), w(3).opposite()));
    assert_eq!((b.dx, b.dy), (w(4), w(2)));
    assert_eq!((b.sigma_x, b.sigma_y), (w(1), w(1)));
    let g = density_2d(kde_deriche_2d(&x, &y, 3, &fifth, &unit));
    assert_eq!(g.x, vec![w(4).opposite(), w(0), w(4)]);
    assert_eq!(g.y, vec![w(2).opposite(), w(0), w(2)]);
    assert_eq!(g.pdf, cross_density());
}

#[test]
fn the_density_of_points_is_not_negative() {
    for row in cross_density() {
        for p in row {
            assert!(w(0).is_at_most(p));
        }
    }
}

#[test]
fn the_axes_of_a_table() {
    let flat: Vec<Exact> = (1..7).map(|i| w(i)).collect();
    let rows = split_axes(&flat, 2, 3);
    assert_eq!(rows, Ok((vec![w(1), w(2), w(3)], vec![w(4), w(5), w(6)])));
    let columns = split_axes(&flat, 3, 2);
    assert_eq!(columns, Ok((vec![w(1), w(3), w(5)], vec![w(2), w(4), w(6)])));
    assert_eq!(split_axes(&flat, 6, 1), Err(KdeError::NotTwoAxes));
    assert_eq!(split_axes(&flat, 1, 6), Err(KdeError::NotTwoAxes));
    let one = split_axes(&flat[0..2], 1, 2);
    assert_eq!(one, Ok((vec![w(1)], vec![w(2)])));
}

#[test]
fn a_transposed_table_gives_the_same_estimate() {
    let (x, y) = cross();
    let mut wide = x.clone();
    wide.extend(y.iter());
    let mut tall: Vec<Exact> = vec![];
    for i in 0..5 {
        tall.push(x[i]);
        tall.push(y[i]);
    }
    assert_eq!(split_axes(&wide, 2, 5), split_axes(&tall, 5, 2));
    let g = density_2d(kde_deriche_2d_of_table(&wide, 2, 5, 3, &fifth, &unit));
    let h = density_2d(kde_deriche_2d_of_table(&tall, 5, 2, 3, &fifth, &unit));
    assert_eq!(g.pdf, cross_density());
    assert_eq!((g.x, g.y, g.pdf), (h.x, h.y, h.pdf));
}

#[test]
fn a_table_with_one_row_is_refused() {
    let r = kde_deriche_2d_of_table(&[w(1), w(2)], 1, 2, 4, &fifth, &unit);
    assert!(matches!(r, Err(KdeError::TooFewPoints)));
    let r = kde_deriche_2d_of_table(&[w(1), w(2), w(3)], 1, 3, 4, &fifth, &unit);
    assert!(matches!(r, Err(KdeError::NotTwoAxes)));
}

#[test]
fn reordered_and_repeated_data_gives_the_same_estimate() {
    let one = density(estimate(&sample(), 4, w(0)));
    let mut reordered = sample();
    reordered.reverse();
    reordered.swap(0, 2);
    let g = density(estimate(&reordered, 4, w(0)));
    assert_eq!((&g.x, &g.pdf), (&one.x, &one.pdf));
    let mut repeated = sample();
    repeated.extend(reordered.iter());
    repeated.extend(sample().iter());
    let h = density(estimate(&repeated, 4, w(0)));
    assert_eq!((&h.x, &h.pdf), (&one.x, &one.pdf));
}

#[test]
fn a_density_shifts_and_scales_with_the_data() {
    let one = density(estimate(&sample(), 4, w(0)));
    let moved: Vec<Exact> = sample().iter().map(|v| v.product(w(3)).sum(w(5))).collect();
    let g = density(estimate(&moved, 4, w(0)));
    for i in 0..4 {
        assert_eq!(g.x[i], one.x[i].product(w(3)).sum(w(5)));
        assert_eq!(g.pdf[i], one.pdf[i].quotient(w(3)));
    }
    match (prepare(&sample(), 4, w(6), 1), prepare(&moved, 4, w(18), 2)) {
        (Ok(Prepared::Binned(b)), Ok(Prepared::Binned(m))) => {
            assert_eq!(m.sigma, b.sigma);
            assert_eq!(m.hist, b.hist);
        }
        _ => panic!("not binned"),
    }
}

fn half(_: Exact) -> Exact {
    q(1, 2)
}

fn one(_: Exact) -> Exact {
    w(1)
}

fn none(_: Exact) -> Exact {
    w(0)
}

fn smooth(data: &[Exact], sigma: Exact, threads: usize) -> KdeGrid<Exact> {
    density(kde_deriche_with_threads(data, 4, sigma, w(2), &half, &one, &none, threads))
}

#[test]
fn smoothed_estimates_of_related_data() {
    let first = smooth(&sample(), w(2), 1);
    assert!(first.pdf.iter().all(|v| v.is_defined()));
    assert_ne!(first.pdf, density(estimate(&sample(), 4, w(0))).pdf);
    let mut doubled = sample();
    doubled.reverse();
    doubled.extend(sample().iter());
    let second = smooth(&doubled, w(2), 3);
    assert_eq!((&second.x, &second.pdf), (&first.x, &first.pdf));
    let moved: Vec<Exact> = sample().iter().map(|v| v.product(w(3)).sum(w(5))).collect();
    let third = smooth(&moved, w(6), 2);
    for i in 0..4 {
        assert_eq!(third.x[i], first.x[i].product(w(3)).sum(w(5)));
        assert_eq!(third.pdf[i], first.pdf[i].quotient(w(3)));
    }
}

#[test]
fn the_mode_belongs_to_the_estimate() {
    for threads in [1, 2, 5, 6] {
        let g = smooth(&sample(), w(2), threads);
        let mode = kde_mode_deriche_with_threads(
            &sample(),
            4,
            w(2),
            w(2),
            &half,
            &one,
            &none,
            threads,
        );
        assert_eq!(mode, find_mode(&g.x, &g.pdf));
        assert_eq!(mode, kde_mode_deriche(&sample(), 4, w(2), w(2), &half, &one, &none));
        let short = kde_mode_deriche_with_threads(
            &sample()[..3],
            4,
            w(2),
            w(2),
            &half,
            &one,
            &none,
            threads,
        );
        assert_eq!(short, Err(KdeError::TooFewSamples));
    }
}

#[test]
fn a_table_gives_the_same_estimate_on_any_number_of_threads() {
    let (x, y) = cross();
    let mut wide = x.clone();
    wide.extend(y.iter());
    for threads in [1, 2, 5, 9] {
        let g = density_2d(kde_deriche_2d_of_table_with_threads(
            &wide, 2, 5, 3, &fifth, &unit, threads,
        ));
        assert_eq!(g.pdf, cross_density());
        let refused = kde_deriche_2d_of_table_with_threads(
            &wide[..9], 3, 3, 3, &fifth, &unit, threads,
        );
        assert!(matches!(refused, Err(KdeError::NotTwoAxes)));
    }
}
