use fast_kde::deriche::deriche_recursive_filter_approx;
use fast_kde::error::{Axis, KdeError};
use fast_kde::kde::{find_mode, kde_deriche, kde_mode_deriche, KdeGrid};
use fast_kde::kde_2d::kde_deriche_2d;
use fast_kde::scalar::{Arith, Scalar};

/// A floating-point number, whose roots are taken negative where `NEGATIVE_ROOT` says so.
#[derive(Clone, Copy, Debug, PartialEq)]
struct Number<const NEGATIVE_ROOT: bool>(f64);

type Float = Number<false>;
type Twisted = Number<true>;

impl<const NEGATIVE_ROOT: bool> Arith for Number<NEGATIVE_ROOT> {
    fn plus(self, other: Self) -> Self {
        Number(self.0 + other.0)
    }
    fn minus(self, other: Self) -> Self {
        Number(self.0 - other.0)
    }
    fn times(self, other: Self) -> Self {
        Number(self.0 * other.0)
    }
    fn over(self, other: Self) -> Self {
        Number(self.0 / other.0)
    }
    fn negated(self) -> Self {
        Number(-self.0)
    }
    fn root(self) -> Self {
        if NEGATIVE_ROOT {
            Number(-10.0 * self.0.sqrt())
        } else {
            Number(self.0.sqrt())
        }
    }
    fn below(self, other: Self) -> bool {
        self.0 < other.0
    }
    fn at_most(self, other: Self) -> bool {
        self.0 <= other.0
    }
    fn finite(self) -> bool {
        self.0.is_finite()
    }
    fn floor_index(self) -> usize {
        self.0.floor() as usize
    }
    fn whole(n: usize) -> Self {
        Number(n as f64)
    }
    fn ratio(n: u32, d: u32) -> Self {
        Number(n as f64 / d as f64)
    }
}

impl<const NEGATIVE_ROOT: bool> Scalar for Number<NEGATIVE_ROOT> {
    fn sum(self, other: Self) -> Self {
        self.plus(other)
    }
    fn difference(self, other: Self) -> Self {
        self.minus(other)
    }
    fn product(self, other: Self) -> Self {
        self.times(other)
    }
    fn quotient(self, other: Self) -> Self {
        self.over(other)
    }
    fn opposite(self) -> Self {
        self.negated()
    }
    fn square_root(self) -> Self {
        self.root()
    }
    fn is_below(self, other: Self) -> bool {
        self.below(other)
    }
    fn is_at_most(self, other: Self) -> bool {
        self.at_most(other)
    }
    fn is_finite(self) -> bool {
        self.finite()
    }
    fn floor_to_index(self) -> usize {
        self.floor_index()
    }
    fn of_usize(n: usize) -> Self {
        Self::whole(n)
    }
    fn of_ratio(n: u32, d: u32) -> Self {
        Self::ratio(n, d)
    }
}

fn exp<const B: bool>(x: Number<B>) -> Number<B> {
    Number(x.0.exp())
}

fn cos(x: Float) -> Float {
    Number(x.0.cos())
}

fn sin(x: Float) -> Float {
    Number(x.0.sin())
}

fn pow<const B: bool>(b: Number<B>, e: Number<B>) -> Number<B> {
    Number(b.0.powf(e.0))
}

fn estimate(data: &[Float], bins: usize, sigma: f64) -> Result<KdeGrid<Float>, KdeError<Float>> {
    kde_deriche(data, bins, Number(sigma), Number(std::f64::consts::PI), &exp, &cos, &sin)
}

fn mode(data: &[Float], bins: usize, sigma: f64) -> Result<Float, KdeError<Float>> {
    kde_mode_deriche(data, bins, Number(sigma), Number(std::f64::consts::PI), &exp, &cos, &sin)
}

fn grid(data: &[Float], bins: usize, sigma: f64) -> KdeGrid<Float> {
    match estimate(data, bins, sigma) {
        Ok(g) => g,
        Err(e) => panic!("refused: {:?}", e),
    }
}

/// A bell of samples around `centre`: sums of twelve equidistributed numbers.
fn bell(n: usize, centre: f64, spread: f64, start: u64) -> Vec<Float> {
    let mut state: u64 = start;
    let mut out: Vec<Float> = vec![];
    for _ in 0..n {
        let mut sum = 0.0;
        for _ in 0..12 {
            state = state.wrapping_mul(6364136223846793005).wrapping_add(1442695040888963407);
            sum += (state >> 11) as f64 / (1u64 << 53) as f64;
        }
        out.push(Number(centre + (sum - 6.0) * spread));
    }
    out
}

#[test]
fn a_thousand_samples_on_a_grid() {
    let data = bell(1000, 0.0, 1.0, 1);
    let g = grid(&data, 512, 0.2);
    assert_eq!(g.x.len(), 512);
    assert_eq!(g.pdf.len(), 512);
    let mut trapezoid = 0.0;
    for i in 1..512 {
        assert!(g.x[i - 1].0 < g.x[i].0);
        trapezoid += (g.x[i].0 - g.x[i - 1].0) * (g.pdf[i].0 + g.pdf[i - 1].0) / 2.0;
    }
    assert!((trapezoid - 1.0).abs() < 1e-2);
    assert!(g.pdf.iter().all(|p| p.0.is_finite()));
    let m = mode(&data, 512, 0.2).unwrap().0;
    assert!(m.abs() < 0.5);
}

#[test]
fn a_density_integrates_to_one() {
    let data = bell(2000, 3.0, 2.0, 7);
    for sigma in [0.0, 0.05, 0.3, 1.0] {
        let g = grid(&data, 256, sigma);
        let dx = g.x[1].0 - g.x[0].0;
        let sum: f64 = g.pdf.iter().map(|p| p.0).sum();
        assert!((sum * dx - 1.0).abs() < 1e-9);
    }
}

#[test]
fn the_grid_lies_inside_the_range() {
    let data = bell(500, -4.0, 0.5, 3);
    let g = grid(&data, 100, 0.1);
    let low = data.iter().map(|v| v.0).fold(f64::INFINITY, f64::min);
    let high = data.iter().map(|v| v.0).fold(f64::NEG_INFINITY, f64::max);
    let dx = (high - low) / 100.0;
    assert!((g.x[0].0 - (low + dx / 2.0)).abs() < 1e-12);
    assert!((g.x[99].0 - (high - dx / 2.0)).abs() < 1e-12);
}

#[test]
fn the_density_of_a_bell() {
    let data = bell(200_000, 0.0, 1.0, 11);
    let g = grid(&data, 1024, 0.05);
    let width = (1.0 + 0.05f64 * 0.05).sqrt();
    for (x, p) in g.x.iter().zip(g.pdf.iter()) {
        if x.0.abs() < 2.0 {
            let z = x.0 / width;
            let expected = (-z * z / 2.0).exp() / ((2.0 * std::f64::consts::PI).sqrt() * width);
            assert!((p.0 - expected).abs() < 0.02);
        }
    }
}

#[test]
fn the_filter_is_close_to_the_gaussian() {
    for sigma in [1usize, 2, 5, 10, 20, 50] {
        let s = sigma as f64;
        let n = 20 * sigma + 1;
        let centre = 10 * sigma;
        let scale = (2.0 * std::f64::consts::PI).sqrt() * s;
        let kernel: Vec<f64> =
            (0..n).map(|d| (-(d as f64 / s).powi(2) / 2.0).exp() / scale).collect();
        let input: Vec<f64> = (0..n)
            .map(|i| if i.abs_diff(centre) <= 2 * sigma { 1.0 } else { 0.0 })
            .collect();
        let mut signal: Vec<Float> = input.iter().map(|v| Number(*v)).collect();
        let pi = Number(std::f64::consts::PI);
        deriche_recursive_filter_approx(&mut signal, Number(s), pi, &exp, &cos, &sin);
        let mut worst: f64 = 0.0;
        let mut peak: f64 = 0.0;
        for i in 0..n {
            let mut exact = 0.0;
            for j in 0..n {
                exact += input[j] * kernel[i.abs_diff(j)];
            }
            worst = worst.max((signal[i].0 - exact).abs());
            peak = peak.max(exact);
        }
        assert!(worst / peak < 0.0005);
    }
}

#[test]
fn infinite_and_undefined_samples_are_refused() {
    let data = vec![Number(1.0), Number(f64::NAN), Number(f64::INFINITY), Number(2.0)];
    let r = estimate(&data, 8, 0.5);
    assert!(matches!(r, Err(KdeError::NonFinite(2))));
}

#[test]
fn a_bandwidth_of_zero_keeps_the_histogram() {
    let data: Vec<Float> = [0.0, 1.0, 3.0, 7.0, 8.0].iter().map(|v| Number(*v)).collect();
    let g = grid(&data, 4, 0.0);
    let expected = [1.0 / 6.0, 1.0 / 9.0, 1.0 / 18.0, 1.0 / 6.0];
    for (p, e) in g.pdf.iter().zip(expected.iter()) {
        assert!((p.0 - e).abs() < 1e-15);
    }
}

#[test]
fn samples_at_one_place() {
    let data = vec![Number(2.5); 10];
    let g = grid(&data, 5, 1.0);
    let dx = 1e-9 / 5.0;
    let sum: f64 = g.pdf.iter().map(|p| p.0).sum();
    assert!((sum * dx - 1.0).abs() < 1e-9);
    assert!(g.pdf[2].0 > 0.0);
    assert_eq!(mode(&data, 5, 1.0).unwrap(), g.x[2]);
}

#[test]
fn undefined_values_of_a_density_are_left_aside() {
    let x: Vec<Float> = vec![Number(1.0), Number(2.0), Number(3.0), Number(4.0)];
    let nan = Number(f64::NAN);
    assert_eq!(find_mode(&x, &vec![nan, Number(1.0), Number(0.5), nan]), Ok(Number(2.0)));
    assert_eq!(find_mode(&x, &vec![nan, nan]), Err(KdeError::NoValidMode));
    let inf = Number(f64::INFINITY);
    assert_eq!(find_mode(&x, &vec![nan, inf]), Err(KdeError::NoValidMode));
}

#[test]
fn a_density_of_points_integrates_to_one() {
    let x = bell(3000, 1.0, 1.0, 5);
    let y = bell(3000, -2.0, 3.0, 6);
    let g = match kde_deriche_2d(&x, &y, 64, &exp, &pow) {
        Ok(g) => g,
        Err(e) => panic!("refused: {:?}", e),
    };
    assert_eq!((g.x.len(), g.y.len(), g.pdf.len()), (64, 64, 64));
    let dx = g.x[1].0 - g.x[0].0;
    let dy = g.y[1].0 - g.y[0].0;
    let mut sum = 0.0;
    for row in &g.pdf {
        assert_eq!(row.len(), 64);
        sum += row.iter().map(|p| p.0).sum::<f64>();
    }
    assert!((sum * dx * dy - 1.0).abs() < 1e-9);
}

#[test]
fn the_grid_of_points_is_padded() {
    let x = bell(3000, 1.0, 1.0, 5);
    let y = bell(3000, -2.0, 3.0, 6);
    let g = match kde_deriche_2d(&x, &y, 50, &exp, &pow) {
        Ok(g) => g,
        Err(e) => panic!("refused: {:?}", e),
    };
    let dx = g.x[1].0 - g.x[0].0;
    let low = x.iter().map(|v| v.0).fold(f64::INFINITY, f64::min);
    let high = x.iter().map(|v| v.0).fold(f64::NEG_INFINITY, f64::max);
    let tail = low - (g.x[0].0 - dx / 2.0);
    assert!(tail > 0.0);
    assert!((g.x[49].0 + dx / 2.0 - high - tail).abs() < 1e-9);
    // Half a bandwidth, where the bandwidth is about the deviation times Scott's factor.
    assert!((tail / (0.5 * 3000f64.powf(-1.0 / 6.0)) - 1.0).abs() < 0.1);
}

#[test]
fn an_inverted_range_is_refused() {
    let x: Vec<Twisted> = [0.0, 1.0, 2.0, 3.0].iter().map(|v| Number(*v)).collect();
    let y: Vec<Twisted> = [0.0, 5.0, 1.0, 9.0].iter().map(|v| Number(*v)).collect();
    let r = kde_deriche_2d(&x, &y, 8, &exp, &pow);
    assert!(matches!(r, Err(KdeError::InvertedRange { axis: Axis::X, .. })));
}

#[test]
fn each_axis_is_padded_by_half_of_its_own_bandwidth() {
    let x: Vec<Float> =
        [2.0, -2.0, -4.0, 4.0, 2.0, 2.0, -2.0, -2.0].iter().map(|v| Number(*v)).collect();
    let y: Vec<Float> =
        [-2.0, 2.0, -1.0, 1.0, -1.0, 1.0, -1.0, 1.0].iter().map(|v| Number(*v)).collect();
    let g = match kde_deriche_2d(&x, &y, 5, &exp, &pow) {
        Ok(g) => g,
        Err(e) => panic!("refused: {:?}", e),
    };
    for i in 0..5 {
        assert!((g.x[i].0 - (2.0 * i as f64 - 4.0)).abs() < 1e-9);
        assert!((g.y[i].0 - (i as f64 - 2.0)).abs() < 1e-9);
    }
}

#[test]
fn three_points_are_enough() {
    let x: Vec<Float> = [-1.0, 0.0, 1.0].iter().map(|v| Number(*v)).collect();
    let y: Vec<Float> = [1.0, -2.0, 1.0].iter().map(|v| Number(*v)).collect();
    let g = match kde_deriche_2d(&x, &y, 8, &exp, &pow) {
        Ok(g) => g,
        Err(e) => panic!("refused: {:?}", e),
    };
    assert_eq!((g.x.len(), g.y.len(), g.pdf.len()), (8, 8, 8));
    assert!(g.pdf.iter().all(|row| row.iter().all(|p| p.0 >= 0.0)));
}
