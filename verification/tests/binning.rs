use fast_kde::binning::{linear_binning, linear_binning_with_threads, zero_vec};
use fast_kde::binning_2d::{
    linear_binning_2d, linear_binning_2d_with_threads, zero_row_vec,
};
use fast_kde::exact::Exact;
use fast_kde::parallel::ceil_div;
use fast_kde::scalar::{absolute, is_negligible, total_of, Scalar};

fn q(num: u32, den: u32) -> Exact {
    Exact::of_ratio(num, den)
}

fn w(n: usize) -> Exact {
    Exact::of_usize(n)
}

fn numbers(n: u32) -> Vec<Exact> {
    (0..n).map(|i| q((i * 37) % 80, 10)).collect()
}

fn sum_of_rows(rows: &Vec<Vec<Exact>>) -> Exact {
    let mut sum = w(0);
    for row in rows {
        sum = sum.sum(total_of(row));
    }
    sum
}

#[test]
fn division_rounds_up() {
    assert_eq!(ceil_div(12, 4), 3);
    assert_eq!(ceil_div(13, 4), 4);
    assert_eq!(ceil_div(0, 4), 0);
    assert_eq!(ceil_div(usize::MAX, 1), usize::MAX);
}

#[test]
fn small_numbers_count_as_zero() {
    assert!(is_negligible(w(0)));
    assert!(is_negligible(q(1, 1_000_000_001).opposite()));
    assert!(!is_negligible(q(1, 1_000_000_000)));
    assert_eq!(absolute(w(3).opposite()), w(3));
    assert_eq!(absolute(w(3)), w(3));
}

#[test]
fn points_are_shared_between_two_bins() {
    let data = vec![w(0), q(1, 2), q(5, 4), w(4)];
    let hist = linear_binning_with_threads(&data, w(0), w(4), 4, 1);
    assert_eq!(hist, vec![q(3, 2), q(5, 4), q(1, 4), w(1)]);
}

#[test]
fn the_last_bin_keeps_the_left_share_only() {
    let data = vec![q(7, 2)];
    let hist = linear_binning_with_threads(&data, w(0), w(4), 4, 1);
    assert_eq!(hist, vec![w(0), w(0), w(0), q(1, 2)]);
}

#[test]
fn points_outside_the_range_count_for_nothing() {
    let data = vec![w(1).opposite(), w(5), w(2)];
    let hist = linear_binning_with_threads(&data, w(0), w(4), 4, 2);
    assert_eq!(hist, vec![w(0), w(0), w(1), w(0)]);
}

#[test]
fn a_point_next_to_the_end_closes_the_range() {
    let close = w(4).sum(q(1, 2_000_000_000));
    let hist = linear_binning_with_threads(&[close], w(0), w(4), 2, 1);
    assert_eq!(hist, vec![w(0), w(1)]);
}

#[test]
fn a_range_without_width_gives_zeros() {
    let data = vec![w(1), w(1)];
    assert_eq!(linear_binning(&data, w(1), w(1), 3), vec![w(0), w(0), w(0)]);
}

#[test]
fn no_bins_and_no_data() {
    let none: Vec<Exact> = vec![];
    assert_eq!(linear_binning(&[w(1)], w(0), w(4), 0), none);
    assert_eq!(linear_binning(&none, w(0), w(4), 2), vec![w(0), w(0)]);
    assert_eq!(zero_vec::<Exact>(2), vec![w(0), w(0)]);
}

#[test]
fn the_number_of_threads_does_not_matter() {
    let data = numbers(50);
    let one = linear_binning_with_threads(&data, w(0), w(8), 16, 1);
    for threads in [2, 3, 7, 49, 50, 51, 1000] {
        assert_eq!(linear_binning_with_threads(&data, w(0), w(8), 16, threads), one);
    }
}

#[test]
fn the_pool_gives_the_histogram() {
    let data = numbers(1000);
    let one = linear_binning_with_threads(&data, w(0), w(8), 16, 1);
    assert_eq!(linear_binning(&data, w(0), w(8), 16), one);
}

#[test]
fn binning_keeps_the_weight_of_the_points() {
    let data: Vec<Exact> = (0..70).map(|i| q(i, 10)).collect();
    let hist = linear_binning(&data, w(0), w(8), 8);
    assert_eq!(total_of(&hist), w(70));
}

#[test]
fn points_are_shared_between_four_cells() {
    let x = vec![q(1, 2), w(4), q(7, 2), w(0)];
    let y = vec![q(5, 4), w(4), w(1), w(0)];
    let rows = linear_binning_2d_with_threads(&x, &y, w(0), w(4), w(0), w(4), 4, 4, 1);
    assert_eq!(
        rows,
        vec![
            vec![w(1), q(3, 8), q(1, 8), w(0)],
            vec![w(0), q(3, 8), q(1, 8), w(0)],
            vec![w(0), w(0), w(0), w(0)],
            vec![w(0), w(0), w(0), w(1)],
        ]
    );
    assert_eq!(sum_of_rows(&rows), w(3));
}

#[test]
fn the_axes_can_have_different_bins() {
    let rows = linear_binning_2d(&[w(1)], &[q(1, 2)], w(0), w(4), w(0), w(3), 2, 3);
    assert_eq!(rows, vec![vec![q(1, 4), q(1, 4), w(0)], vec![q(1, 4), q(1, 4), w(0)]]);
}

#[test]
fn the_number_of_threads_does_not_matter_for_cells() {
    let x = numbers(40);
    let y: Vec<Exact> = (0..40).map(|i| q((i * 13) % 40, 5)).collect();
    let one = linear_binning_2d_with_threads(&x, &y, w(0), w(8), w(0), w(8), 4, 8, 1);
    for threads in [2, 5, 39, 40, 100] {
        let rows = linear_binning_2d_with_threads(&x, &y, w(0), w(8), w(0), w(8), 4, 8, threads);
        assert_eq!(rows, one);
    }
    assert_eq!(linear_binning_2d(&x, &y, w(0), w(8), w(0), w(8), 4, 8), one);
}

#[test]
fn blank_histograms_of_cells() {
    let none: Vec<Exact> = vec![];
    let blank = vec![vec![w(0), w(0)], vec![w(0), w(0)]];
    let empty: Vec<Vec<Exact>> = vec![];
    assert_eq!(linear_binning_2d(&[w(1)], &[w(1)], w(0), w(4), w(0), w(4), 0, 2), empty);
    assert_eq!(linear_binning_2d(&[w(1)], &[w(1)], w(0), w(4), w(0), w(4), 2, 0), empty);
    assert_eq!(linear_binning_2d(&none, &none, w(0), w(4), w(0), w(4), 2, 2), blank);
    assert_eq!(linear_binning_2d(&[w(1)], &none, w(0), w(4), w(0), w(4), 2, 2), blank);
    assert_eq!(linear_binning_2d(&[w(1)], &[w(1)], w(1), w(1), w(0), w(4), 2, 2), blank);
    assert_eq!(linear_binning_2d(&[w(1)], &[w(1)], w(0), w(4), w(1), w(1), 2, 2), blank);
    assert_eq!(zero_row_vec::<Exact>(2, 2), blank);
}

#[test]
fn histograms_add() {
    let data = numbers(40);
    let all = linear_binning(&data, w(0), w(8), 8);
    let first = linear_binning(&data[0..13], w(0), w(8), 8);
    let second = linear_binning(&data[13..40], w(0), w(8), 8);
    for i in 0..8 {
        assert_eq!(all[i], first[i].sum(second[i]));
    }
}

#[test]
fn the_order_of_the_data_does_not_matter() {
    let mut data = numbers(40);
    let one = linear_binning(&data, w(0), w(8), 8);
    data.reverse();
    data.swap(3, 17);
    assert_eq!(linear_binning(&data, w(0), w(8), 8), one);
}

#[test]
fn histograms_of_cells_add_in_any_order() {
    let mut x = numbers(30);
    let mut y: Vec<Exact> = (0..30).map(|i| q((i * 13) % 40, 5)).collect();
    let all = linear_binning_2d(&x, &y, w(0), w(8), w(0), w(8), 4, 4);
    let first = linear_binning_2d(&x[0..11], &y[0..11], w(0), w(8), w(0), w(8), 4, 4);
    let second = linear_binning_2d(&x[11..30], &y[11..30], w(0), w(8), w(0), w(8), 4, 4);
    for i in 0..4 {
        for j in 0..4 {
            assert_eq!(all[i][j], first[i][j].sum(second[i][j]));
        }
    }
    x.reverse();
    y.reverse();
    assert_eq!(linear_binning_2d(&x, &y, w(0), w(8), w(0), w(8), 4, 4), all);
}

#[test]
fn binning_keeps_the_first_moment() {
    let data: Vec<Exact> = (0..70).map(|i| q(i, 10)).collect();
    for threads in [1, 3, 70] {
        let hist = linear_binning_with_threads(&data, w(0), w(8), 8, threads);
        let mut moment = w(0);
        for i in 0..8 {
            moment = moment.sum(w(i).product(hist[i]));
        }
        assert_eq!(moment, total_of(&data));
        assert_eq!(moment, q(2415, 10));
    }
}
