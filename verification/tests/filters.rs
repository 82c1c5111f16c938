use fast_kde::deriche::{
    apply_two_pass, cmul, coefficients_of_poles, deriche_coefficients,
    deriche_recursive_filter_approx, filter_poles, filter_with_poles, pole,
};
use fast_kde::exact::Exact;
use fast_kde::scalar::{total_of, Scalar};
use fast_kde::second_order::{
    apply_second_order, deriche_recursive_filter_2nd_order_approx, filter_exponentials,
    filter_with_exponentials, second_order_coefficients,
};

fn q(num: u32, den: u32) -> Exact {
    Exact::of_ratio(num, den)
}

fn m(num: u32, den: u32) -> Exact {
    q(num, den).opposite()
}

fn w(n: usize) -> Exact {
    Exact::of_usize(n)
}

fn sample_poles() -> Vec<(Exact, Exact)> {
    vec![
        (q(1, 2), q(1, 4)),
        (q(1, 2), m(1, 4)),
        (q(1, 4), q(1, 2)),
        (q(1, 4), m(1, 2)),
    ]
}

#[test]
fn complex_numbers_multiply() {
    assert_eq!(cmul((w(1), w(2)), (w(3), w(4))), (w(5).opposite(), w(10)));
}

#[test]
fn a_pole_is_made_of_the_three_functions() {
    let exp = |x: Exact| x.sum(w(1));
    let cos = |x: Exact| x.product(w(2));
    let sin = |x: Exact| x.product(w(3));
    let p = pole(w(1), w(2), w(2), &exp, &cos, &sin);
    assert_eq!(p, (w(1).opposite(), m(3, 2)));
}

#[test]
fn the_rates_of_the_poles() {
    let exp = |x: Exact| x;
    let one = |_: Exact| w(1);
    let id = |x: Exact| x;
    let poles = filter_poles(w(1), &exp, &one, &id);
    let real: Vec<Exact> = poles.iter().map(|p| p.0).collect();
    assert_eq!(real, vec![m(1783, 1000), m(1783, 1000), m(1723, 1000), m(1723, 1000)]);
    assert_eq!(poles[0].1, q(1783, 1000).product(q(6318, 10000)));
    assert_eq!(poles[1].1, m(1783, 1000).product(q(6318, 10000)));
    assert_eq!(poles[2].1, q(1723, 1000).product(q(1997, 1000)));
    assert_eq!(poles[3].1, m(1723, 1000).product(q(1997, 1000)));
}

#[test]
fn the_coefficients_of_given_poles() {
    // With two for pi the scale is one half.
    let c = coefficients_of_poles(&sample_poles(), w(1), w(2));
    assert_eq!(
        c.b_plus,
        vec![q(9997, 20000), m(65339, 80000), q(143889, 320000), m(58951, 256000)]
    );
    assert_eq!(
        c.b_minus,
        vec![w(0), m(5357, 80000), m(36057, 320000), q(1031, 256000), m(9997, 204800)]
    );
    assert_eq!(c.a, vec![m(3, 2), q(9, 8), m(15, 32), q(25, 256)]);
}

#[test]
fn a_wider_kernel_is_lower() {
    let narrow = coefficients_of_poles(&sample_poles(), w(1), w(2));
    let wide = coefficients_of_poles(&sample_poles(), w(4), w(2));
    for i in 0..4 {
        assert_eq!(wide.b_plus[i].product(w(4)), narrow.b_plus[i]);
        assert_eq!(wide.a[i], narrow.a[i]);
    }
}

#[test]
fn the_coefficients_come_of_the_three_functions() {
    let exp = |_: Exact| q(1, 2);
    let cos = |_: Exact| w(1);
    let sin = |_: Exact| w(0);
    let c = deriche_coefficients(w(1), w(2), &exp, &cos, &sin);
    let half = (q(1, 2), w(0));
    let d = coefficients_of_poles(&vec![half, half, half, half], w(1), w(2));
    assert_eq!(c.a, vec![w(2).opposite(), q(3, 2), m(1, 2), q(1, 16)]);
    assert_eq!(c.a, d.a);
    assert_eq!(c.b_plus, d.b_plus);
    assert_eq!(c.b_minus, d.b_minus);
}

#[test]
fn two_passes_over_a_signal() {
    let mut signal = vec![w(1), w(0), w(2), w(0), w(0)];
    filter_with_poles(&mut signal, w(1), w(2), &sample_poles());
    assert_eq!(
        signal,
        vec![
            q(11777, 160000),
            m(16071, 80000),
            q(50341, 64000),
            m(479037, 1280000),
            m(3211099, 5120000),
        ]
    );
}

#[test]
fn the_filter_convolves_with_a_symmetric_kernel() {
    let kernel = vec![
        q(9997, 20000),
        m(5357, 80000),
        m(68199, 320000),
        m(307613, 1280000),
        m(1028731, 5120000),
    ];
    let input = vec![w(3), w(1), w(0), w(2), w(7)];
    let mut signal = input.clone();
    filter_with_poles(&mut signal, w(1), w(2), &sample_poles());
    for i in 0..5usize {
        let mut sum = w(0);
        for j in 0..5usize {
            let distance = if i < j { j - i } else { i - j };
            sum = sum.sum(kernel[distance].product(input[j]));
        }
        assert_eq!(signal[i], sum);
    }
}

#[test]
fn the_passes_mirror_each_other() {
    let c = coefficients_of_poles(&sample_poles(), w(1), w(2));
    let mut signal = vec![w(3), w(1), w(0), w(2), w(7)];
    let mut reversed: Vec<Exact> = signal.iter().rev().cloned().collect();
    apply_two_pass(&mut signal, &c);
    apply_two_pass(&mut reversed, &c);
    reversed.reverse();
    assert_eq!(signal, reversed);
}

#[test]
fn a_deviation_of_zero_smooths_nothing() {
    let exp = |_: Exact| q(1, 2);
    let mut signal = vec![w(1), w(2)];
    filter_with_poles(&mut signal, q(1, 2_000_000_000), w(2), &sample_poles());
    assert_eq!(signal, vec![w(1), w(2)]);
    deriche_recursive_filter_approx(&mut signal, w(0), w(2), &exp, &exp, &exp);
    assert_eq!(signal, vec![w(1), w(2)]);
    filter_with_exponentials(&mut signal, w(0), q(1, 2), q(1, 4));
    assert_eq!(signal, vec![w(1), w(2)]);
    deriche_recursive_filter_2nd_order_approx(&mut signal, w(0), &exp);
    assert_eq!(signal, vec![w(1), w(2)]);
}

#[test]
fn an_empty_signal_stays_empty() {
    let exp = |_: Exact| q(1, 2);
    let mut signal: Vec<Exact> = vec![];
    deriche_recursive_filter_approx(&mut signal, w(1), w(2), &exp, &exp, &exp);
    deriche_recursive_filter_2nd_order_approx(&mut signal, w(1), &exp);
    assert_eq!(signal, vec![]);
}

#[test]
fn the_filter_takes_its_poles_from_the_functions() {
    let exp = |_: Exact| q(1, 2);
    let cos = |_: Exact| w(1);
    let sin = |_: Exact| w(0);
    let half = (q(1, 2), w(0));
    let mut expected = vec![w(0), w(1), w(0)];
    filter_with_poles(&mut expected, w(1), w(2), &vec![half, half, half, half]);
    let mut signal = vec![w(0), w(1), w(0)];
    deriche_recursive_filter_approx(&mut signal, w(1), w(2), &exp, &cos, &sin);
    assert_eq!(signal, expected);
    assert_ne!(signal, vec![w(0), w(1), w(0)]);
}

#[test]
fn the_coefficients_of_the_second_order() {
    let c = second_order_coefficients(w(1), q(1, 2), q(1, 4));
    assert_eq!(c.a1, q(1, 7));
    assert_eq!(c.a2, w(0));
    assert_eq!(c.a3, q(1, 7));
    assert_eq!(c.a4, m(1, 28));
    assert_eq!(c.b1, w(1));
    assert_eq!(c.b2, m(1, 4));
}

#[test]
fn the_second_order_convolves_with_its_kernel() {
    let c = second_order_coefficients(w(1), q(1, 2), q(1, 4));
    let mut signal = vec![w(0), w(0), w(1), w(0), w(0)];
    apply_second_order(&mut signal, &c);
    assert_eq!(signal, vec![q(3, 28), q(1, 7), q(1, 7), q(1, 7), q(3, 28)]);
}

#[test]
fn the_second_order_on_short_signals() {
    let c = second_order_coefficients(w(1), q(1, 2), q(1, 4));
    let mut two = vec![w(1), w(2)];
    apply_second_order(&mut two, &c);
    assert_eq!(two, vec![q(3, 7), q(3, 7)]);
    let mut one = vec![w(3)];
    apply_second_order(&mut one, &c);
    assert_eq!(one, vec![q(3, 7)]);
    let mut none: Vec<Exact> = vec![];
    apply_second_order(&mut none, &c);
    assert_eq!(none, vec![]);
}

#[test]
fn the_second_order_passes_mirror_each_other() {
    let c = second_order_coefficients(q(3, 2), q(1, 2), q(1, 4));
    let mut signal = vec![w(3), w(1), w(0), w(2), w(7)];
    let mut reversed: Vec<Exact> = signal.iter().rev().cloned().collect();
    apply_second_order(&mut signal, &c);
    apply_second_order(&mut reversed, &c);
    reversed.reverse();
    assert_eq!(signal, reversed);
}

#[test]
fn the_second_order_has_the_gain_one() {
    let c = second_order_coefficients(w(1), q(1, 2), q(1, 4));
    // What the passes over a signal of ones settle on.
    let rest = w(1).difference(c.b1).difference(c.b2);
    let before = c.a1.sum(c.a2).quotient(rest);
    let after = c.a3.sum(c.a4).quotient(rest);
    assert_eq!(before.sum(after), w(1));
}

#[test]
fn the_exponentials_of_the_second_order() {
    let exp = |x: Exact| x;
    assert_eq!(filter_exponentials(w(3), &exp), (m(565, 1000), m(1130, 1000)));
}

#[test]
fn the_second_order_takes_its_exponentials_from_the_function() {
    let exp = |_: Exact| q(1, 2);
    let mut expected = vec![w(0), w(1), w(0)];
    filter_with_exponentials(&mut expected, w(1), q(1, 2), q(1, 2));
    let mut signal = vec![w(0), w(1), w(0)];
    deriche_recursive_filter_2nd_order_approx(&mut signal, w(1), &exp);
    assert_eq!(signal, expected);
    assert_ne!(signal, vec![w(0), w(1), w(0)]);
}

fn mixed(s: &[Exact], t: &[Exact], a: Exact, b: Exact) -> Vec<Exact> {
    s.iter().zip(t.iter()).map(|(x, y)| a.product(*x).sum(b.product(*y))).collect()
}

#[test]
fn the_filters_are_linear() {
    let s = vec![w(3), w(1), w(0), w(2)];
    let t = vec![w(0), w(5), w(1), w(1)];
    let (a, b) = (w(2), m(3, 1));
    let mut both = mixed(&s, &t, a, b);
    let (mut first, mut second) = (s.clone(), t.clone());
    for signal in [&mut both, &mut first, &mut second] {
        filter_with_exponentials(signal, w(3), q(1, 2), q(1, 4));
    }
    assert_eq!(both, mixed(&first, &second, a, b));
    let mut both = mixed(&s, &t, a, b);
    let (mut first, mut second) = (s.clone(), t.clone());
    for signal in [&mut both, &mut first, &mut second] {
        filter_with_poles(signal, w(1), w(2), &sample_poles());
    }
    assert_eq!(both, mixed(&first, &second, a, b));
}

#[test]
fn the_second_order_filter_has_no_preferred_direction() {
    let mut signal = vec![w(3), w(1), w(0), w(2), w(7)];
    let mut reversed: Vec<Exact> = signal.iter().rev().cloned().collect();
    filter_with_exponentials(&mut signal, w(3), q(1, 2), q(1, 4));
    filter_with_exponentials(&mut reversed, w(3), q(1, 2), q(1, 4));
    reversed.reverse();
    assert_eq!(signal, reversed);
    assert!(signal.iter().all(|v| w(0).is_below(*v)));
}

#[test]
fn the_second_order_filter_makes_no_weight() {
    let exp = |x: Exact| if x == m(1, 1) { q(1, 2) } else { q(1, 4) };
    let mut signal = vec![w(3), w(1), w(0), w(2), w(7)];
    let before = total_of(&signal);
    deriche_recursive_filter_2nd_order_approx(&mut signal, q(1695, 1000), &exp);
    let after = total_of(&signal);
    assert!(after.is_defined() && after.is_below(before));
    let mut inner = vec![w(0); 9];
    inner[4] = w(28);
    deriche_recursive_filter_2nd_order_approx(&mut inner, q(1695, 1000), &exp);
    assert_eq!(inner, vec![q(5, 4), w(2), w(3), w(4), w(4), w(4), w(3), w(2), q(5, 4)]);
    assert_eq!(total_of(&inner), q(49, 2));
}

#[test]
fn calls_of_the_filters_are_linear() {
    let s = vec![w(3), w(1), w(0), w(2)];
    let t = vec![w(0), w(5), w(1), w(1)];
    let (a, b) = (w(2), m(3, 1));
    let exp = |x: Exact| if x == m(1, 1) { q(1, 2) } else { q(1, 4) };
    let mut both = mixed(&s, &t, a, b);
    let (mut first, mut second) = (s.clone(), t.clone());
    for signal in [&mut both, &mut first, &mut second] {
        deriche_recursive_filter_2nd_order_approx(signal, q(1695, 1000), &exp);
    }
    assert!(both.iter().all(|v| v.is_defined()));
    assert_eq!(both, mixed(&first, &second, a, b));
    let half = |_: Exact| q(1, 2);
    let one = |_: Exact| w(1);
    let zero = |_: Exact| w(0);
    let mut both = mixed(&s, &t, a, b);
    let (mut first, mut second) = (s.clone(), t.clone());
    for signal in [&mut both, &mut first, &mut second] {
        deriche_recursive_filter_approx(signal, w(1), w(2), &half, &one, &zero);
    }
    assert!(both.iter().all(|v| v.is_defined()));
    assert_eq!(both, mixed(&first, &second, a, b));
}
