# fast_kde

Gaussian kernel density estimation in one and two dimensions, by linear binning and recursive
filtering. The estimators are written in Verus: what each function returns is stated in its
contract and proved.

* `kde::kde_deriche` estimates the density of one-dimensional data on a grid of bins over its
  range, with a fourth-order recursive filter in place of the Gaussian kernel.
* `kde::kde_mode_deriche` returns the place where that density is largest.
* `kde_2d::kde_deriche_2d` estimates the density of two-dimensional data on a grid of cells, with
  a second-order recursive filter along each axis and bandwidths from Scott's factor.
  `table::kde_deriche_2d_of_table` takes the points as a table, with one axis in each of two rows or
  columns.

## Numbers

The estimators are generic over the number type (`scalar::Scalar`), and their contracts hold for
every arithmetic, one that rounds among them. `exp`, `cos`, `sin`, the power and the circle constant
are arguments. What needs the laws of a field, such as that a density integrates to one, is proved
for the real numbers, in the modules whose names end in `_laws`. `exact::Exact` computes without
rounding as long as the fractions stay small: what it computes is proved to be what the real
numbers give, wherever it is defined. The modules whose names end in `_calls` state of calls on it
what follows, such as that the order of the data and the number of threads do not matter.

## Layout

| Modules | What they hold |
| :--- | :--- |
| `scalar`, `exact`, `exact_laws` | the arithmetic, and exact fractions |
| `exact_relation`, `exact_filters`, `exact_matrices`, `exact_estimates`, `exact_estimates_2d` | that estimates on exact fractions are exact |
| `exact_terms`, `exact_binning_calls`, `exact_filter_calls`, `exact_matrix_calls`, `exact_estimate_calls` | what calls on exact fractions have in common |
| `table` | tables of points |
| `parallel` | the parallel loops, run on rayon's thread pool |
| `binning`, `binning_laws`, `binning_2d`, `binning_2d_laws`, `order_laws` | linear binning |
| `deriche`, `deriche_laws`, `convolution_laws` | the fourth-order filter, and that it is a convolution |
| `second_order`, `second_order_laws` | the second-order filter |
| `linearity_laws`, `mass_laws` | that both filters are linear and have no preferred direction, and that the second makes no weight |
| `matrix`, `matrix_laws`, `covariance_laws` | covariance, bandwidth and eigenvalues |
| `kde`, `kde_laws`, `estimate_laws`, `kde_2d`, `kde_2d_laws` | the estimators |
| `call_laws` | what two calls have in common in any arithmetic |
| `error` | why an estimate is refused |
| `complex`, `convolution`, `reals` | lemmas on complex and real numbers |

`app/` is the Python module: it takes NumPy arrays, runs the estimators on double-precision
numbers and raises `ValueError` where they refuse.
