//! Gaussian kernel density estimation by linear binning and recursive filtering.
pub mod arithmetic_laws;
pub mod axis_kernel_laws;
pub mod binning;
pub mod binning_2d;
pub mod binning_2d_laws;
pub mod binning_laws;
pub mod call_laws;
pub mod chunk_laws;
pub mod complex;
pub mod convolution;
pub mod convolution_laws;
pub mod covariance_laws;
pub mod deriche;
pub mod deriche_laws;
pub mod domain_laws;
pub mod eigen_laws;
pub mod error;
pub mod estimate_laws;
pub mod exact;
pub mod exact_binning_calls;
pub mod exact_estimate_calls;
pub mod exact_estimates;
pub mod exact_estimates_2d;
pub mod exact_filter_calls;
pub mod exact_filters;
pub mod exact_function_laws;
pub mod exact_laws;
pub mod exact_matrices;
pub mod exact_matrix_calls;
pub mod exact_range_laws;
pub mod exact_relation;
pub mod exact_terms;
pub mod function_laws;
pub mod hat_2d_laws;
pub mod hat_laws;
pub mod kde;
pub mod kde_2d;
pub mod kde_2d_laws;
pub mod kde_laws;
pub mod kernel_laws;
pub mod linearity_laws;
pub mod mass_laws;
pub mod matrix;
pub mod matrix_laws;
pub mod mode_laws;
pub mod moment_laws;
pub mod order_laws;
pub mod parallel;
pub mod part_laws;
pub mod reals;
pub mod recursion_laws;
pub mod request_2d_laws;
pub mod request_laws;
pub mod result_laws;
pub mod scalar;
pub mod second_order;
pub mod second_order_laws;
pub mod step_laws;
pub mod sums;
pub mod table;
pub mod text_laws;
