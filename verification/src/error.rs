//! Why an estimate is refused, and how that is said.
use vstd::prelude::*;
use vstd::string::StringExecFns;

verus! {

/// One of the two axes.
#[derive(Clone, Copy, Debug, PartialEq, Eq)]
pub enum Axis {
    /// The first axis.
    X,
    /// The second axis.
    Y,
}

/// Why an estimate is refused.
#[derive(Debug, PartialEq, Eq)]
pub enum KdeError<T> {
    /// There are fewer than four samples.
    TooFewSamples,
    /// There are no bins.
    NoBins,
    /// So many samples are infinite or undefined.
    NonFinite(usize),
    /// The bandwidth is negative.
    NegativeSigma,
    /// The upper end of the range lies below the lower end.
    InvertedRange {
        /// The axis of the range.
        axis: Axis,
        /// The upper end.
        max: T,
        /// The lower end.
        min: T,
    },
    /// The bins have no width.
    BinTooNarrow,
    /// The smoothed histogram sums to zero without being zero.
    NotNormalizable,
    /// There is no density to search.
    EmptyDensity,
    /// No value of the density can be its maximum.
    NoValidMode,
    /// The maximum of the density lies outside the grid.
    ModeOutsideGrid,
    /// The data is no table.
    NotATable,
    /// Neither axis of the table has the length two.
    NotTwoAxes,
    /// There are fewer than three samples along an axis.
    TooFewPoints,
    /// There are no bins along an axis.
    NoCells,
    /// The cells have no width.
    CellTooNarrow,
}

/// The character of the digit `d`.
pub open spec fn digit_char(d: nat) -> char {
    if d == 0 {
        '0'
    } else if d == 1 {
        '1'
    } else if d == 2 {
        '2'
    } else if d == 3 {
        '3'
    } else if d == 4 {
        '4'
    } else if d == 5 {
        '5'
    } else if d == 6 {
        '6'
    } else if d == 7 {
        '7'
    } else if d == 8 {
        '8'
    } else {
        '9'
    }
}

/// The decimal digits of `n`.
pub open spec fn decimal(n: nat) -> Seq<char>
    decreases n,
{
    if n < 10 {
        seq![digit_char(n)]
    } else {
        decimal(n / 10).push(digit_char(n % 10))
    }
}

/// The name of an axis.
pub open spec fn axis_char(axis: Axis) -> Seq<char> {
    match axis {
        Axis::X => "x"@,
        Axis::Y => "y"@,
    }
}

/// What is said of an inverted range whose ends read `max` and `min`.
pub open spec fn inverted_range_text(axis: Axis, max: Seq<char>, min: Seq<char>) -> Seq<char> {
    axis_char(axis) + "max ("@ + max + ") must be greater than or equal to "@ + axis_char(axis)
        + "min ("@ + min + ")"@
}

/// What is said of the errors that hold no numbers of the data.
pub open spec fn error_text<T>(e: KdeError<T>) -> Seq<char>
    recommends
        !(e is InvertedRange),
{
    match e {
        KdeError::TooFewSamples => "Need at least 4 samples for KDE."@,
        KdeError::NoBins => "Number of bins must be greater than 0."@,
        KdeError::NonFinite(n) => "Input data must be finite; found "@ + decimal(n as nat)
            + " non-finite value(s)."@,
        KdeError::NegativeSigma => "Sigma must be non-negative."@,
        KdeError::BinTooNarrow => "dx (bin width) is too small or zero."@,
        KdeError::NotNormalizable =>
            "Normalization factor is near zero despite non-zero filtered histogram sum."@,
        KdeError::EmptyDensity => "PDF is empty, cannot find mode."@,
        KdeError::NoValidMode =>
            "Could not find a valid mode in the PDF (e.g., all values are NaN/Inf)."@,
        KdeError::ModeOutsideGrid => "Internal error: Argmax index out of bounds for x_coords."@,
        KdeError::NotATable => "Input array must be 2-dimensional."@,
        KdeError::NotTwoAxes => "Data shape must be either (2, N) or (N, 2)."@,
        KdeError::TooFewPoints => "Need at least 3 samples per dimension for KDE 2D."@,
        KdeError::NoCells => "Number of bins must be greater than 0 in all dimensions."@,
        KdeError::CellTooNarrow => "Bin widths (dx, dy) must not be too small or zero."@,
        KdeError::InvertedRange { .. } => Seq::empty(),
    }
}

/// The digit `d`, as text.
fn digit_text(d: usize) -> (r: &'static str)
    requires
        d < 10,
    ensures
        r@ == seq![digit_char(d as nat)],
{
    proof {
        reveal_strlit("0");
        reveal_strlit("1");
        reveal_strlit("2");
        reveal_strlit("3");
        reveal_strlit("4");
        reveal_strlit("5");
        reveal_strlit("6");
        reveal_strlit("7");
        reveal_strlit("8");
        reveal_strlit("9");
    }
    let r: &'static str = if d == 0 {
        "0"
    } else if d == 1 {
        "1"
    } else if d == 2 {
        "2"
    } else if d == 3 {
        "3"
    } else if d == 4 {
        "4"
    } else if d == 5 {
        "5"
    } else if d == 6 {
        "6"
    } else if d == 7 {
        "7"
    } else if d == 8 {
        "8"
    } else {
        "9"
    };
    proof {
        assert(r@ =~= seq![digit_char(d as nat)]);
    }
    r
}

/// The decimal digits of `n`, as text.
fn decimal_text(n: usize) -> (r: String)
    ensures
        r@ == decimal(n as nat),
    decreases n,
{
    if n < 10 {
        String::from_str(digit_text(n))
    } else {
        let r: String = decimal_text(n / 10).concat(digit_text(n % 10));
        proof {
            assert(r@ =~= decimal(n as nat));
        }
        r
    }
}

/// The name of an axis, as text.
fn axis_text(axis: Axis) -> (r: &'static str)
    ensures
        r@ == axis_char(axis),
{
    match axis {
        Axis::X => "x",
        Axis::Y => "y",
    }
}

/// What is said of an inverted range whose ends read `max` and `min`.
pub fn inverted_range_message(axis: Axis, max: &str, min: &str) -> (r: String)
    ensures
        r@ == inverted_range_text(axis, max@, min@),
{
    String::from_str(axis_text(axis)).concat("max (").concat(max).concat(
        ") must be greater than or equal to ",
    ).concat(axis_text(axis)).concat("min (").concat(min).concat(")")
}

impl<T: Copy> KdeError<T> {
    /// What is said of the error, where `show` writes out a number of the data.
    pub fn message<F: Fn(T) -> String>(&self, show: &F) -> (r: String)
        requires
            forall|x: T| #[trigger] show.requires((x,)),
        ensures
            match *self {
                KdeError::InvertedRange { axis, max, min } => exists|a: String, b: String|
                    #[trigger] show.ensures((max,), a) && #[trigger] show.ensures((min,), b) && r@
                        == inverted_range_text(axis, a@, b@),
                e => r@ == error_text(e),
            },
    {
        match *self {
            KdeError::TooFewSamples => String::from_str("Need at least 4 samples for KDE."),
            KdeError::NoBins => String::from_str("Number of bins must be greater than 0."),
            KdeError::NonFinite(n) => String::from_str("Input data must be finite; found ").concat(
                decimal_text(n).as_str(),
            ).concat(" non-finite value(s)."),
            KdeError::NegativeSigma => String::from_str("Sigma must be non-negative."),
            KdeError::BinTooNarrow => String::from_str("dx (bin width) is too small or zero."),
            KdeError::NotNormalizable => String::from_str(
                "Normalization factor is near zero despite non-zero filtered histogram sum.",
            ),
            KdeError::EmptyDensity => String::from_str("PDF is empty, cannot find mode."),
            KdeError::NoValidMode => String::from_str(
                "Could not find a valid mode in the PDF (e.g., all values are NaN/Inf).",
            ),
            KdeError::ModeOutsideGrid => String::from_str(
                "Internal error: Argmax index out of bounds for x_coords.",
            ),
            KdeError::NotATable => String::from_str("Input array must be 2-dimensional."),
            KdeError::NotTwoAxes => String::from_str("Data shape must be either (2, N) or (N, 2)."),
            KdeError::TooFewPoints => String::from_str(
                "Need at least 3 samples per dimension for KDE 2D.",
            ),
            KdeError::NoCells => String::from_str(
                "Number of bins must be greater than 0 in all dimensions.",
            ),
            KdeError::CellTooNarrow => String::from_str(
                "Bin widths (dx, dy) must not be too small or zero.",
            ),
            KdeError::InvertedRange { axis, max, min } => {
                let a: String = (*show)(max);
                let b: String = (*show)(min);
                inverted_range_message(axis, a.as_str(), b.as_str())
            },
        }
    }
}

} // verus!
