//! What the messages say.
use vstd::prelude::*;

use crate::error::{
    decimal, digit_char, inverted_range_message, inverted_range_text, Axis, KdeError,
};

verus! {

/// The number that a text of decimal digits stands for.
pub open spec fn read(s: Seq<char>) -> int
    decreases s.len(),
{
    if s.len() == 0 {
        0
    } else {
        10 * read(s.drop_last()) + (s.last() as int - '0' as int)
    }
}

/// A number is written so that it is read back: in digits, with no zero in front.
pub proof fn law_decimal(n: nat)
    ensures
        read(decimal(n)) == n,
        decimal(n).len() >= 1,
        forall|i: int|
            0 <= i < decimal(n).len() ==> '0' as int <= (#[trigger] decimal(n)[i]) as int
                <= '9' as int,
        n > 0 ==> decimal(n)[0] != '0',
        decimal(0) == seq!['0'],
    decreases n,
{
    if n < 10 {
        let s = decimal(n);
        assert(s.drop_last() =~= Seq::<char>::empty());
        assert(read(s.drop_last()) == 0);
        assert(s.last() == digit_char(n));
    } else {
        law_decimal(n / 10);
        let s = decimal(n);
        assert(s.drop_last() =~= decimal(n / 10));
        assert(s.last() == digit_char(n % 10));
        assert(s[0] == decimal(n / 10)[0]);
    }
}

/// The message of an inverted range names the axis and both ends: `xmax (..) must be greater than or
/// equal to xmin (..)` for the first axis, and `ymax (..)` and `ymin (..)` for the second.
pub proof fn law_inverted_range_message(axis: Axis, max: &str, min: &str, r: String)
    requires
        call_ensures(inverted_range_message, (axis, max, min), r),
    ensures
        axis is X ==> r@ == "xmax ("@ + max@ + ") must be greater than or equal to xmin ("@ + min@
            + ")"@,
        axis is Y ==> r@ == "ymax ("@ + max@ + ") must be greater than or equal to ymin ("@ + min@
            + ")"@,
{
    reveal_strlit("x");
    reveal_strlit("y");
    reveal_strlit("max (");
    reveal_strlit("min (");
    reveal_strlit(") must be greater than or equal to ");
    reveal_strlit("xmax (");
    reveal_strlit("ymax (");
    reveal_strlit(") must be greater than or equal to xmin (");
    reveal_strlit(") must be greater than or equal to ymin (");
    assert("x"@ + "max ("@ =~= "xmax ("@);
    assert("y"@ + "max ("@ =~= "ymax ("@);
    assert(") must be greater than or equal to "@ + "x"@ + "min ("@
        =~= ") must be greater than or equal to xmin ("@);
    assert(") must be greater than or equal to "@ + "y"@ + "min ("@
        =~= ") must be greater than or equal to ymin ("@);
    if axis is X {
        assert(r@ =~= "xmax ("@ + max@ + (") must be greater than or equal to "@ + "x"@ + "min ("@)
            + min@ + ")"@);
    } else {
        assert(r@ =~= "ymax ("@ + max@ + (") must be greater than or equal to "@ + "y"@ + "min ("@)
            + min@ + ")"@);
    }
}

/// What every error says.
pub proof fn law_message<T: Copy, F: Fn(T) -> String>(e: KdeError<T>, show: &F, r: String)
    requires
        call_ensures(KdeError::<T>::message::<F>, (&e, show), r),
    ensures
        match e {
            KdeError::TooFewSamples => r@ == "Need at least 4 samples for KDE."@,
            KdeError::NoBins => r@ == "Number of bins must be greater than 0."@,
            KdeError::NonFinite(n) => exists|digits: Seq<char>| #[trigger]
                read(digits) == n && r@ == "Input data must be finite; found "@ + digits
                    + " non-finite value(s)."@ && digits.len() >= 1 && (n > 0 ==> digits[0] != '0'),
            KdeError::NegativeSigma => r@ == "Sigma must be non-negative."@,
            KdeError::BinTooNarrow => r@ == "dx (bin width) is too small or zero."@,
            KdeError::NotNormalizable => r@
                == "Normalization factor is near zero despite non-zero filtered histogram sum."@,
            KdeError::EmptyDensity => r@ == "PDF is empty, cannot find mode."@,
            KdeError::NoValidMode => r@
                == "Could not find a valid mode in the PDF (e.g., all values are NaN/Inf)."@,
            KdeError::ModeOutsideGrid => r@
                == "Internal error: Argmax index out of bounds for x_coords."@,
            KdeError::NotATable => r@ == "Input array must be 2-dimensional."@,
            KdeError::NotTwoAxes => r@ == "Data shape must be either (2, N) or (N, 2)."@,
            KdeError::TooFewPoints => r@ == "Need at least 3 samples per dimension for KDE 2D."@,
            KdeError::NoCells => r@ == "Number of bins must be greater than 0 in all dimensions."@,
            KdeError::CellTooNarrow => r@ == "Bin widths (dx, dy) must not be too small or zero."@,
            KdeError::InvertedRange { axis, max, min } => exists|a: String, b: String|
                #[trigger] show.ensures((max,), a) && #[trigger] show.ensures((min,), b) && r@
                    == inverted_range_text(axis, a@, b@),
        },
{
    match e {
        KdeError::NonFinite(n) => {
            law_decimal(n as nat);
            assert(read(decimal(n as nat)) == n);
        },
        _ => {},
    }
}

} // verus!
