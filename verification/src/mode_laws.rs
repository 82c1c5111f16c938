//! Where the mode of a density is, whatever the arithmetic, with undefined values among the density.
use vstd::prelude::*;

use crate::error::KdeError;
use crate::kde::{find_mode, mode, peak};
use crate::scalar::{Arith, Scalar};

verus! {

/// Whether the values that can be compared with themselves are in order: any two of them can be
/// compared, and comparing them is transitive.
pub open spec fn defined_are_ordered<T: Arith>(p: Seq<T>) -> bool {
    &&& forall|i: int, j: int|
        0 <= i < p.len() && 0 <= j < p.len() && p[i].at_most(p[i]) && p[j].at_most(p[j])
            ==> #[trigger] p[i].at_most(p[j]) || p[j].at_most(p[i])
    &&& forall|i: int, j: int, k: int|
        0 <= i < p.len() && 0 <= j < p.len() && 0 <= k < p.len() && #[trigger] p[i].at_most(p[j])
            && #[trigger] p[j].at_most(p[k]) ==> p[i].at_most(p[k])
}

/// Whether `i` is where the values are largest, those left aside that cannot be compared with
/// themselves, and the last such place.
pub open spec fn is_last_largest<T: Arith>(p: Seq<T>, i: int) -> bool {
    &&& 0 <= i < p.len()
    &&& p[i].at_most(p[i])
    &&& forall|j: int|
        0 <= j < p.len() && p[j].at_most(p[j]) ==> (#[trigger] p[j]).at_most(p[i])
    &&& forall|j: int| i < j < p.len() && p[j].at_most(p[j]) ==> !p[i].at_most(#[trigger] p[j])
}

/// The peak is the last place of a largest value.
proof fn lemma_peak<T: Arith>(p: Seq<T>)
    requires
        defined_are_ordered(p),
    ensures
        match peak(p) {
            Some(i) => is_last_largest(p, i),
            None => forall|j: int| 0 <= j < p.len() ==> !(#[trigger] p[j]).at_most(p[j]),
        },
    decreases p.len(),
{
    if p.len() > 0 {
        let rest = p.drop_last();
        let last = p.len() - 1;
        assert forall|i: int, j: int|
            0 <= i < rest.len() && 0 <= j < rest.len() && rest[i].at_most(rest[i])
                && rest[j].at_most(rest[j]) implies #[trigger] rest[i].at_most(rest[j])
            || rest[j].at_most(rest[i]) by {
            assert(p[i].at_most(p[j]) || p[j].at_most(p[i]));
        }
        assert forall|i: int, j: int, k: int|
            0 <= i < rest.len() && 0 <= j < rest.len() && 0 <= k < rest.len()
                && #[trigger] rest[i].at_most(rest[j]) && #[trigger] rest[j].at_most(
                rest[k],
            ) implies rest[i].at_most(rest[k]) by {
            assert(p[i].at_most(p[j]) && p[j].at_most(p[k]));
        }
        lemma_peak(rest);
        assert(forall|j: int| 0 <= j < rest.len() ==> #[trigger] p[j] == rest[j]);
        match peak(rest) {
            Some(b) => {
                assert(is_last_largest(rest, b));
                if p[last].at_most(p[last]) {
                    assert(p[b].at_most(p[last]) || p[last].at_most(p[b]));
                    if p[b].at_most(p[last]) {
                        assert(peak(p) == Some(last));
                        assert forall|j: int| 0 <= j < p.len() && p[j].at_most(p[j]) implies (
                        #[trigger] p[j]).at_most(p[last]) by {
                            if j < last {
                                assert(rest[j].at_most(rest[b]));
                                assert(p[j].at_most(p[b]));
                            }
                        }
                    } else {
                        assert(peak(p) == Some(b));
                        assert forall|j: int| 0 <= j < p.len() && p[j].at_most(p[j]) implies (
                        #[trigger] p[j]).at_most(p[b]) by {
                            if j < last {
                                assert(rest[j].at_most(rest[b]));
                            }
                        }
                        assert forall|j: int|
                            b < j < p.len() && p[j].at_most(p[j]) implies !p[b].at_most(
                            #[trigger] p[j],
                        ) by {
                            if j < last {
                                assert(!rest[b].at_most(rest[j]));
                            }
                        }
                    }
                } else {
                    assert(peak(p) == Some(b));
                    assert forall|j: int| 0 <= j < p.len() && p[j].at_most(p[j]) implies (
                    #[trigger] p[j]).at_most(p[b]) by {
                        assert(rest[j].at_most(rest[b]));
                    }
                    assert forall|j: int|
                        b < j < p.len() && p[j].at_most(p[j]) implies !p[b].at_most(
                        #[trigger] p[j],
                    ) by {
                        assert(!rest[b].at_most(rest[j]));
                    }
                }
            },
            None => {
                assert forall|j: int| 0 <= j < last implies !(#[trigger] p[j]).at_most(p[j]) by {
                    assert(!rest[j].at_most(rest[j]));
                }
            },
        }
    }
}

/// What a call for the mode returns: the place of the grid where the density is largest, undefined
/// values left aside, and the last one where there are several; an error if the density is empty, if
/// none of its values is finite or none can be compared, or if the place lies outside the grid.
pub proof fn law_mode_among_defined<T: Scalar>(
    x: &Vec<T>,
    pdf: &Vec<T>,
    r: Result<T, KdeError<T>>,
)
    requires
        call_ensures(find_mode::<T>, (x, pdf), r),
        defined_are_ordered(pdf@),
    ensures
        r == mode(x@, pdf@),
        ({
            let none_finite = forall|i: int| 0 <= i < pdf@.len() ==> !(#[trigger] pdf@[i]).finite();
            let none_defined = forall|i: int|
                0 <= i < pdf@.len() ==> !(#[trigger] pdf@[i]).at_most(pdf@[i]);
            match r {
                Ok(m) => !none_finite && exists|i: int| #[trigger]
                    is_last_largest(pdf@, i) && i < x@.len() && m == x@[i],
                Err(KdeError::EmptyDensity) => pdf@.len() == 0,
                Err(KdeError::NoValidMode) => pdf@.len() > 0 && (none_finite || none_defined),
                Err(KdeError::ModeOutsideGrid) => !none_finite && exists|i: int| #[trigger]
                    is_last_largest(pdf@, i) && i >= x@.len(),
                Err(_) => false,
            }
        }),
{
    lemma_peak(pdf@);
}

} // verus!
