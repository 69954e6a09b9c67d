//! Small helpers shared by the classifier.

use vstd::prelude::*;

verus! {

/// How square a rectangle is, as the ratio of its longer side to its shorter
/// one: the pair `(longer, shorter)`.  A square gives two equal sides.
pub fn squareness(base: usize, height: usize) -> (sides: (usize, usize))
    ensures
        sides.0 == if base > height {
            base
        } else {
            height
        },
        sides.1 == if base > height {
            height
        } else {
            base
        },
{
    if base > height {
        (base, height)
    } else {
        (height, base)
    }
}

} // verus!
