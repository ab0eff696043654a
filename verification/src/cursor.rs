//! A cursor that walks along one axis of the board and wraps at its ends.

use vstd::prelude::*;
use vstd::arithmetic::div_mod::{lemma_fundamental_div_mod, lemma_fundamental_div_mod_converse};

verus! {

/// Where a cursor at `position` stands after `step` steps along an axis of
/// `size` places: it leaves at one end and comes back in at the other.
pub fn wrap_cursor(position: usize, step: isize, size: usize) -> (wrapped: usize)
    requires
        0 < size,
        position <= isize::MAX,
        isize::MIN <= position + step <= isize::MAX,
    ensures
        wrapped == (position + step) % (size as int),
        wrapped < size,
{
    let moved = position as isize + step;
    if moved >= 0 {
        moved as usize % size
    } else {
        let short = (-(moved + 1)) as usize;
        let back = short % size;
        proof {
            let q = short as int / size as int;
            lemma_fundamental_div_mod(short as int, size as int);
            assert(size * q == q * size) by (nonlinear_arith);
            assert((-(q + 1)) * size == -(q * size) - size) by (nonlinear_arith);
            lemma_fundamental_div_mod_converse(
                moved as int,
                size as int,
                -(q + 1),
                size - 1 - back,
            );
        }
        size - 1 - back
    }
}

} // verus!
