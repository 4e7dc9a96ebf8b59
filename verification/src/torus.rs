//! Wraparound arithmetic for one axis of a toroidal grid.

use vstd::prelude::*;
use vstd::arithmetic::div_mod::{
    lemma_add_mod_noop,
    lemma_fundamental_div_mod,
    lemma_fundamental_div_mod_converse,
    lemma_mod_add_multiples_vanish,
};

verus! {

/// The position in `[0, bound)` that `coord` lands on when the axis wraps
/// around: the Euclidean remainder of `coord` by `bound`.
pub open spec fn wrap(coord: int, bound: nat) -> int {
    coord % (bound as int)
}

/// A wrapped coordinate always lies on the axis.
pub proof fn lemma_wrap_in_range(coord: int, bound: nat)
    requires
        bound > 0,
    ensures
        0 <= wrap(coord, bound) < bound,
{
}

/// A coordinate that already lies on the axis is left where it is.
pub proof fn lemma_wrap_in_range_is_identity(coord: int, bound: nat)
    requires
        0 <= coord < bound,
    ensures
        wrap(coord, bound) == coord,
{
    lemma_fundamental_div_mod_converse(coord, bound as int, 0, coord);
}

/// Going once around the axis changes nothing.
pub proof fn lemma_wrap_periodic(coord: int, bound: nat)
    ensures
        wrap(coord + bound, bound) == wrap(coord, bound),
{
    if bound > 0 {
        lemma_mod_add_multiples_vanish(coord, bound as int);
    }
}

/// A coordinate `below + 1` positions before the start of the axis lands as
/// far from its end as `below` wraps from its start.
pub proof fn lemma_wrap_negative(below: int, bound: nat)
    requires
        below >= 0,
        bound > 0,
    ensures
        wrap(-(below + 1), bound) == bound - 1 - wrap(below, bound),
{
    let b = bound as int;
    let q = below / b;
    let r = below % b;
    lemma_fundamental_div_mod(below, b);
    assert(-(below + 1) == (-q - 1) * b + (b - 1 - r)) by (nonlinear_arith)
        requires
            below == b * q + r,
    ;
    lemma_fundamental_div_mod_converse(-(below + 1), b, -q - 1, b - 1 - r);
}

/// Wrapping a sum is the same as wrapping the sum of its wrapped parts, and
/// that sum overshoots the axis at most once.
pub proof fn lemma_wrap_sum(coord: int, step: int, bound: nat)
    requires
        bound > 0,
    ensures
        wrap(coord + step, bound) == if wrap(coord, bound) + wrap(step, bound) >= bound {
            wrap(coord, bound) + wrap(step, bound) - bound
        } else {
            wrap(coord, bound) + wrap(step, bound)
        },
{
    let b = bound as int;
    let sum = wrap(coord, bound) + wrap(step, bound);
    lemma_add_mod_noop(coord, step, b);
    if sum >= b {
        lemma_fundamental_div_mod_converse(sum, b, 1, sum - b);
    } else {
        lemma_fundamental_div_mod_converse(sum, b, 0, sum);
    }
}

} // verus!
