//! What holds of clipping, rounding and copying.

use crate::api::cut;
use crate::binary64::{
    clipped, is_at_most, is_finite, is_less, is_nan, is_nearest_even, is_well_of, lemma_nearest_unique,
    lemma_one, lemma_size_increases, lemma_size_positive, magnitude_of, unit, units, Bits, ONE, ZERO,
};
use vstd::prelude::*;

verus! {

/// Whether `x` is a number between 0 and 1.
pub open spec fn in_unit(x: Bits) -> bool {
    is_at_most(ZERO, x) && is_at_most(x, ONE)
}

/// Clipping brings every number into the interval from 0 to 1, to the nearer end of it, and leaves
/// what is there as it is, so clipping again changes nothing.
pub proof fn law_clip(value: Bits)
    ensures
        !is_nan(value) ==> is_at_most(ZERO, clipped(value)) && is_at_most(clipped(value), ONE),
        is_at_most(ZERO, value) && is_at_most(value, ONE) ==> clipped(value) == value,
        is_less(value, ZERO) ==> clipped(value) == ZERO,
        is_less(ONE, value) ==> clipped(value) == ONE,
        is_nan(value) ==> clipped(value) == value,
        clipped(clipped(value)) == clipped(value),
{
    lemma_one();
}

/// Finite encodings of one value are the same, unless it is 0.
proof fn lemma_units_injective(a: Bits, b: Bits)
    requires
        is_finite(a),
        is_finite(b),
        units(a) == units(b),
        units(a) != 0,
    ensures
        a == b,
{
    let (ma, mb) = (magnitude_of(a) as int, magnitude_of(b) as int);
    lemma_size_positive(ma);
    lemma_size_positive(mb);
    if ma < mb {
        lemma_size_increases(ma, mb);
    } else if mb < ma {
        lemma_size_increases(mb, ma);
    }
}

/// A finite number has one well only.
pub proof fn law_well_is_unique(value: Bits, a: Bits, b: Bits)
    requires
        is_finite(value),
        is_well_of(value, a),
        is_well_of(value, b),
    ensures
        a == b,
{
    let k = choose|k: int| #[trigger] is_nearest_even(units(value), k) && units(a) == k * unit();
    let l = choose|l: int| #[trigger] is_nearest_even(units(value), l) && units(b) == l * unit();
    lemma_nearest_unique(units(value), k, l);
    if units(a) != 0 {
        lemma_units_injective(a, b);
    }
}

/// A well is its own well.
pub proof fn law_well_of_well(value: Bits, well: Bits)
    requires
        is_finite(value),
        is_well_of(value, well),
    ensures
        is_well_of(well, well),
{
    lemma_one();
    let k = choose|k: int| #[trigger] is_nearest_even(units(value), k) && units(well) == k * unit();
    assert(is_nearest_even(units(well), k));
}

/// Between 0 and 1 the wells are 0 and 1; the half belongs to 0.
pub proof fn law_wells_of_the_unit_interval(value: Bits, well: Bits)
    requires
        is_finite(value),
        is_well_of(value, well),
        0 <= units(value) <= unit(),
    ensures
        units(well) == if 2 * units(value) <= unit() { 0 } else { unit() },
{
    lemma_one();
    let k = choose|k: int| #[trigger] is_nearest_even(units(value), k) && units(well) == k * unit();
    if 2 * units(value) <= unit() {
        assert(is_nearest_even(units(value), 0));
        lemma_nearest_unique(units(value), k, 0);
    } else {
        assert(is_nearest_even(units(value), 1));
        lemma_nearest_unique(units(value), k, 1);
    }
}

/// A copy holds the first values in their order, as many as there is room for, and all of them where
/// there is room.
pub proof fn law_copies_are_prefixes<A>(values: Seq<A>, cap: usize)
    ensures
        cut(values, cap).is_prefix_of(values),
        cut(values, cap).len() == if values.len() < cap { values.len() } else { cap as nat },
        forall|k: int|
            0 <= k < values.len() && k < cap ==> #[trigger] cut(values, cap)[k] == values[k],
        values.len() <= cap ==> cut(values, cap) == values,
{
    assert(values.take(values.len() as int) =~= values);
}

} // verus!
