//! What the encodings of numbers mean: their sizes, their order, and the integers next to them.

use crate::binary64::{
    is_at_most, is_far, is_finite, is_less, is_nan, is_nearest_even, is_off_well, is_well_of,
    lemma_half, lemma_one, lemma_size_increases, lemma_size_positive, magnitude_of, size, unit,
    units, whole, Bits, HALF, HIDDEN, INFINITE, ONE, SIGN, ZERO,
};
use crate::connectome::{DRIVE_FLOOR, WEIGHT_FLOOR};
use vstd::arithmetic::div_mod::lemma_fundamental_div_mod;
use vstd::arithmetic::power2::{lemma2_to64, lemma_pow2_unfold, pow2};
use vstd::prelude::*;

verus! {

/// The constants are the encodings that they are named for, and 1 has `2^1074` units.
pub proof fn law_constants()
    ensures
        SIGN == 0x8000_0000_0000_0000,
        INFINITE == 0x7ff0_0000_0000_0000,
        HIDDEN == 0x0010_0000_0000_0000,
        ZERO == 0,
        HALF == 0x3fe0_0000_0000_0000,
        ONE == 0x3ff0_0000_0000_0000,
        DRIVE_FLOOR == 0x3cd2_03af_9ee7_5616,
        WEIGHT_FLOOR == 0x39b4_484b_feeb_c2a0,
        unit() == pow2(1074),
        units(ZERO) == 0,
        2 * units(HALF) == unit(),
        units(ONE) == unit(),
{
    lemma_one();
    lemma_half();
}

/// The lowest magnitudes stand for themselves, and from there on a magnitude with the next exponent
/// stands for twice as much.
pub proof fn law_sizes(m: int)
    requires
        0 <= m,
    ensures
        m <= 0x0020_0000_0000_0000 ==> size(m) == m,
        m >= 0x0010_0000_0000_0000 ==> size(m + 0x0010_0000_0000_0000) == 2 * size(m),
{
    lemma2_to64();
    let h = HIDDEN as int;
    let (e, f) = (m / h, m % h);
    if m < h {
        assert(e == 0 && f == m);
    } else if m < 2 * h {
        assert(e == 1 && f == m - h);
        assert((h + f) * pow2(0) == h + f) by (nonlinear_arith)
            requires
                pow2(0) == 1,
        ;
    } else if m == 2 * h {
        assert(e == 2 && f == 0);
        assert((h + f) * pow2(1) == 2 * h) by (nonlinear_arith)
            requires
                pow2(1) == 2,
                f == 0,
        ;
    }
    if m >= h {
        assert((m + h) / h == e + 1 && (m + h) % h == f);
        lemma_pow2_unfold(e as nat);
        let p = pow2((e - 1) as nat) as int;
        assert((h + f) * (2 * p) == 2 * ((h + f) * p)) by (nonlinear_arith);
    }
}

/// An encoding is a magnitude, with a sign bit where it is negative. A magnitude beyond infinity is
/// no number, and one before it is a finite one.
pub proof fn law_parts(b: Bits)
    ensures
        magnitude_of(b) < 0x8000_0000_0000_0000,
        b == magnitude_of(b) || b == magnitude_of(b) + 0x8000_0000_0000_0000,
        is_nan(b) <==> magnitude_of(b) > 0x7ff0_0000_0000_0000,
        is_finite(b) <==> magnitude_of(b) < 0x7ff0_0000_0000_0000,
        b == magnitude_of(b) ==> units(b) == size(b as int),
        b != magnitude_of(b) ==> units(b) == -size(magnitude_of(b) as int),
{
}

/// Numbers are ordered by their magnitudes, negative ones the other way round and before the others;
/// the two zeros are equal, and what is no number stands in no order.
pub proof fn law_order_of_encodings(a: Bits, b: Bits)
    ensures
        ({
            let top: u64 = 0x8000_0000_0000_0000;
            let ma = if a < top { a as int } else { a - top };
            let mb = if b < top { b as int } else { b - top };
            let numbers = ma <= 0x7ff0_0000_0000_0000 && mb <= 0x7ff0_0000_0000_0000;
            &&& is_less(a, b) <==> numbers && if a < top {
                b < top && ma < mb
            } else {
                if b < top {
                    ma > 0 || mb > 0
                } else {
                    ma > mb
                }
            }
            &&& is_at_most(a, b) <==> numbers && !is_less(b, a)
        }),
{
    let (ma, mb) = (magnitude_of(a) as int, magnitude_of(b) as int);
    lemma_size_positive(ma);
    lemma_size_positive(mb);
    if ma < mb {
        lemma_size_increases(ma, mb);
    } else if mb < ma {
        lemma_size_increases(mb, ma);
    }
}

/// The distance of two integers.
pub open spec fn apart(a: int, b: int) -> int {
    if a < b {
        b - a
    } else {
        a - b
    }
}

/// Two different multiples of the unit are a unit apart at least.
proof fn lemma_multiples(j: int, k: int)
    requires
        j != k,
    ensures
        apart(j * unit(), k * unit()) >= unit(),
{
    lemma_one();
    let u = unit();
    if j < k {
        assert(k * u >= j * u + u) by (nonlinear_arith)
            requires
                j + 1 <= k,
                u > 0,
        ;
    } else {
        assert(j * u >= k * u + u) by (nonlinear_arith)
            requires
                k + 1 <= j,
                u > 0,
        ;
    }
}

/// A well is an integer that no integer is nearer than; where another one is as near, the well is
/// the even one. A well of 0 has no sign, but a zero is its own well.
pub proof fn law_well_is_nearest(value: Bits, well: Bits)
    requires
        is_well_of(value, well),
    ensures
        is_finite(well),
        exists|k: int|
            {
                &&& units(well) == #[trigger] (k * unit())
                &&& forall|j: int|
                    apart(units(value), k * unit()) <= apart(
                        units(value),
                        #[trigger] (j * unit()),
                    )
                &&& forall|j: int|
                    j != k && apart(units(value), k * unit()) == apart(
                        units(value),
                        #[trigger] (j * unit()),
                    ) ==> k % 2 == 0
            },
        units(well) == 0 && units(value) == 0 ==> well == value,
        units(well) == 0 && units(value) != 0 ==> well == 0,
{
    let x = units(value);
    let k = choose|k: int| #[trigger] is_nearest_even(x, k) && units(well) == k * unit();
    assert forall|j: int| apart(x, k * unit()) <= apart(x, #[trigger] (j * unit())) by {
        if j != k {
            lemma_multiples(j, k);
        }
    }
    assert forall|j: int|
        j != k && apart(x, k * unit()) == apart(x, #[trigger] (j * unit())) implies k % 2 == 0 by {
        lemma_multiples(j, k);
    }
    assert(units(well) == k * unit());
}

/// A number is off its well where it is finite and equals no integer, so where it differs from its
/// well.
pub proof fn law_off_well(value: Bits, well: Bits)
    ensures
        is_off_well(value) <==> is_finite(value) && !exists|k: int|
            units(value) == #[trigger] (k * unit()),
        is_finite(value) && is_well_of(value, well) ==> (is_off_well(value) <==> units(value)
            != units(well)),
{
    if is_finite(value) && is_well_of(value, well) {
        law_well_is_nearest(value, well);
        let k = choose|k: int|
            {
                &&& units(well) == #[trigger] (k * unit())
                &&& forall|j: int|
                    apart(units(value), k * unit()) <= apart(
                        units(value),
                        #[trigger] (j * unit()),
                    )
            };
        if !is_off_well(value) {
            let l = choose|l: int| units(value) == #[trigger] (l * unit());
            assert(apart(units(value), k * unit()) <= apart(units(value), l * unit()));
        }
    }
}

/// A number rounds down to the largest count that is not larger; there is none beyond the largest,
/// and what is negative or no number counts as 0.
pub proof fn law_whole(b: Bits)
    ensures
        0 <= whole(b) <= usize::MAX,
        is_nan(b) || units(b) < 0 ==> whole(b) == 0,
        !is_nan(b) && units(b) >= 0 ==> whole(b) * unit() <= units(b),
        !is_nan(b) && units(b) >= 0 ==> units(b) < (whole(b) + 1) * unit() || whole(b)
            == usize::MAX,
{
    lemma_one();
    let (x, u) = (units(b), unit());
    if !is_nan(b) && x >= 0 {
        lemma_fundamental_div_mod(x, u);
        let q = x / u;
        assert(q >= 0 && q * u <= x < (q + 1) * u) by (nonlinear_arith)
            requires
                x == u * q + x % u,
                0 <= x % u < u,
                x >= 0,
                u > 0,
        ;
        if q > usize::MAX {
            assert(usize::MAX * u <= q * u) by (nonlinear_arith)
                requires
                    usize::MAX <= q,
                    u > 0,
            ;
        }
    }
}

/// A number between 0 and 1 is far from its well where it is further than that from every integer.
pub proof fn law_far(x: Bits, reach: Bits)
    requires
        is_at_most(ZERO, x),
        is_at_most(x, ONE),
    ensures
        is_far(x, reach) <==> !is_nan(reach) && forall|k: int|
            units(reach) < apart(units(x), #[trigger] (k * unit())),
{
    lemma_one();
    let (v, u) = (units(x), unit());
    assert(0 * u == 0 && 1 * u == u);
    if is_far(x, reach) {
        assert forall|k: int| units(reach) < apart(v, #[trigger] (k * unit())) by {
            if k != 0 {
                lemma_multiples(k, 0);
            }
            if k != 1 {
                lemma_multiples(k, 1);
            }
            if k < 0 {
                assert(k * u <= 0) by (nonlinear_arith)
                    requires
                        k < 0,
                        u > 0,
                ;
            } else {
                assert(k * u >= 0) by (nonlinear_arith)
                    requires
                        k >= 0,
                        u > 0,
                ;
            }
        }
    }
    if !is_nan(reach) && forall|k: int| units(reach) < apart(v, #[trigger] (k * unit())) {
        assert(units(reach) < apart(v, 0 * unit()));
        assert(units(reach) < apart(v, 1 * unit()));
    }
}

/// What is not a number is not far.
pub proof fn law_no_number_is_not_far(x: Bits, reach: Bits)
    ensures
        is_nan(x) || is_nan(reach) ==> !is_far(x, reach),
{
}

} // verus!
