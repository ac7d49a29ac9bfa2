//! Numbers by their binary64 encodings.
//!
//! A field value is held as the 64 bits of its binary64 encoding. What an encoding stands for is
//! an exact integer: the number of units of `2^-1074`, the smallest positive binary64 number.
//! Ordering, clipping and rounding are decided here on the bits and stated over those integers.

use vstd::arithmetic::div_mod::{
    lemma_basic_div, lemma_div_by_multiple, lemma_div_denominator, lemma_fundamental_div_mod,
};
use vstd::arithmetic::mul::{
    lemma_mul_inequality, lemma_mul_is_associative, lemma_mul_is_commutative,
    lemma_mul_strict_inequality,
};
use vstd::arithmetic::power2::{
    lemma2_to64, lemma2_to64_rest, lemma_pow2_adds, lemma_pow2_pos, lemma_pow2_strictly_increases,
    lemma_pow2_unfold, pow2,
};
use vstd::prelude::*;

verus! {

/// The 64 bits that encode a binary64 number.
pub type Bits = u64;

/// The sign bit.
pub const SIGN: u64 = 0x8000_0000_0000_0000;

/// The encoding of positive infinity; larger magnitudes are not numbers.
pub const INFINITE: u64 = 0x7ff0_0000_0000_0000;

/// The weight of the lowest exponent bit: one more than the largest fraction.
pub const HIDDEN: u64 = 0x0010_0000_0000_0000;

/// The encoding of 0.
pub const ZERO: u64 = 0;

/// The encoding of 1/2.
pub const HALF: u64 = 0x3fe0_0000_0000_0000;

/// The encoding of 1.
pub const ONE: u64 = 0x3ff0_0000_0000_0000;

/// `b` without its sign bit.
pub open spec fn magnitude_of(b: Bits) -> Bits {
    if b < SIGN {
        b
    } else {
        (b - SIGN) as u64
    }
}

/// Whether `b` encodes no number at all.
pub open spec fn is_nan(b: Bits) -> bool {
    magnitude_of(b) > INFINITE
}

/// Whether `b` encodes a number other than the two infinities.
pub open spec fn is_finite(b: Bits) -> bool {
    magnitude_of(b) < INFINITE
}

/// The number of units that the magnitude `m` stands for.
pub open spec fn size(m: int) -> int {
    let exponent = m / HIDDEN as int;
    let fraction = m % HIDDEN as int;
    if exponent == 0 {
        fraction
    } else {
        (HIDDEN + fraction) * pow2((exponent - 1) as nat)
    }
}

/// The value of `b` in units of `2^-1074`. The infinities stand beyond every finite value.
pub open spec fn units(b: Bits) -> int {
    if b < SIGN {
        size(b as int)
    } else {
        -size(b - SIGN)
    }
}

/// The number of units in 1.
pub open spec fn unit() -> int {
    pow2(1074) as int
}

/// Whether `a` and `b` are numbers and `a` is the smaller one.
pub open spec fn is_less(a: Bits, b: Bits) -> bool {
    !is_nan(a) && !is_nan(b) && units(a) < units(b)
}

/// Whether `a` and `b` are numbers and `a` is not the larger one.
pub open spec fn is_at_most(a: Bits, b: Bits) -> bool {
    !is_nan(a) && !is_nan(b) && units(a) <= units(b)
}

/// A larger magnitude stands for more units.
pub proof fn lemma_size_increases(a: int, b: int)
    requires
        0 <= a < b,
    ensures
        size(a) < size(b),
{
    let h = HIDDEN as int;
    let (ea, fa) = (a / h, a % h);
    let (eb, fb) = (b / h, b % h);
    assert(a == ea * h + fa && 0 <= fa < h);
    assert(b == eb * h + fb && 0 <= fb < h);
    if ea == eb {
        if ea != 0 {
            lemma_pow2_pos((ea - 1) as nat);
            lemma_mul_strict_inequality(h + fa, h + fb, pow2((ea - 1) as nat) as int);
        }
    } else {
        assert(ea < eb);
        lemma_pow2_pos((eb - 1) as nat);
        lemma_mul_inequality(h, h + fb, pow2((eb - 1) as nat) as int);
        if ea == 0 {
            lemma_mul_inequality(1, pow2((eb - 1) as nat) as int, h);
            lemma_mul_is_commutative(h, pow2((eb - 1) as nat) as int);
        } else {
            let p = pow2((ea - 1) as nat) as int;
            lemma_pow2_pos((ea - 1) as nat);
            lemma_pow2_unfold(ea as nat);
            lemma_mul_strict_inequality(h + fa, 2 * h, p);
            assert((2 * h) * p == h * (2 * p)) by (nonlinear_arith);
            if ea < eb - 1 {
                lemma_pow2_strictly_increases(ea as nat, (eb - 1) as nat);
            }
            lemma_mul_inequality(pow2(ea as nat) as int, pow2((eb - 1) as nat) as int, h);
            lemma_mul_is_commutative(h, pow2((eb - 1) as nat) as int);
            lemma_mul_is_commutative(h, pow2(ea as nat) as int);
        }
    }
}

/// No magnitude but 0 stands for 0 units.
pub proof fn lemma_size_positive(m: int)
    requires
        0 <= m,
    ensures
        size(m) >= 0,
        size(m) == 0 <==> m == 0,
{
    if m > 0 {
        lemma_size_increases(0, m);
    }
}

/// `b` with a positive sign.
pub fn magnitude(b: Bits) -> (m: Bits)
    ensures
        m == magnitude_of(b),
        is_nan(m) == is_nan(b),
        units(m) == if units(b) < 0 { -units(b) } else { units(b) },
{
    proof {
        lemma_size_positive(magnitude_of(b) as int);
    }
    if b < SIGN {
        b
    } else {
        b - SIGN
    }
}

/// Whether `a` is smaller than `b`; false where one of them is not a number.
pub fn less(a: Bits, b: Bits) -> (r: bool)
    ensures
        r == is_less(a, b),
{
    let ma = magnitude(a);
    let mb = magnitude(b);
    proof {
        lemma_size_positive(ma as int);
        lemma_size_positive(mb as int);
        if ma < mb {
            lemma_size_increases(ma as int, mb as int);
        } else if mb < ma {
            lemma_size_increases(mb as int, ma as int);
        }
    }
    if ma > INFINITE || mb > INFINITE {
        false
    } else if a < SIGN {
        b < SIGN && ma < mb
    } else if b < SIGN {
        ma > 0 || mb > 0
    } else {
        ma > mb
    }
}

/// Whether `a` is smaller than `b` or equal to it; false where one of them is not a number.
pub fn at_most(a: Bits, b: Bits) -> (r: bool)
    ensures
        r == is_at_most(a, b),
{
    if magnitude(a) > INFINITE || magnitude(b) > INFINITE {
        false
    } else {
        !less(b, a)
    }
}

/// One is `2^1074` units.
pub proof fn lemma_one()
    ensures
        units(ONE) == unit(),
        units(ZERO) == 0,
        unit() > 0,
        !is_nan(ONE),
        !is_nan(ZERO),
{
    lemma2_to64_rest();
    lemma_pow2_adds(52, 1022);
    lemma_pow2_pos(1074);
    assert(ONE as int / HIDDEN as int == 1023);
    assert(ONE as int % HIDDEN as int == 0);
}

/// `value` brought into the interval from 0 to 1.
pub open spec fn clipped(value: Bits) -> Bits {
    if is_less(value, ZERO) {
        ZERO
    } else if is_less(ONE, value) {
        ONE
    } else {
        value
    }
}

/// 0 for what is below 0, 1 for what is above 1, and anything else as it is.
pub fn clip01(value: Bits) -> (r: Bits)
    ensures
        r == clipped(value),
{
    if less(value, ZERO) {
        ZERO
    } else if less(ONE, value) {
        ONE
    } else {
        value
    }
}

/// Whether `k` is the integer nearest to `x` units; of two that are equally near, the even one.
pub open spec fn is_nearest_even(x: int, k: int) -> bool {
    let gap = if x < k * unit() { k * unit() - x } else { x - k * unit() };
    &&& 2 * gap <= unit()
    &&& 2 * gap == unit() ==> k % 2 == 0
}

/// Whether `well` encodes the integer nearest to the finite number `value`. A zero comes out
/// without a sign, unless `value` is a zero itself.
pub open spec fn is_well_of(value: Bits, well: Bits) -> bool {
    &&& is_finite(well)
    &&& exists|k: int| #[trigger] is_nearest_even(units(value), k) && units(well) == k * unit()
    &&& units(well) == 0 ==> well == if units(value) == 0 { value } else { ZERO }
}

/// Rounding a significand to a multiple of a power of two rounds what it stands for.
proof fn lemma_round_scaled(q: int, r: int, step: int, scale: int)
    requires
        0 <= q,
        0 <= r < step,
        scale > 0,
        step * scale == unit(),
    ensures
        2 * r <= step && (2 * r == step ==> q % 2 == 0) ==> is_nearest_even(
            (q * step + r) * scale,
            q,
        ),
        2 * r >= step && (2 * r == step ==> q % 2 == 1) ==> is_nearest_even(
            (q * step + r) * scale,
            q + 1,
        ),
        q * unit() == (q * step) * scale,
        (q + 1) * unit() == (q * step + step) * scale,
{
    let x = (q * step + r) * scale;
    assert(q * unit() == (q * step) * scale) by (nonlinear_arith)
        requires
            step * scale == unit(),
    ;
    assert((q + 1) * unit() == (q * step + step) * scale) by (nonlinear_arith)
        requires
            step * scale == unit(),
    ;
    assert(x == q * unit() + r * scale) by (nonlinear_arith)
        requires
            x == (q * step + r) * scale,
            q * unit() == (q * step) * scale,
    ;
    assert((q + 1) * unit() == q * unit() + unit()) by (nonlinear_arith);
    assert(0 <= r * scale) by (nonlinear_arith)
        requires
            0 <= r,
            scale > 0,
    ;
    assert(r * scale < step * scale) by (nonlinear_arith)
        requires
            r < step,
            scale > 0,
    ;
    if 2 * r < step {
        assert(2 * (r * scale) < step * scale) by (nonlinear_arith)
            requires
                2 * r < step,
                scale > 0,
        ;
    } else if 2 * r == step {
        assert(2 * (r * scale) == step * scale) by (nonlinear_arith)
            requires
                2 * r == step,
        ;
    } else {
        assert(2 * (r * scale) > step * scale) by (nonlinear_arith)
            requires
                2 * r > step,
                scale > 0,
        ;
    }
}

/// Rounding to the nearest integer does not depend on the sign.
proof fn lemma_nearest_mirrored(x: int, k: int)
    requires
        is_nearest_even(x, k),
    ensures
        is_nearest_even(-x, -k),
        (-k) * unit() == -(k * unit()),
{
    assert((-k) * unit() == -(k * unit())) by (nonlinear_arith);
}

/// The magnitude of the integer nearest to the finite magnitude `m`.
fn round_magnitude(m: Bits) -> (r: Bits)
    requires
        m < INFINITE,
    ensures
        r < INFINITE,
        exists|k: int| #[trigger] is_nearest_even(size(m as int), k) && size(r as int) == k * unit(),
{
    let exponent: u64 = m / HIDDEN;
    let fraction: u64 = m % HIDDEN;
    let significand: u64 = HIDDEN + fraction;
    assert(exponent < 2047);
    proof {
        lemma_one();
        lemma2_to64_rest();
        lemma2_to64();
    }
    if exponent >= 1075 {
        // No bit of the significand stands for less than 1.
        proof {
            let above = pow2((exponent - 1075) as nat) as int;
            let k = significand * above;
            lemma_pow2_adds((exponent - 1075) as nat, 1074);
            assert(significand * (above * unit()) == k * unit()) by (nonlinear_arith)
                requires
                    k == significand * above,
            ;
            assert(is_nearest_even(size(m as int), k));
        }
        m
    } else if exponent < 1022 {
        // Less than a half.
        proof {
            lemma_size_increases(m as int, HALF as int);
            lemma_pow2_adds(52, 1021);
            lemma_pow2_unfold(1074);
            lemma_size_positive(m as int);
            assert(HALF as int / HIDDEN as int == 1022);
            assert(HALF as int % HIDDEN as int == 0);
            assert(is_nearest_even(size(m as int), 0));
            assert(size(0) == 0 * unit());
        }
        ZERO
    } else if exponent == 1022 {
        // From a half up to 1.
        proof {
            lemma_pow2_adds(53, 1021);
            lemma_pow2_pos(1021);
            lemma_round_scaled(0, significand as int, pow2(53) as int, pow2(1021) as int);
            assert(size(0) == 0 * unit());
            assert(size(ONE as int) == 1 * unit());
        }
        if fraction == 0 {
            assert(is_nearest_even(size(m as int), 0));
            ZERO
        } else {
            assert(is_nearest_even(size(m as int), 1));
            ONE
        }
    } else {
        let low: u64 = 1075 - exponent;
        proof {
            if low < 52 {
                lemma_pow2_strictly_increases(low as nat, 52);
            }
            vstd::bits::lemma_u64_shl_is_mul(1, low);
            lemma_pow2_pos(low as nat);
        }
        let step: u64 = 1u64 << low;
        let q: u64 = significand / step;
        let rest: u64 = significand % step;
        let ghost scale = pow2((exponent - 1) as nat) as int;
        let ghost count = pow2((52 - low) as nat) as int;
        proof {
            lemma_pow2_pos((exponent - 1) as nat);
            lemma_pow2_adds(low as nat, (exponent - 1) as nat);
            lemma_pow2_adds((52 - low) as nat, low as nat);
            lemma_fundamental_div_mod(significand as int, step as int);
            lemma_mul_is_commutative(step as int, q as int);
            lemma_round_scaled(q as int, rest as int, step as int, scale);
            assert(q >= count && q + 1 <= 2 * count) by (nonlinear_arith)
                requires
                    significand == q * step + rest,
                    rest < step,
                    count * step <= significand < 2 * (count * step),
            ;
            assert(count * step <= q * step && q * step + step <= 2 * (count * step))
                by (nonlinear_arith)
                requires
                    count <= q,
                    q + 1 <= 2 * count,
                    step > 0,
            ;
        }
        if rest < step - rest || (rest == step - rest && q % 2 == 0) {
            let down: u64 = m - rest;
            proof {
                assert(down == exponent * HIDDEN + (fraction - rest));
                assert(down as int / HIDDEN as int == exponent);
                assert(down as int % HIDDEN as int == fraction - rest);
                assert(is_nearest_even(size(m as int), q as int));
            }
            down
        } else {
            let up: u64 = m - rest + step;
            proof {
                let carried = fraction - rest + step;
                assert(up == exponent * HIDDEN + carried);
                if carried < HIDDEN {
                    assert(up as int / HIDDEN as int == exponent);
                    assert(up as int % HIDDEN as int == carried);
                } else {
                    assert(up as int / HIDDEN as int == exponent + 1);
                    assert(up as int % HIDDEN as int == 0);
                    lemma_pow2_unfold(exponent as nat);
                    assert(HIDDEN * (2 * scale) == (2 * HIDDEN) * scale) by (nonlinear_arith);
                }
                assert(is_nearest_even(size(m as int), q + 1));
            }
            up
        }
    }
}

/// The integer nearest to a finite number, halves going to the even one; an infinity or what is
/// no number as it is.
pub fn py_round(value: Bits) -> (r: Bits)
    ensures
        is_finite(value) ==> is_well_of(value, r),
        !is_finite(value) ==> r == value,
{
    let m = magnitude(value);
    proof {
        lemma_one();
        assert(is_nearest_even(0, 0));
    }
    if m >= INFINITE || m == 0 {
        return value;
    }
    let r = round_magnitude(m);
    proof {
        lemma_size_positive(m as int);
        lemma_size_positive(r as int);
        let k = choose|k: int| #[trigger] is_nearest_even(size(m as int), k) && size(r as int) == k * unit();
        lemma_nearest_mirrored(size(m as int), k);
    }
    if value < SIGN || r == 0 {
        r
    } else {
        r + SIGN
    }
}

/// Whether `value` is a finite number and no integer.
pub open spec fn is_off_well(value: Bits) -> bool {
    is_finite(value) && forall|k: int| units(value) != #[trigger] (k * unit())
}

/// An integer is the only integer nearest to it, and no two integers are nearest to one number.
pub proof fn lemma_nearest_unique(x: int, k: int, l: int)
    requires
        is_nearest_even(x, k),
        is_nearest_even(x, l) || x == l * unit(),
    ensures
        k == l,
{
    lemma_one();
    let u = unit();
    if k < l {
        assert((k + 1) * u <= l * u) by (nonlinear_arith)
            requires
                k + 1 <= l,
                u > 0,
        ;
        assert((k + 1) * u == k * u + u) by (nonlinear_arith);
        if k + 1 < l {
            assert((k + 2) * u <= l * u) by (nonlinear_arith)
                requires
                    k + 2 <= l,
                    u > 0,
            ;
            assert((k + 2) * u == k * u + 2 * u) by (nonlinear_arith);
        }
    } else if l < k {
        assert((l + 1) * u <= k * u) by (nonlinear_arith)
            requires
                l + 1 <= k,
                u > 0,
        ;
        assert((l + 1) * u == l * u + u) by (nonlinear_arith);
        if l + 1 < k {
            assert((l + 2) * u <= k * u) by (nonlinear_arith)
                requires
                    l + 2 <= k,
                    u > 0,
            ;
            assert((l + 2) * u == l * u + 2 * u) by (nonlinear_arith);
        }
    }
}

/// Whether `value` differs from the integer that it rounds to.
pub fn off_well(value: Bits) -> (r: bool)
    ensures
        r == is_off_well(value),
{
    if magnitude(value) >= INFINITE {
        return false;
    }
    let well = py_round(value);
    proof {
        let k = choose|k: int| #[trigger] is_nearest_even(units(value), k) && units(well) == k * unit();
        assert forall|l: int| units(value) == #[trigger] (l * unit()) implies units(well) == units(
            value,
        ) by {
            lemma_nearest_unique(units(value), k, l);
        }
        if units(well) == units(value) {
            assert(units(value) == k * unit());
        }
    }
    less(value, well) || less(well, value)
}

/// The largest count that does not exceed `b`: 0 for what is negative or no number, and the largest
/// one of all for what is beyond it.
pub open spec fn whole(b: Bits) -> int {
    if is_nan(b) || units(b) < 0 {
        0
    } else if units(b) / unit() > usize::MAX {
        usize::MAX as int
    } else {
        units(b) / unit()
    }
}

/// `b` rounded down to a count.
pub fn floor_count(b: Bits) -> (r: usize)
    ensures
        r == whole(b),
{
    let m = magnitude(b);
    proof {
        lemma_one();
        lemma_size_positive(m as int);
    }
    if m > INFINITE || b >= SIGN {
        assert(units(b) == 0 ==> units(b) / unit() == 0) by {
            lemma_basic_div(0, unit());
        }
        return 0;
    }
    if b < ONE {
        proof {
            lemma_size_increases(b as int, ONE as int);
            lemma_basic_div(units(b), unit());
        }
        return 0;
    }
    let exponent: u64 = b / HIDDEN;
    let significand: u64 = HIDDEN + b % HIDDEN;
    let ghost scale = pow2((exponent - 1) as nat) as int;
    assert(units(b) == significand * scale);
    proof {
        lemma2_to64();
        lemma2_to64_rest();
        lemma_pow2_pos((exponent - 1) as nat);
    }
    let count: u64;
    if exponent < 1075 {
        let low: u64 = 1075 - exponent;
        proof {
            if low < 52 {
                lemma_pow2_strictly_increases(low as nat, 52);
            }
            vstd::bits::lemma_u64_shl_is_mul(1, low);
            lemma_pow2_pos(low as nat);
            lemma_pow2_adds((exponent - 1) as nat, low as nat);
            lemma_div_denominator(units(b), scale, pow2(low as nat) as int);
            lemma_div_by_multiple(significand as int, scale);
        }
        let step: u64 = 1u64 << low;
        count = significand / step;
    } else {
        let high: u64 = exponent - 1075;
        let ghost above = pow2(high as nat) as int;
        proof {
            lemma_pow2_adds(high as nat, 1074);
            lemma_mul_is_associative(significand as int, above, unit());
            lemma_div_by_multiple(significand * above, unit());
        }
        if high > 11 {
            proof {
                if high > 12 {
                    lemma_pow2_strictly_increases(12, high as nat);
                }
                assert(significand * above >= 0x10_0000_0000_0000 * 0x1000) by (nonlinear_arith)
                    requires
                        significand >= 0x10_0000_0000_0000,
                        above >= 0x1000,
                ;
            }
            return usize::MAX;
        }
        proof {
            if high < 11 {
                lemma_pow2_strictly_increases(high as nat, 11);
            }
            assert(significand * above <= 0x1f_ffff_ffff_ffff * 0x800) by (nonlinear_arith)
                requires
                    significand <= 0x1f_ffff_ffff_ffff,
                    above <= 0x800,
                    above >= 0,
            ;
            vstd::bits::lemma_u64_shl_is_mul(significand, high);
        }
        count = significand << high;
    }
    if count > usize::MAX as u64 {
        usize::MAX
    } else {
        count as usize
    }
}

/// How many units `x`, between 0 and 1, is away from its well.
pub open spec fn well_gap(x: Bits) -> int {
    if 2 * units(x) <= unit() {
        units(x)
    } else {
        unit() - units(x)
    }
}

/// Whether `x`, between 0 and 1, is further away from its well than `reach`.
pub open spec fn is_far(x: Bits, reach: Bits) -> bool {
    !is_nan(x) && !is_nan(reach) && units(reach) < well_gap(x)
}

/// One half is half of 1.
pub proof fn lemma_half()
    ensures
        2 * units(HALF) == unit(),
        !is_nan(HALF),
{
    lemma2_to64_rest();
    lemma_pow2_adds(52, 1021);
    lemma_pow2_unfold(1074);
    assert(HALF as int / HIDDEN as int == 1022);
    assert(HALF as int % HIDDEN as int == 0);
}

/// What is missing from `x`, between 1/2 and 1, to 1; binary64 has it exactly.
fn missing_to_one(x: Bits) -> (gap: Bits)
    requires
        HALF <= x <= ONE,
    ensures
        is_finite(gap),
        units(gap) == unit() - units(x),
{
    proof {
        lemma_one();
    }
    if x == ONE {
        return ZERO;
    }
    let short: u64 = HIDDEN - x % HIDDEN;
    let mut significand: u64 = short;
    let mut exponent: u64 = 1022;
    let ghost scale = pow2(1021) as int;
    proof {
        lemma2_to64();
        lemma2_to64_rest();
        assert(x as int / HIDDEN as int == 1022);
        assert(units(x) == (HIDDEN + x % HIDDEN) * scale);
        lemma_pow2_adds(53, 1021);
        assert(short * scale == unit() - units(x)) by (nonlinear_arith)
            requires
                short == HIDDEN - x % HIDDEN,
                units(x) == (HIDDEN + x % HIDDEN) * scale,
                unit() == 2 * HIDDEN * scale,
        ;
    }
    while significand < HIDDEN
        invariant
            exponent <= 1022,
            1 <= significand < 2 * HIDDEN,
            significand >= pow2((1022 - exponent) as nat),
            exponent >= 1,
            significand * pow2((exponent - 1) as nat) == unit() - units(x),
        decreases exponent,
    {
        proof {
            lemma2_to64();
            lemma2_to64_rest();
            let turns = (1022 - exponent) as nat;
            if turns >= 52 {
                if turns > 52 {
                    lemma_pow2_strictly_increases(52, turns);
                }
                assert(false);
            }
            lemma_pow2_unfold(turns + 1);
            lemma_pow2_unfold((exponent - 1) as nat);
            let below = pow2((exponent - 2) as nat) as int;
            assert((2 * significand) * below == significand * (2 * below)) by (nonlinear_arith);
        }
        significand = significand * 2;
        exponent = exponent - 1;
    }
    let gap: u64 = exponent * HIDDEN + (significand - HIDDEN);
    assert(gap as int / HIDDEN as int == exponent);
    assert(gap as int % HIDDEN as int == significand - HIDDEN);
    gap
}

/// Whether `x`, between 0 and 1, is further away from its well than `reach`; false where one of
/// them is not a number.
pub fn far_from_well(x: Bits, reach: Bits) -> (r: bool)
    requires
        clipped(x) == x,
    ensures
        r == is_far(x, reach),
{
    proof {
        lemma_one();
        lemma_half();
    }
    if magnitude(x) > INFINITE {
        false
    } else if at_most(x, HALF) {
        less(reach, x)
    } else {
        proof {
            lemma_size_positive(magnitude_of(x) as int);
            if x < HALF {
                lemma_size_increases(x as int, HALF as int);
            } else if x > ONE && x < SIGN {
                lemma_size_increases(ONE as int, x as int);
            }
        }
        less(reach, missing_to_one(x))
    }
}

} // verus!
