//! Unbiased mapping of one raw draw onto a bounded range, after Lemire.
//!
//! A raw draw `v` below `modulus` is multiplied with the size of the range.
//! The high part of the product is a candidate offset into the range; the
//! low part tells whether the draw keeps the candidates evenly spread. A
//! draw whose low part is below `modulus % range` has to be replaced by a
//! fresh one.
use vstd::arithmetic::div_mod::{lemma_fundamental_div_mod, lemma_mod_multiples_vanish};
use vstd::prelude::*;

verus! {

/// The number of values of a 64-bit integer.
pub open spec fn width_64() -> int {
    0x1_0000_0000_0000_0000
}

/// The candidate offset of a draw: the high part of `v * range`.
pub open spec fn scaled(v: int, range: int, modulus: int) -> int {
    (v * range) / modulus
}

/// Whether a draw is kept: the low part of `v * range` is not below the
/// rejection threshold `modulus % range`.
pub open spec fn unbiased(v: int, range: int, modulus: int) -> bool {
    (v * range) % modulus >= modulus % range
}

/// A raw value read as a two's complement number of the same width.
pub open spec fn as_signed(v: int, modulus: int) -> int {
    if 2 * v >= modulus {
        v - modulus
    } else {
        v
    }
}

/// What one draw `v` yields for the range `lower..=upper` of an integer
/// type with `modulus` values: the candidate, and whether it is kept. The
/// full range of the type takes the draw as it is, read as a number of the
/// type, and keeps it always.
pub open spec fn spec_sample(v: int, lower: int, upper: int, modulus: int) -> (int, bool) {
    let range = upper - lower + 1;
    if range == modulus {
        (if lower < 0 {
            as_signed(v, modulus)
        } else {
            v
        }, true)
    } else {
        (lower + scaled(v, range, modulus), unbiased(v, range, modulus))
    }
}

/// The candidate offset of a draw lies within the range.
pub proof fn lemma_scaled_bounds(v: int, range: int, modulus: int)
    requires
        0 <= v < modulus,
        0 < range,
    ensures
        0 <= scaled(v, range, modulus) < range,
        v * range == scaled(v, range, modulus) * modulus + (v * range) % modulus,
        0 <= (v * range) % modulus < modulus,
{
    let product = v * range;
    assert(0 <= product < modulus * range) by (nonlinear_arith)
        requires
            0 <= v < modulus,
            0 < range,
            product == v * range,
    ;
    lemma_fundamental_div_mod(product, modulus);
    let q = product / modulus;
    assert(modulus * q == q * modulus) by (nonlinear_arith);
    if q >= range {
        assert(q * modulus >= range * modulus) by (nonlinear_arith)
            requires
                q >= range,
                modulus > 0,
        ;
        assert(range * modulus == modulus * range) by (nonlinear_arith);
    }
    if q < 0 {
        assert(q * modulus <= -modulus) by (nonlinear_arith)
            requires
                q <= -1,
                modulus > 0,
        ;
    }
}

/// The rejection threshold can be computed within the width of the type:
/// `(modulus - range) % range` equals `modulus % range`.
pub proof fn lemma_threshold(range: int, modulus: int)
    requires
        0 < range,
    ensures
        (modulus - range) % range == modulus % range,
{
    lemma_mod_multiples_vanish(-1, modulus, range);
    assert(range * (-1) + modulus == modulus - range);
}

/// Range containment: whatever the draw, the candidate lies within
/// `lower..=upper`. The range may be as wide as the type only where it is
/// the range of the type: from zero for an unsigned type, from minus half
/// the modulus for a signed one.
pub proof fn lemma_sample_in_range(v: int, lower: int, upper: int, modulus: int)
    requires
        0 <= v < modulus,
        lower <= upper,
        upper - lower < modulus,
        lower == 0 || 2 * lower == -modulus || upper - lower + 1 < modulus,
    ensures
        lower <= spec_sample(v, lower, upper, modulus).0 <= upper,
{
    let range = upper - lower + 1;
    if range != modulus {
        lemma_scaled_bounds(v, range, modulus);
    }
}

/// The draws that are kept and lead to the offset `target`.
pub open spec fn draws_for(target: int, range: int, modulus: int) -> Set<int> {
    Set::new(
        |v: int|
            0 <= v < modulus && unbiased(v, range, modulus) && scaled(v, range, modulus)
                == target,
    )
}

/// A draw is kept and leads to `target` exactly when its product with the
/// range falls into the upper part of the window of `target`: from the
/// rejection threshold on.
proof fn lemma_window(v: int, target: int, range: int, modulus: int)
    requires
        0 < range <= modulus,
        0 <= target < range,
    ensures
        draws_for(target, range, modulus).contains(v) <==> target * modulus + modulus % range <= v
            * range < (target + 1) * modulus,
{
    let product = v * range;
    let threshold = modulus % range;
    assert((target + 1) * modulus == target * modulus + modulus) by (nonlinear_arith);
    if 0 <= v < modulus && unbiased(v, range, modulus) && scaled(v, range, modulus) == target {
        lemma_scaled_bounds(v, range, modulus);
    }
    if target * modulus + threshold <= product < (target + 1) * modulus {
        assert(product == target * modulus + (product - target * modulus));
        vstd::arithmetic::div_mod::lemma_fundamental_div_mod_converse(
            product,
            modulus,
            target,
            product - target * modulus,
        );
        assert(target * modulus >= 0) by (nonlinear_arith)
            requires
                target >= 0,
                modulus > 0,
        ;
        if v < 0 {
            assert(v * range < 0) by (nonlinear_arith)
                requires
                    v < 0,
                    range > 0,
            ;
        }
        if v >= modulus {
            assert(v * range >= modulus * range) by (nonlinear_arith)
                requires
                    v >= modulus,
                    range > 0,
            ;
            assert((target + 1) * modulus <= range * modulus) by (nonlinear_arith)
                requires
                    target + 1 <= range,
                    modulus > 0,
            ;
            assert(range * modulus == modulus * range) by (nonlinear_arith);
        }
    }
}

/// The multiples of `range` that are at least `floor` are those of the
/// numbers from `floor` divided by `range`, rounded up.
proof fn lemma_multiples_from(v: int, floor: int, range: int)
    requires
        0 < range,
    ensures
        floor <= v * range <==> (floor + range - 1) / range <= v,
{
    let first = (floor + range - 1) / range;
    lemma_fundamental_div_mod(floor + range - 1, range);
    assert(range * first == first * range) by (nonlinear_arith);
    if first <= v {
        assert(first * range <= v * range) by (nonlinear_arith)
            requires
                first <= v,
                range > 0,
        ;
    } else {
        assert(v * range <= (first - 1) * range) by (nonlinear_arith)
            requires
                v <= first - 1,
                range > 0,
        ;
        assert((first - 1) * range == first * range - range) by (nonlinear_arith);
    }
}

/// No value of the range is favoured: every offset is reached by the same
/// number of kept draws, which is `modulus / range`. The draws below the
/// threshold are exactly the surplus that would make some offsets more
/// likely than others.
pub proof fn lemma_every_offset_equally_often(target: int, range: int, modulus: int)
    requires
        0 < range <= modulus,
        0 <= target < range,
    ensures
        draws_for(target, range, modulus).finite(),
        draws_for(target, range, modulus).len() == modulus / range,
{
    let share = modulus / range;
    let floor = target * modulus + modulus % range;
    let first = (floor + range - 1) / range;
    lemma_fundamental_div_mod(modulus, range);
    assert(range * share == share * range) by (nonlinear_arith);
    assert((target + 1) * modulus == target * modulus + modulus) by (nonlinear_arith);
    assert((target + 1) * modulus == floor + share * range);
    assert(share >= 0) by {
        if share < 0 {
            assert(share * range <= -range) by (nonlinear_arith)
                requires
                    share <= -1,
                    range > 0,
            ;
        }
    }
    assert forall|v: int|
        draws_for(target, range, modulus).contains(v)
            <==> vstd::set_lib::set_int_range(first, first + share).contains(v) by {
        lemma_window(v, target, range, modulus);
        lemma_multiples_from(v, floor, range);
        lemma_multiples_from(v - share, floor, range);
        assert((v - share) * range == v * range - share * range) by (nonlinear_arith);
    }
    assert(draws_for(target, range, modulus) =~= vstd::set_lib::set_int_range(
        first,
        first + share,
    ));
    vstd::set_lib::lemma_int_range(first, first + share);
}

/// The full range of a type takes the raw draw as it is and never rejects.
pub proof fn lemma_sample_full_width(v: int, lower: int, modulus: int)
    requires
        0 <= v < modulus,
    ensures
        spec_sample(v, lower, lower + modulus - 1, modulus).1,
        lower >= 0 ==> spec_sample(v, lower, lower + modulus - 1, modulus).0 == v,
        lower < 0 ==> spec_sample(v, lower, lower + modulus - 1, modulus).0 == as_signed(
            v,
            modulus,
        ),
{
}

/// The number of values of a 128-bit integer.
pub open spec fn width_128() -> int {
    0x1_0000_0000_0000_0000_0000_0000_0000_0000int
}

/// The product of two 64-bit halves fits in 128 bits.
proof fn lemma_half_product(x: int, y: int)
    requires
        0 <= x < 0x1_0000_0000_0000_0000,
        0 <= y < 0x1_0000_0000_0000_0000,
    ensures
        0 <= x * y <= 0xffff_ffff_ffff_ffff * 0xffff_ffff_ffff_ffff,
{
    assert(0 <= x * y <= 0xffff_ffff_ffff_ffff * 0xffff_ffff_ffff_ffff) by (nonlinear_arith)
        requires
            0 <= x <= 0xffff_ffff_ffff_ffff,
            0 <= y <= 0xffff_ffff_ffff_ffff,
    ;
}

/// A product of two numbers written in two digits each, digit by digit.
proof fn lemma_cross_products(ah: int, al: int, bh: int, bl: int, h: int)
    ensures
        (ah * h + al) * (bh * h + bl) == (ah * bh) * (h * h) + (ah * bl + al * bh) * h + al * bl,
{
    let (p, q) = (ah * h, bh * h);
    assert((p + al) * (q + bl) == p * q + p * bl + al * q + al * bl) by (nonlinear_arith);
    assert(p * q == (ah * bh) * (h * h)) by (nonlinear_arith)
        requires
            p == ah * h,
            q == bh * h,
    ;
    assert(p * bl == (ah * bl) * h) by (nonlinear_arith)
        requires
            p == ah * h,
    ;
    assert(al * q == (al * bh) * h) by (nonlinear_arith)
        requires
            q == bh * h,
    ;
    assert((ah * bl) * h + (al * bh) * h == (ah * bl + al * bh) * h) by (nonlinear_arith);
}

/// The digits of such a product regrouped: the carries of the two low
/// digits move up into the high part.
proof fn lemma_carries(
    top: int,
    xq: int,
    xr: int,
    yq: int,
    yr: int,
    zq: int,
    zr: int,
    mq: int,
    mr: int,
    h: int,
)
    requires
        xr + yr + zq == mq * h + mr,
    ensures
        top * (h * h) + ((xq * h + xr) + (yq * h + yr)) * h + (zq * h + zr) == (top + xq + yq
            + mq) * (h * h) + (mr * h + zr),
{
    let hh = h * h;
    assert(((xq * h + xr) + (yq * h + yr)) * h == xq * hh + yq * hh + (xr + yr) * h)
        by (nonlinear_arith)
        requires
            hh == h * h,
    ;
    assert((xr + yr) * h + zq * h == (xr + yr + zq) * h) by (nonlinear_arith);
    assert((mq * h + mr) * h == mq * hh + mr * h) by (nonlinear_arith)
        requires
            hh == h * h,
    ;
    assert(top * hh + xq * hh + yq * hh + mq * hh == (top + xq + yq + mq) * hh)
        by (nonlinear_arith);
}

/// Computes the high 128 bits of the 256-bit product of `a` and `b`, from
/// the four products of their 64-bit halves and the carries between them.
pub fn multiply_high_u128(a: u128, b: u128) -> (high: u128)
    ensures
        high == (a as int * b as int) / width_128(),
{
    let a_low = a % 0x1_0000_0000_0000_0000;
    let a_high = a / 0x1_0000_0000_0000_0000;

    let b_low = b % 0x1_0000_0000_0000_0000;
    let b_high = b / 0x1_0000_0000_0000_0000;

    proof {
        lemma_half_product(a_low as int, b_low as int);
        lemma_half_product(a_high as int, b_low as int);
        lemma_half_product(a_low as int, b_high as int);
        lemma_half_product(a_high as int, b_high as int);
    }

    let low_x_low = a_low * b_low;
    let carry = low_x_low / 0x1_0000_0000_0000_0000;

    let a_high_x_b_low = a_high * b_low;
    let a_low_x_b_high = a_low * b_high;

    let middle = a_high_x_b_low % 0x1_0000_0000_0000_0000 + a_low_x_b_high
        % 0x1_0000_0000_0000_0000 + carry;
    let carry = middle / 0x1_0000_0000_0000_0000;

    proof {
        let h: int = 0x1_0000_0000_0000_0000;
        let (al, ah, bl, bh) = (a_low as int, a_high as int, b_low as int, b_high as int);
        let (x, y, z) = (a_high_x_b_low as int, a_low_x_b_high as int, low_x_low as int);
        let total = ah * bh + x / h + y / h + middle as int / h;
        let rest = (middle as int % h) * h + z % h;
        lemma_cross_products(ah, al, bh, bl, h);
        lemma_carries(ah * bh, x / h, x % h, y / h, y % h, z / h, z % h, middle as int / h,
            middle as int % h, h);
        assert(0 <= rest < h * h) by (nonlinear_arith)
            requires
                rest == (middle as int % h) * h + z % h,
                0 <= middle as int % h < h,
                0 <= z % h < h,
        ;
        assert(h * h == width_128());
        vstd::arithmetic::div_mod::lemma_fundamental_div_mod_converse(
            a as int * b as int,
            width_128(),
            total,
            rest,
        );
        assert(0 <= a as int * b as int <= 0xffff_ffff_ffff_ffff_ffff_ffff_ffff_ffff
            * 0xffff_ffff_ffff_ffff_ffff_ffff_ffff_ffff) by (nonlinear_arith)
            requires
                0 <= a as int <= 0xffff_ffff_ffff_ffff_ffff_ffff_ffff_ffff,
                0 <= b as int <= 0xffff_ffff_ffff_ffff_ffff_ffff_ffff_ffff,
        ;
        assert(total < width_128());
    }

    a_high * b_high + a_high_x_b_low / 0x1_0000_0000_0000_0000 + a_low_x_b_high
        / 0x1_0000_0000_0000_0000 + carry
}



/// The number of values of a 8-bit integer.
pub open spec fn width_8() -> int {
    0x100
}

/// The number of values of a 16-bit integer.
pub open spec fn width_16() -> int {
    0x1_0000
}

/// The number of values of a 32-bit integer.
pub open spec fn width_32() -> int {
    0x1_0000_0000
}

/// Multiplies a raw draw with the size of a range: returns the high part of
/// the product, which is the candidate offset, and whether the draw is kept.
pub fn scale_u8(v: u8, range: u8) -> (scaled_draw: (u8, bool))
    requires
        range > 0,
    ensures
        scaled_draw.0 == scaled(v as int, range as int, width_8()),
        scaled_draw.1 == unbiased(v as int, range as int, width_8()),
        scaled_draw.0 < range,
{
    proof {
        lemma_scaled_bounds(v as int, range as int, width_8());
        lemma_threshold(range as int, width_8());
    }
    assert(v * range <= 0xff * 0xff) by (nonlinear_arith)
        requires
            0 <= v <= 0xff,
            0 <= range <= 0xff,
    ;
    let product: u16 = (v as u16) * (range as u16);
    let high = (product / 0x100) as u8;
    let low = (product % 0x100) as u8;
    let kept = if low < range {
        low >= (u8::MAX - range + 1) % range
    } else {
        true
    };
    (high, kept)
}

/// Multiplies a raw draw with the size of a range: returns the high part of
/// the product, which is the candidate offset, and whether the draw is kept.
pub fn scale_u16(v: u16, range: u16) -> (scaled_draw: (u16, bool))
    requires
        range > 0,
    ensures
        scaled_draw.0 == scaled(v as int, range as int, width_16()),
        scaled_draw.1 == unbiased(v as int, range as int, width_16()),
        scaled_draw.0 < range,
{
    proof {
        lemma_scaled_bounds(v as int, range as int, width_16());
        lemma_threshold(range as int, width_16());
    }
    assert(v * range <= 0xffff * 0xffff) by (nonlinear_arith)
        requires
            0 <= v <= 0xffff,
            0 <= range <= 0xffff,
    ;
    let product: u32 = (v as u32) * (range as u32);
    let high = (product / 0x1_0000) as u16;
    let low = (product % 0x1_0000) as u16;
    let kept = if low < range {
        low >= (u16::MAX - range + 1) % range
    } else {
        true
    };
    (high, kept)
}

/// Multiplies a raw draw with the size of a range: returns the high part of
/// the product, which is the candidate offset, and whether the draw is kept.
pub fn scale_u32(v: u32, range: u32) -> (scaled_draw: (u32, bool))
    requires
        range > 0,
    ensures
        scaled_draw.0 == scaled(v as int, range as int, width_32()),
        scaled_draw.1 == unbiased(v as int, range as int, width_32()),
        scaled_draw.0 < range,
{
    proof {
        lemma_scaled_bounds(v as int, range as int, width_32());
        lemma_threshold(range as int, width_32());
    }
    assert(v * range <= 0xffff_ffff * 0xffff_ffff) by (nonlinear_arith)
        requires
            0 <= v <= 0xffff_ffff,
            0 <= range <= 0xffff_ffff,
    ;
    let product: u64 = (v as u64) * (range as u64);
    let high = (product / 0x1_0000_0000) as u32;
    let low = (product % 0x1_0000_0000) as u32;
    let kept = if low < range {
        low >= (u32::MAX - range + 1) % range
    } else {
        true
    };
    (high, kept)
}

/// Multiplies a raw draw with the size of a range: returns the high part of
/// the product, which is the candidate offset, and whether the draw is kept.
pub fn scale_u64(v: u64, range: u64) -> (scaled_draw: (u64, bool))
    requires
        range > 0,
    ensures
        scaled_draw.0 == scaled(v as int, range as int, width_64()),
        scaled_draw.1 == unbiased(v as int, range as int, width_64()),
        scaled_draw.0 < range,
{
    proof {
        lemma_scaled_bounds(v as int, range as int, width_64());
        lemma_threshold(range as int, width_64());
    }
    assert(v * range <= 0xffff_ffff_ffff_ffff * 0xffff_ffff_ffff_ffff) by (nonlinear_arith)
        requires
            0 <= v <= 0xffff_ffff_ffff_ffff,
            0 <= range <= 0xffff_ffff_ffff_ffff,
    ;
    let product: u128 = (v as u128) * (range as u128);
    let high = (product / 0x1_0000_0000_0000_0000) as u64;
    let low = (product % 0x1_0000_0000_0000_0000) as u64;
    let kept = if low < range {
        low >= (u64::MAX - range + 1) % range
    } else {
        true
    };
    (high, kept)
}

/// Multiplies a raw draw with the size of a range: returns the high part of
/// the product, which is the candidate offset, and whether the draw is kept.
pub fn scale_u128(v: u128, range: u128) -> (scaled_draw: (u128, bool))
    requires
        range > 0,
    ensures
        scaled_draw.0 == scaled(v as int, range as int, width_128()),
        scaled_draw.1 == unbiased(v as int, range as int, width_128()),
        scaled_draw.0 < range,
{
    proof {
        lemma_scaled_bounds(v as int, range as int, width_128());
        lemma_threshold(range as int, width_128());
    }
    let high = multiply_high_u128(v, range);
    let low = v.wrapping_mul(range);
    let kept = if low < range {
        low >= (u128::MAX - range + 1) % range
    } else {
        true
    };
    (high, kept)
}

/// Reads a raw 8-bit value as a two's complement number.
pub fn signed_8(v: u8) -> (value: i8)
    ensures
        value == as_signed(v as int, width_8()),
{
    if v > i8::MAX as u8 {
        ((v - (i8::MAX as u8) - 1) as i8) + i8::MIN
    } else {
        v as i8
    }
}

/// Maps one raw draw onto `lower..=upper`: returns the candidate and
/// whether it is kept.
pub fn sample_u8(v: u8, lower: u8, upper: u8) -> (drawn: (u8, bool))
    requires
        lower <= upper,
    ensures
        drawn.0 == spec_sample(v as int, lower as int, upper as int, width_8()).0,
        drawn.1 == spec_sample(v as int, lower as int, upper as int, width_8()).1,
        lower <= drawn.0 <= upper,
{
    if lower == u8::MIN && upper == u8::MAX {
        return (v, true);
    }
    let (high, kept) = scale_u8(v, upper - lower + 1);
    (lower + high, kept)
}

/// Maps one raw draw onto `lower..=upper`: returns the candidate and
/// whether it is kept.
pub fn sample_i8(v: u8, lower: i8, upper: i8) -> (drawn: (i8, bool))
    requires
        lower <= upper,
    ensures
        drawn.0 == spec_sample(v as int, lower as int, upper as int, width_8()).0,
        drawn.1 == spec_sample(v as int, lower as int, upper as int, width_8()).1,
        lower <= drawn.0 <= upper,
{
    if lower == i8::MIN && upper == i8::MAX {
        return (signed_8(v), true);
    }
    let range = ((upper as i16) - (lower as i16) + 1) as u8;
    let (high, kept) = scale_u8(v, range);
    (((lower as i16) + (high as i16)) as i8, kept)
}

/// Reads a raw 16-bit value as a two's complement number.
pub fn signed_16(v: u16) -> (value: i16)
    ensures
        value == as_signed(v as int, width_16()),
{
    if v > i16::MAX as u16 {
        ((v - (i16::MAX as u16) - 1) as i16) + i16::MIN
    } else {
        v as i16
    }
}

/// Maps one raw draw onto `lower..=upper`: returns the candidate and
/// whether it is kept.
pub fn sample_u16(v: u16, lower: u16, upper: u16) -> (drawn: (u16, bool))
    requires
        lower <= upper,
    ensures
        drawn.0 == spec_sample(v as int, lower as int, upper as int, width_16()).0,
        drawn.1 == spec_sample(v as int, lower as int, upper as int, width_16()).1,
        lower <= drawn.0 <= upper,
{
    if lower == u16::MIN && upper == u16::MAX {
        return (v, true);
    }
    let (high, kept) = scale_u16(v, upper - lower + 1);
    (lower + high, kept)
}

/// Maps one raw draw onto `lower..=upper`: returns the candidate and
/// whether it is kept.
pub fn sample_i16(v: u16, lower: i16, upper: i16) -> (drawn: (i16, bool))
    requires
        lower <= upper,
    ensures
        drawn.0 == spec_sample(v as int, lower as int, upper as int, width_16()).0,
        drawn.1 == spec_sample(v as int, lower as int, upper as int, width_16()).1,
        lower <= drawn.0 <= upper,
{
    if lower == i16::MIN && upper == i16::MAX {
        return (signed_16(v), true);
    }
    let range = ((upper as i32) - (lower as i32) + 1) as u16;
    let (high, kept) = scale_u16(v, range);
    (((lower as i32) + (high as i32)) as i16, kept)
}

/// Reads a raw 32-bit value as a two's complement number.
pub fn signed_32(v: u32) -> (value: i32)
    ensures
        value == as_signed(v as int, width_32()),
{
    if v > i32::MAX as u32 {
        ((v - (i32::MAX as u32) - 1) as i32) + i32::MIN
    } else {
        v as i32
    }
}

/// Maps one raw draw onto `lower..=upper`: returns the candidate and
/// whether it is kept.
pub fn sample_u32(v: u32, lower: u32, upper: u32) -> (drawn: (u32, bool))
    requires
        lower <= upper,
    ensures
        drawn.0 == spec_sample(v as int, lower as int, upper as int, width_32()).0,
        drawn.1 == spec_sample(v as int, lower as int, upper as int, width_32()).1,
        lower <= drawn.0 <= upper,
{
    if lower == u32::MIN && upper == u32::MAX {
        return (v, true);
    }
    let (high, kept) = scale_u32(v, upper - lower + 1);
    (lower + high, kept)
}

/// Maps one raw draw onto `lower..=upper`: returns the candidate and
/// whether it is kept.
pub fn sample_i32(v: u32, lower: i32, upper: i32) -> (drawn: (i32, bool))
    requires
        lower <= upper,
    ensures
        drawn.0 == spec_sample(v as int, lower as int, upper as int, width_32()).0,
        drawn.1 == spec_sample(v as int, lower as int, upper as int, width_32()).1,
        lower <= drawn.0 <= upper,
{
    if lower == i32::MIN && upper == i32::MAX {
        return (signed_32(v), true);
    }
    let range = ((upper as i64) - (lower as i64) + 1) as u32;
    let (high, kept) = scale_u32(v, range);
    (((lower as i64) + (high as i64)) as i32, kept)
}

/// Reads a raw 64-bit value as a two's complement number.
pub fn signed_64(v: u64) -> (value: i64)
    ensures
        value == as_signed(v as int, width_64()),
{
    if v > i64::MAX as u64 {
        ((v - (i64::MAX as u64) - 1) as i64) + i64::MIN
    } else {
        v as i64
    }
}

/// Maps one raw draw onto `lower..=upper`: returns the candidate and
/// whether it is kept.
pub fn sample_u64(v: u64, lower: u64, upper: u64) -> (drawn: (u64, bool))
    requires
        lower <= upper,
    ensures
        drawn.0 == spec_sample(v as int, lower as int, upper as int, width_64()).0,
        drawn.1 == spec_sample(v as int, lower as int, upper as int, width_64()).1,
        lower <= drawn.0 <= upper,
{
    if lower == u64::MIN && upper == u64::MAX {
        return (v, true);
    }
    let (high, kept) = scale_u64(v, upper - lower + 1);
    (lower + high, kept)
}

/// Maps one raw draw onto `lower..=upper`: returns the candidate and
/// whether it is kept.
pub fn sample_i64(v: u64, lower: i64, upper: i64) -> (drawn: (i64, bool))
    requires
        lower <= upper,
    ensures
        drawn.0 == spec_sample(v as int, lower as int, upper as int, width_64()).0,
        drawn.1 == spec_sample(v as int, lower as int, upper as int, width_64()).1,
        lower <= drawn.0 <= upper,
{
    if lower == i64::MIN && upper == i64::MAX {
        return (signed_64(v), true);
    }
    let range = ((upper as i128) - (lower as i128) + 1) as u64;
    let (high, kept) = scale_u64(v, range);
    (((lower as i128) + (high as i128)) as i64, kept)
}

/// Reads a raw 128-bit value as a two's complement number.
pub fn signed_128(v: u128) -> (value: i128)
    ensures
        value == as_signed(v as int, width_128()),
{
    if v > i128::MAX as u128 {
        ((v - (i128::MAX as u128) - 1) as i128) + i128::MIN
    } else {
        v as i128
    }
}

/// Maps one raw draw onto `lower..=upper`: returns the candidate and
/// whether it is kept.
pub fn sample_u128(v: u128, lower: u128, upper: u128) -> (drawn: (u128, bool))
    requires
        lower <= upper,
    ensures
        drawn.0 == spec_sample(v as int, lower as int, upper as int, width_128()).0,
        drawn.1 == spec_sample(v as int, lower as int, upper as int, width_128()).1,
        lower <= drawn.0 <= upper,
{
    if lower == u128::MIN && upper == u128::MAX {
        return (v, true);
    }
    let (high, kept) = scale_u128(v, upper - lower + 1);
    (lower + high, kept)
}

/// Maps one raw draw onto `lower..=upper`: returns the candidate and
/// whether it is kept.
pub fn sample_i128(v: u128, lower: i128, upper: i128) -> (drawn: (i128, bool))
    requires
        lower <= upper,
    ensures
        drawn.0 == spec_sample(v as int, lower as int, upper as int, width_128()).0,
        drawn.1 == spec_sample(v as int, lower as int, upper as int, width_128()).1,
        lower <= drawn.0 <= upper,
{
    if lower == i128::MIN && upper == i128::MAX {
        return (signed_128(v), true);
    }
    // No wider type holds the size of the range: it is put together from
    // the parts below and above zero.
    let below: u128 = if lower < 0 {
        ((-(lower + 1)) as u128) + 1
    } else {
        0
    };
    let range: u128 = if lower < 0 && upper >= 0 {
        (upper as u128) + below + 1
    } else {
        ((upper - lower) as u128) + 1
    };
    let (high, kept) = scale_u128(v, range);
    let value = if lower >= 0 {
        ((lower as u128) + high) as i128
    } else if high < below {
        lower + (high as i128)
    } else {
        (high - below) as i128
    };
    (value, kept)
}

/// Maps one raw draw onto `lower..=upper`, computed in 64 bits whatever
/// the width of `usize`: returns the candidate and whether it is kept.
pub fn sample_usize(v: u64, lower: usize, upper: usize) -> (drawn: (usize, bool))
    requires
        lower <= upper,
    ensures
        drawn.0 == spec_sample(v as int, lower as int, upper as int, width_64()).0,
        drawn.1 == spec_sample(v as int, lower as int, upper as int, width_64()).1,
        lower <= drawn.0 <= upper,
{
    let (value, kept) = sample_u64(v, lower as u64, upper as u64);
    (value as usize, kept)
}

/// Maps one raw draw onto `lower..=upper`, computed in 64 bits whatever
/// the width of `isize`: returns the candidate and whether it is kept.
pub fn sample_isize(v: u64, lower: isize, upper: isize) -> (drawn: (isize, bool))
    requires
        lower <= upper,
    ensures
        drawn.0 == spec_sample(v as int, lower as int, upper as int, width_64()).0,
        drawn.1 == spec_sample(v as int, lower as int, upper as int, width_64()).1,
        lower <= drawn.0 <= upper,
{
    let (value, kept) = sample_i64(v, lower as i64, upper as i64);
    (value as isize, kept)
}

} // verus!
