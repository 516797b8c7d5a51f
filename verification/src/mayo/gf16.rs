//! The field of sixteen elements, as nibbles modulo `x^4 + x + 1`.
use vstd::prelude::*;

verus! {

/// A nibble times `x`.
pub open spec fn times_x(a: u8) -> u8 {
    if a & 8 == 0 {
        a << 1
    } else {
        (a << 1) ^ 0x13
    }
}

/// A nibble when a bit is set, nothing otherwise.
pub open spec fn when_set(bit: u8, a: u8) -> u8 {
    if bit == 0 {
        0
    } else {
        a
    }
}

/// Product of two nibbles: the sum of `b * x^i` over the bits `i` of `a`.
pub open spec fn product(a: u8, b: u8) -> u8 {
    when_set(a & 1, b) ^ when_set(a & 2, times_x(b)) ^ when_set(a & 4, times_x(times_x(b)))
        ^ when_set(a & 8, times_x(times_x(times_x(b))))
}

/// Multiplies the low nibbles of two bytes.
pub fn mul_gf16(a: u8, b: u8) -> (c: u8)
    ensures
        c == product(a & 0x0f, b & 0x0f),
        c < 16,
{
    let low_a: u8 = a & 0x0f;
    let low_b: u8 = b & 0x0f;
    let p: u8 = (low_a & 1).wrapping_mul(low_b) ^ (low_a & 2).wrapping_mul(low_b) ^ (low_a
        & 4).wrapping_mul(low_b) ^ (low_a & 8).wrapping_mul(low_b);
    let top: u8 = p & 0xf0;
    let c: u8 = (p ^ (top >> 4) ^ (top >> 3)) & 0x0f;
    proof {
        lemma_partial_products(low_a, b);
        lemma_reduction(a, b);
    }
    c
}

/// A bit times a nibble does not overflow a byte.
proof fn lemma_partial_products(a: u8, b: u8)
    ensures
        (a & 1) * (b & 0x0f) <= 255,
        (a & 2) * (b & 0x0f) <= 255,
        (a & 4) * (b & 0x0f) <= 255,
        (a & 8) * (b & 0x0f) <= 255,
{
    assert((a & 1) * (b & 0x0f) <= 255 && (a & 2) * (b & 0x0f) <= 255 && (a & 4) * (b & 0x0f) <= 255
        && (a & 8) * (b & 0x0f) <= 255) by (bit_vector);
}

/// Reducing the carryless product gives the product of the field.
proof fn lemma_reduction(a: u8, b: u8)
    ensures
        ({
            let low_a = a & 0x0f;
            let low_b = b & 0x0f;
            let p = (((low_a & 1) * low_b) as u8) ^ (((low_a & 2) * low_b) as u8) ^ (((low_a & 4)
                * low_b) as u8) ^ (((low_a & 8) * low_b) as u8);
            let top = p & 0xf0;
            let c = (p ^ (top >> 4) ^ (top >> 3)) & 0x0f;
            c == product(low_a, low_b) && c < 16
        }),
{
    assert({
        let low_a = a & 0x0f;
        let low_b = b & 0x0f;
        let p = (((low_a & 1) * low_b) as u8) ^ (((low_a & 2) * low_b) as u8) ^ (((low_a & 4)
            * low_b) as u8) ^ (((low_a & 8) * low_b) as u8);
        let top = p & 0xf0;
        let c = (p ^ (top >> 4) ^ (top >> 3)) & 0x0f;
        c == product(low_a, low_b) && c < 16
    }) by (bit_vector);
}

/// Nibbles under exclusive or and `product` are a commutative ring with one, in which every
/// nibble but zero has an inverse: its fourteenth power.
pub proof fn law_field(a: u8, b: u8, c: u8)
    requires
        a < 16,
        b < 16,
        c < 16,
    ensures
        product(a, b) < 16,
        product(a, b) == product(b, a),
        product(a, product(b, c)) == product(product(a, b), c),
        product(a, b ^ c) == product(a, b) ^ product(a, c),
        product(1, a) == a,
        product(a, 1) == a,
        product(0, a) == 0,
        a != 0 ==> product(a, inverse(a)) == 1,
{
    assert(product(a, b) < 16 && product(a, b) == product(b, a) && product(a, b ^ c) == product(
        a,
        b,
    ) ^ product(a, c) && product(1, a) == a && product(a, 1) == a && product(0, a) == 0)
        by (bit_vector)
        requires
            a < 16,
            b < 16,
            c < 16,
    ;
    let ab = product(a, b);
    let bc = product(b, c);
    assert(product(a, bc) == product(ab, c)) by (bit_vector)
        requires
            a < 16,
            b < 16,
            c < 16,
            ab == product(a, b),
            bc == product(b, c),
    ;
    let square = product(a, a);
    let fourth = product(square, square);
    let eighth = product(fourth, fourth);
    let twelfth = product(eighth, fourth);
    let last = product(twelfth, square);
    assert(a != 0 ==> product(a, last) == 1) by (bit_vector)
        requires
            a < 16,
            square == product(a, a),
            fourth == product(square, square),
            eighth == product(fourth, fourth),
            twelfth == product(eighth, fourth),
            last == product(twelfth, square),
    ;
}

/// The fourteenth power of a nibble.
pub open spec fn inverse(a: u8) -> u8 {
    let square = product(a, a);
    let fourth = product(square, square);
    let eighth = product(fourth, fourth);
    product(product(eighth, fourth), square)
}

} // verus!
