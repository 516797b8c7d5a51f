//! What the public map of a key is: quadratic forms with the key's entries as coefficients,
//! combined by powers of `z`.
use vstd::prelude::*;

use crate::mayo::gf16;
use crate::mayo::lanes::PkLanes;
use crate::mayo::verify;
use crate::mayo::verify::Blocks;

verus! {

/// One value among zeros.
pub open spec fn unit(len: nat, at: int, value: u8) -> Seq<u8> {
    Seq::new(
        len,
        |i: int|
            if i == at {
                value
            } else {
                0
            },
    )
}

/// Two vectors of one length, added up value by value.
pub open spec fn sum(a: Seq<u8>, b: Seq<u8>) -> Seq<u8> {
    Seq::new(a.len(), |i: int| a[i] ^ b[i])
}

/// A vector times a power of `z`.
pub open spec fn shifted(a: Seq<u8>, power: nat) -> Seq<u8>
    decreases power,
{
    if power == 0 {
        a
    } else {
        verify::times_z(shifted(a, (power - 1) as nat))
    }
}

/// What two blocks contribute: the forms in both orders, or in one for a block with itself.
pub open spec fn mixed(lanes: &PkLanes, s: Blocks, i: int, j: int) -> Seq<u8> {
    if i == j {
        verify::form(lanes, s@[i]@, s@[i]@, 81)
    } else {
        verify::plus(
            verify::form(lanes, s@[i]@, s@[j]@, 81),
            verify::form(lanes, s@[j]@, s@[i]@, 81),
        )
    }
}

/// Multiplying by `x` doubles a nibble and takes `x^4 + x + 1` off when it overflows; with the
/// laws of a field, that fixes every product.
pub proof fn law_field_is_modulo_the_polynomial(a: u8)
    requires
        a < 16,
    ensures
        gf16::product(2, a) == if a < 8 {
            (2 * a) as u8
        } else {
            ((2 * a - 16) as u8) ^ 3
        },
{
    assert(gf16::product(2, a) == if a < 8 {
        (2 * a) as u8
    } else {
        ((2 * a - 16) as u8) ^ 3
    }) by (bit_vector)
        requires
            a < 16,
    ;
}

/// Products of low nibbles go through sums, and vanish with a zero.
proof fn lemma_times(x: u8, y: u8, a: u8)
    ensures
        verify::times(x ^ y, a) == verify::times(x, a) ^ verify::times(y, a),
        verify::times(a, x ^ y) == verify::times(a, x) ^ verify::times(a, y),
        verify::times(0, a) == 0,
        verify::times(a, 0) == 0,
{
    let low_x = x & 0x0f;
    let low_y = y & 0x0f;
    let low_a = a & 0x0f;
    let low = (x ^ y) & 0x0f;
    assert(low_x < 16 && low_y < 16 && low_a < 16 && low == low_x ^ low_y && low < 16)
        by (bit_vector)
        requires
            low_x == x & 0x0f,
            low_y == y & 0x0f,
            low_a == a & 0x0f,
            low == (x ^ y) & 0x0f,
    ;
    assert(0u8 & 0x0f == 0) by (bit_vector);
    gf16::law_field(low_a, low_x, low_y);
    gf16::law_field(low_x, low_a, 0);
    gf16::law_field(low_y, low_a, 0);
    gf16::law_field(low, low_a, 0);
    gf16::law_field(low_a, 0, 0);
}

/// Sums of bytes may be taken in any order.
proof fn lemma_xor(a: u8, b: u8, c: u8, d: u8)
    ensures
        (a ^ b) ^ c == a ^ (b ^ c),
        a ^ b == b ^ a,
        a ^ 0 == a,
        0 ^ a == a,
        (a ^ b) ^ (c ^ d) == (a ^ c) ^ (b ^ d),
{
    assert((a ^ b) ^ c == a ^ (b ^ c) && a ^ b == b ^ a && a ^ 0 == a && 0 ^ a == a && (a ^ b) ^ (
    c ^ d) == (a ^ c) ^ (b ^ d)) by (bit_vector);
}

/// Vectors of the map may be added up in any grouping.
proof fn lemma_plus(a: Seq<u8>, b: Seq<u8>, c: Seq<u8>, d: Seq<u8>)
    ensures
        verify::plus(verify::plus(a, b), c) == verify::plus(a, verify::plus(b, c)),
        verify::plus(verify::plus(a, b), verify::plus(c, d)) == verify::plus(
            verify::plus(a, c),
            verify::plus(b, d),
        ),
        a.len() == 64 ==> verify::plus(verify::none(), a) == a,
        a.len() == 64 ==> verify::plus(a, verify::none()) == a,
{
    assert forall|l: int| 0 <= l < 64 implies (a[l] ^ b[l]) ^ c[l] == a[l] ^ (b[l] ^ c[l]) && (
    a[l] ^ b[l]) ^ (c[l] ^ d[l]) == (a[l] ^ c[l]) ^ (b[l] ^ d[l]) && a[l] ^ 0 == a[l] && 0 ^ a[l]
        == a[l] by {
        lemma_xor(a[l], b[l], c[l], d[l]);
    }
    assert(verify::plus(verify::plus(a, b), c) =~= verify::plus(a, verify::plus(b, c)));
    assert(verify::plus(verify::plus(a, b), verify::plus(c, d)) =~= verify::plus(
        verify::plus(a, c),
        verify::plus(b, d),
    ));
    if a.len() == 64 {
        assert(verify::plus(verify::none(), a) =~= a);
        assert(verify::plus(a, verify::none()) =~= a);
    }
}

/// Scaling goes through sums, on either side, and vanishes with zero.
proof fn lemma_scaled(x: u8, y: u8, a: Seq<u8>, b: Seq<u8>)
    ensures
        verify::scaled(x ^ y, a) == verify::plus(verify::scaled(x, a), verify::scaled(y, a)),
        verify::scaled(x, verify::plus(a, b)) == verify::plus(
            verify::scaled(x, a),
            verify::scaled(x, b),
        ),
        verify::scaled(0, a) == verify::none(),
        verify::scaled(x, verify::none()) == verify::none(),
{
    assert forall|l: int| 0 <= l < 64 implies verify::times(x ^ y, a[l]) == verify::times(x, a[l])
        ^ verify::times(y, a[l]) && verify::times(x, a[l] ^ b[l]) == verify::times(x, a[l])
        ^ verify::times(x, b[l]) && verify::times(0, a[l]) == 0 && verify::times(x, 0) == 0 by {
        lemma_times(x, y, a[l]);
        lemma_times(a[l], b[l], x);
    }
    assert(verify::scaled(x ^ y, a) =~= verify::plus(
        verify::scaled(x, a),
        verify::scaled(y, a),
    ));
    assert(verify::scaled(x, verify::plus(a, b)) =~= verify::plus(
        verify::scaled(x, a),
        verify::scaled(x, b),
    ));
    assert(verify::scaled(0, a) =~= verify::none());
    assert(verify::scaled(x, verify::none()) =~= verify::none());
}

proof fn lemma_rows_add(lanes: &PkLanes, s: Seq<u8>, t: Seq<u8>, j: int, upto: int)
    requires
        s.len() == 81,
        t.len() == 81,
        0 <= j,
        upto <= 81,
    ensures
        verify::row_sum(lanes, sum(s, t), j, upto) == verify::plus(
            verify::row_sum(lanes, s, j, upto),
            verify::row_sum(lanes, t, j, upto),
        ),
    decreases upto - j,
{
    if upto <= j {
        lemma_plus(verify::none(), verify::none(), verify::none(), verify::none());
    } else {
        lemma_rows_add(lanes, s, t, j, upto - 1);
        let entry = verify::coefficients(lanes, j, upto - 1);
        lemma_scaled(s[upto - 1], t[upto - 1], entry, entry);
        lemma_plus(
            verify::row_sum(lanes, s, j, upto - 1),
            verify::row_sum(lanes, t, j, upto - 1),
            verify::scaled(s[upto - 1], entry),
            verify::scaled(t[upto - 1], entry),
        );
    }
}

/// The forms are additive in each of the two blocks.
pub proof fn law_forms_are_bilinear(
    lanes: &PkLanes,
    a: Seq<u8>,
    b: Seq<u8>,
    c: Seq<u8>,
    upto: int,
)
    requires
        a.len() == 81,
        b.len() == 81,
        c.len() == 81,
        0 <= upto <= 81,
    ensures
        verify::form(lanes, sum(a, b), c, upto) == verify::plus(
            verify::form(lanes, a, c, upto),
            verify::form(lanes, b, c, upto),
        ),
        verify::form(lanes, c, sum(a, b), upto) == verify::plus(
            verify::form(lanes, c, a, upto),
            verify::form(lanes, c, b, upto),
        ),
    decreases upto,
{
    if upto <= 0 {
        lemma_plus(verify::none(), verify::none(), verify::none(), verify::none());
    } else {
        let j = upto - 1;
        law_forms_are_bilinear(lanes, a, b, c, j);
        let row_a = verify::row_sum(lanes, a, j, 81);
        let row_b = verify::row_sum(lanes, b, j, 81);
        let row_c = verify::row_sum(lanes, c, j, 81);
        lemma_scaled(a[j], b[j], row_c, row_c);
        lemma_plus(
            verify::form(lanes, a, c, j),
            verify::form(lanes, b, c, j),
            verify::scaled(a[j], row_c),
            verify::scaled(b[j], row_c),
        );
        lemma_rows_add(lanes, a, b, j, 81);
        lemma_scaled(c[j], c[j], row_a, row_b);
        lemma_plus(
            verify::form(lanes, c, a, j),
            verify::form(lanes, c, b, j),
            verify::scaled(c[j], row_a),
            verify::scaled(c[j], row_b),
        );
    }
}

proof fn lemma_unit_row(lanes: &PkLanes, r: int, y: u8, j: int, upto: int)
    requires
        0 <= r < 81,
        0 <= j,
        upto <= 81,
    ensures
        verify::row_sum(lanes, unit(81, r, y), j, upto) == if j <= r < upto {
            verify::scaled(y, verify::coefficients(lanes, j, r))
        } else {
            verify::none()
        },
    decreases upto - j,
{
    if upto > j {
        lemma_unit_row(lanes, r, y, j, upto - 1);
        let entry = verify::coefficients(lanes, j, upto - 1);
        let term = verify::scaled(unit(81, r, y)[upto - 1], entry);
        let before = verify::row_sum(lanes, unit(81, r, y), j, upto - 1);
        lemma_scaled(0, 0, entry, entry);
        lemma_plus(term, term, term, term);
        lemma_plus(before, before, before, before);
    }
}

/// On a single variable of each block, the forms are its coefficients times the two values, and
/// nothing when the second variable comes before the first.
pub proof fn law_forms_on_single_variables(
    lanes: &PkLanes,
    j: int,
    x: u8,
    r: int,
    y: u8,
    upto: int,
)
    requires
        0 <= j < 81,
        0 <= r < 81,
        0 <= upto <= 81,
    ensures
        verify::form(lanes, unit(81, j, x), unit(81, r, y), upto) == if j <= r && j < upto {
            verify::scaled(x, verify::scaled(y, verify::coefficients(lanes, j, r)))
        } else {
            verify::none()
        },
    decreases upto,
{
    if upto > 0 {
        let at = upto - 1;
        law_forms_on_single_variables(lanes, j, x, r, y, at);
        lemma_unit_row(lanes, r, y, at, 81);
        let row = verify::row_sum(lanes, unit(81, r, y), at, 81);
        let term = verify::scaled(unit(81, j, x)[at], row);
        let before = verify::form(lanes, unit(81, j, x), unit(81, r, y), at);
        lemma_scaled(0, 0, row, row);
        lemma_scaled(x, x, row, row);
        lemma_plus(term, term, term, term);
        lemma_plus(before, before, before, before);
    }
}

/// Where the coefficients of two variables stand: row by row in the triangle over the 64
/// vinegar variables, in the rectangle of 64 by 17, or in the triangle over the 17 oil ones.
pub proof fn law_coefficient_places(lanes: &PkLanes, j: int, r: int)
    requires
        lanes.wf(),
        0 <= j <= r < 81,
    ensures
        verify::coefficients(lanes, j, r) == if r < 64 {
            lanes.p1@[j * (129 - j) / 2 + (r - j)]@
        } else if j < 64 {
            lanes.p2@[17 * j + (r - 64)]@
        } else {
            lanes.p3@[(j - 64) * (35 - (j - 64)) / 2 + (r - j)]@
        },
        r < 64 ==> 0 <= j * (129 - j) / 2 + (r - j) < 2080,
        r >= 64 && j < 64 ==> 0 <= 17 * j + (r - 64) < 1088,
        j >= 64 ==> 0 <= (j - 64) * (35 - (j - 64)) / 2 + (r - j) < 153,
{
    if r < 64 {
        verify::lemma_row_start(64, j);
        verify::lemma_row_ends(64, j);
    } else if j >= 64 {
        verify::lemma_row_start(17, j - 64);
        verify::lemma_row_ends(17, j - 64);
    }
}

/// Multiplying by `z` is additive, raises each power of `z` by one, and turns `z^64` into
/// `8 + 2 z^2 + 8 z^3`.
pub proof fn law_shift_is_modulo_the_polynomial(a: Seq<u8>, b: Seq<u8>, l: int, x: u8)
    requires
        a.len() == 64,
        b.len() == 64,
        0 <= l < 64,
        x < 16,
    ensures
        verify::times_z(verify::plus(a, b)) == verify::plus(
            verify::times_z(a),
            verify::times_z(b),
        ),
        l < 63 ==> verify::times_z(unit(64, l, x)) == unit(64, l + 1, x),
        verify::times_z(unit(64, 63, x)) == verify::plus(
            unit(64, 0, gf16::product(x, 8)),
            verify::plus(unit(64, 2, gf16::product(x, 2)), unit(64, 3, gf16::product(x, 8))),
        ),
{
    let top = a[63];
    let other = b[63];
    assert forall|i: int| 0 <= i < 64 implies #[trigger] verify::times_z(verify::plus(a, b))[i]
        == verify::times_z(a)[i] ^ verify::times_z(b)[i] by {
        lemma_times(top, other, verify::tail(i));
        let p = verify::times(top, verify::tail(i));
        let q = verify::times(other, verify::tail(i));
        if i > 0 {
            lemma_xor(a[i - 1], b[i - 1], p, q);
            lemma_xor(a[i - 1], p, b[i - 1], q);
        } else {
            lemma_xor(0, 0, p, q);
            lemma_xor(0, p, 0, q);
        }
    }
    assert(verify::times_z(verify::plus(a, b)) =~= verify::plus(
        verify::times_z(a),
        verify::times_z(b),
    ));
    if l < 63 {
        assert forall|i: int| 0 <= i < 64 implies #[trigger] verify::times_z(unit(64, l, x))[i]
            == unit(64, l + 1, x)[i] by {
            lemma_times(0, 0, verify::tail(i));
            lemma_xor(x, 0, 0, 0);
            lemma_xor(0, 0, 0, 0);
        }
        assert(verify::times_z(unit(64, l, x)) =~= unit(64, l + 1, x));
    }
    let spread = verify::plus(
        unit(64, 0, gf16::product(x, 8)),
        verify::plus(unit(64, 2, gf16::product(x, 2)), unit(64, 3, gf16::product(x, 8))),
    );
    assert(x & 0x0f == x && 8u8 & 0x0f == 8 && 2u8 & 0x0f == 2) by (bit_vector)
        requires
            x < 16,
    ;
    assert forall|i: int| 0 <= i < 64 implies #[trigger] verify::times_z(unit(64, 63, x))[i]
        == spread[i] by {
        let p = gf16::product(x, 8);
        let q = gf16::product(x, 2);
        lemma_xor(p, 0, 0, 0);
        lemma_xor(q, 0, 0, 0);
        lemma_xor(0, 0, 0, 0);
    }
    assert(verify::times_z(unit(64, 63, x)) =~= spread);
}

proof fn lemma_shifted_adds(a: Seq<u8>, b: Seq<u8>, power: nat)
    requires
        a.len() == 64,
        b.len() == 64,
    ensures
        shifted(verify::plus(a, b), power) == verify::plus(shifted(a, power), shifted(b, power)),
        shifted(a, power).len() == 64,
        shifted(verify::times_z(a), power) == shifted(a, power + 1),
    decreases power,
{
    if power > 0 {
        let less = (power - 1) as nat;
        lemma_shifted_adds(a, b, less);
        lemma_shifted_adds(b, a, less);
        law_shift_is_modulo_the_polynomial(shifted(a, less), shifted(b, less), 0, 0);
    }
}

proof fn lemma_combined_step(
    lanes: &PkLanes,
    s: Blocks,
    n: int,
    i: int,
    j: int,
    power: nat,
)
    requires
        0 < n <= 10,
        verify::pairs()[n - 1] == (i, j),
    ensures
        shifted(verify::combined(lanes, s, n), power) == verify::plus(
            shifted(verify::combined(lanes, s, n - 1), power + 1),
            shifted(mixed(lanes, s, i, j), power),
        ),
        shifted(mixed(lanes, s, i, j), power).len() == 64,
{
    let before = verify::combined(lanes, s, n - 1);
    assert(before.len() == 64);
    let pair = mixed(lanes, s, i, j);
    assert(verify::form(lanes, s@[i]@, s@[j]@, 81).len() == 64);
    if i != j {
        lemma_plus(
            verify::times_z(before),
            verify::form(lanes, s@[i]@, s@[j]@, 81),
            verify::form(lanes, s@[j]@, s@[i]@, 81),
            pair,
        );
    }
    assert(verify::combined(lanes, s, n) == verify::plus(verify::times_z(before), pair));
    lemma_shifted_adds(verify::times_z(before), pair, power);
    lemma_shifted_adds(pair, pair, power);
    lemma_shifted_adds(before, before, power);
}

/// The public map adds up what every pair of blocks contributes, each times its own power of
/// `z`: the last block with itself times `z^9`, down to the first with the last times one.
pub proof fn law_public_map_adds_up_the_pairs(lanes: &PkLanes, s: Blocks)
    ensures
        ({
            let p = |i: int, j: int, power: nat| shifted(mixed(lanes, s, i, j), power);
            let first = verify::plus(p(3, 3, 9), p(2, 2, 8));
            let second = verify::plus(verify::plus(first, p(2, 3, 7)), p(1, 1, 6));
            let third = verify::plus(verify::plus(second, p(1, 2, 5)), p(1, 3, 4));
            let fourth = verify::plus(verify::plus(third, p(0, 0, 3)), p(0, 1, 2));
            verify::public_map(lanes, s) == verify::plus(
                verify::plus(fourth, p(0, 2, 1)),
                p(0, 3, 0),
            )
        }),
{
    let c = |n: int, power: nat| shifted(verify::combined(lanes, s, n), power);
    let p = |i: int, j: int, power: nat| shifted(mixed(lanes, s, i, j), power);
    assert(c(10, 0) == verify::plus(c(9, 1), p(0, 3, 0))) by {
        lemma_combined_step(lanes, s, 10, 0, 3, 0);
    }
    assert(c(9, 1) == verify::plus(c(8, 2), p(0, 2, 1))) by {
        lemma_combined_step(lanes, s, 9, 0, 2, 1);
    }
    assert(c(8, 2) == verify::plus(c(7, 3), p(0, 1, 2))) by {
        lemma_combined_step(lanes, s, 8, 0, 1, 2);
    }
    assert(c(7, 3) == verify::plus(c(6, 4), p(0, 0, 3))) by {
        lemma_combined_step(lanes, s, 7, 0, 0, 3);
    }
    assert(c(6, 4) == verify::plus(c(5, 5), p(1, 3, 4))) by {
        lemma_combined_step(lanes, s, 6, 1, 3, 4);
    }
    assert(c(5, 5) == verify::plus(c(4, 6), p(1, 2, 5))) by {
        lemma_combined_step(lanes, s, 5, 1, 2, 5);
    }
    assert(c(4, 6) == verify::plus(c(3, 7), p(1, 1, 6))) by {
        lemma_combined_step(lanes, s, 4, 1, 1, 6);
    }
    assert(c(3, 7) == verify::plus(c(2, 8), p(2, 3, 7))) by {
        lemma_combined_step(lanes, s, 3, 2, 3, 7);
    }
    assert(c(2, 8) == verify::plus(c(1, 9), p(2, 2, 8))) by {
        lemma_combined_step(lanes, s, 2, 2, 2, 8);
    }
    assert(c(1, 9) == p(3, 3, 9)) by {
        lemma_combined_step(lanes, s, 1, 3, 3, 9);
        lemma_shifted_none(10);
        assert(verify::combined(lanes, s, 0) == verify::none());
        lemma_plus(p(3, 3, 9), p(3, 3, 9), p(3, 3, 9), p(3, 3, 9));
    }
    assert(c(10, 0) == verify::public_map(lanes, s));
}

proof fn lemma_shifted_none(power: nat)
    ensures
        shifted(verify::none(), power) == verify::none(),
    decreases power,
{
    if power > 0 {
        lemma_shifted_none((power - 1) as nat);
        assert(unit(64, 0, 0) =~= verify::none());
        assert(unit(64, 1, 0) =~= verify::none());
        law_shift_is_modulo_the_polynomial(verify::none(), verify::none(), 0, 0);
    }
}

} // verus!
