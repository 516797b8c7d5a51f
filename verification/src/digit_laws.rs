//! What bytes and digits of a number are, place by place.
use vstd::arithmetic::power;
use vstd::prelude::*;

use crate::bytes;
use crate::text;

verus! {

/// Dividing twice is dividing by the product.
proof fn lemma_next_place(n: nat, base: nat, k: nat)
    requires
        base > 0,
    ensures
        (n / base) as int / power::pow(base as int, k) == n as int / power::pow(base as int, k + 1),
        power::pow(base as int, k) > 0,
{
    power::lemma_pow_positive(base as int, k);
    power::lemma_pow_adds(base as int, 1, k);
    power::lemma_pow1(base as int);
    vstd::arithmetic::div_mod::lemma_div_denominator(n as int, base as int, power::pow(base as int, k));
}

/// Byte `k` of a number is its digit at that place in base 256: the least significant comes
/// first.
pub proof fn law_bytes_are_little_endian(n: nat, width: nat, k: nat)
    requires
        k < width,
    ensures
        bytes::le_bytes(n, width).len() == width,
        bytes::le_bytes(n, width)[k as int] == (n as int / power::pow(256, k)) % 256,
    decreases width,
{
    lemma_le_len(n, width);
    if k == 0 {
        power::lemma_pow0(256);
        assert(n as int / 1 == n as int);
    } else {
        law_bytes_are_little_endian(n / 256, (width - 1) as nat, (k - 1) as nat);
        lemma_next_place(n, 256, (k - 1) as nat);
        assert(bytes::le_bytes(n, width)[k as int] == bytes::le_bytes(
            n / 256,
            (width - 1) as nat,
        )[k - 1]);
    }
}

proof fn lemma_le_len(n: nat, width: nat)
    ensures
        bytes::le_bytes(n, width).len() == width,
    decreases width,
{
    if width > 0 {
        lemma_le_len(n / 256, (width - 1) as nat);
    }
}

/// What bytes spell, put a byte behind them: it counts for 256 to the number of those before.
pub proof fn law_bytes_spell_little_endian(bytes: Seq<u8>, byte: u8)
    ensures
        bytes::le_value(Seq::empty()) == 0,
        bytes::le_value(bytes.push(byte)) == bytes::le_value(bytes) + byte * power::pow(
            256,
            bytes.len(),
        ),
    decreases bytes.len(),
{
    let longer = bytes.push(byte);
    if bytes.len() == 0 {
        power::lemma_pow0(256);
        assert(longer.drop_first() =~= Seq::<u8>::empty());
        assert(bytes::le_value(longer.drop_first()) == 0);
    } else {
        law_bytes_spell_little_endian(bytes.drop_first(), byte);
        assert(longer.drop_first() =~= bytes.drop_first().push(byte));
        power::lemma_pow_adds(256, 1, (bytes.len() - 1) as nat);
        power::lemma_pow1(256);
        let less = power::pow(256, (bytes.len() - 1) as nat);
        assert(256 * (byte * less) == byte * (256 * less)) by (nonlinear_arith);
    }
}

/// Decimal characters of a number: one for each place in base ten, the most significant first,
/// and no zero in front of another digit.
pub proof fn law_decimal_digits(n: nat, k: nat)
    requires
        k < text::decimal(n).len(),
    ensures
        ({
            let digits = text::decimal(n);
            let place = (n as int / power::pow(10, k)) % 10;
            &&& digits[digits.len() - 1 - k] as int == '0' as int + place
            &&& digits.len() > 1 ==> digits[0] != '0'
            &&& n as int / power::pow(10, digits.len()) == 0
        }),
    decreases n,
{
    let digits = text::decimal(n);
    if n < 10 {
        power::lemma_pow0(10);
        power::lemma_pow1(10);
        assert(n as int / 1 == n as int);
        assert(n as int / 10 == 0);
        assert(digits.len() == 1);
        lemma_digit(n as int);
    } else {
        let lead = text::decimal(n / 10);
        assert(lead.len() > 0) by {
            text::lemma_decimal(n / 10);
        }
        lemma_digit((n % 10) as int);
        lemma_next_place(n, 10, lead.len());
        if k == 0 {
            power::lemma_pow0(10);
            assert(n as int / 1 == n as int);
            law_decimal_digits(n / 10, 0);
        } else {
            law_decimal_digits(n / 10, (k - 1) as nat);
            lemma_next_place(n, 10, (k - 1) as nat);
            assert(digits[digits.len() - 1 - k] == lead[lead.len() - 1 - (k - 1)]);
        }
        if lead.len() == 1 {
            assert(n / 10 < 10) by {
                if n / 10 >= 10 {
                    text::lemma_decimal(n / 10 / 10);
                }
            }
            lemma_digit((n / 10) as int);
            assert(lead[0] == text::digit((n / 10) as int));
        }
        assert(digits[0] == lead[0]);
    }
}

/// Digits are `0` to `9`, then `a` to `f`.
proof fn lemma_digit(value: int)
    requires
        0 <= value < 16,
    ensures
        text::digit(value) as int == (if value < 10 {
            '0' as int + value
        } else {
            'a' as int + value - 10
        }),
{
}

/// Hexadecimal characters of a number: lowercase, one for each place in base 16, the most
/// significant first, as many as asked for.
pub proof fn law_hex_digits(n: nat, width: nat, k: nat)
    requires
        k < width,
    ensures
        ({
            let digits = text::hex_digits(n, width);
            let place = (n as int / power::pow(16, k)) % 16;
            &&& digits.len() == width
            &&& digits[width - 1 - k] as int == (if place < 10 {
                '0' as int + place
            } else {
                'a' as int + place - 10
            })
        }),
    decreases width,
{
    lemma_hex_len(n, width);
    lemma_digit((n % 16) as int);
    if k == 0 {
        power::lemma_pow0(16);
        assert(n as int / 1 == n as int);
    } else {
        law_hex_digits(n / 16, (width - 1) as nat, (k - 1) as nat);
        lemma_next_place(n, 16, (k - 1) as nat);
        assert(text::hex_digits(n, width)[width - 1 - k] == text::hex_digits(
            n / 16,
            (width - 1) as nat,
        )[width - 1 - k]);
    }
}

proof fn lemma_hex_len(n: nat, width: nat)
    ensures
        text::hex_digits(n, width).len() == width,
    decreases width,
{
    if width > 0 {
        lemma_hex_len(n / 16, (width - 1) as nat);
    }
}

/// Bytes in hexadecimal: two characters for each byte, in order.
pub proof fn law_hex_bytes(bytes: Seq<u8>, i: int)
    requires
        0 <= i < bytes.len(),
    ensures
        text::hex_bytes(bytes).len() == 2 * bytes.len(),
        text::hex_bytes(bytes).subrange(2 * i, 2 * i + 2) == text::hex_digits(
            bytes[i] as nat,
            2,
        ),
    decreases bytes.len(),
{
    let rest = bytes.drop_last();
    let last = text::hex_digits(bytes.last() as nat, 2);
    lemma_hex_len(bytes.last() as nat, 2);
    lemma_hex_bytes_len(rest);
    let all = text::hex_bytes(bytes);
    assert(all == text::hex_bytes(rest) + last);
    if i < rest.len() {
        law_hex_bytes(rest, i);
        assert(all.subrange(2 * i, 2 * i + 2) =~= text::hex_bytes(rest).subrange(
            2 * i,
            2 * i + 2,
        ));
    } else {
        assert(all.subrange(2 * i, 2 * i + 2) =~= last);
    }
}

proof fn lemma_hex_bytes_len(bytes: Seq<u8>)
    ensures
        text::hex_bytes(bytes).len() == 2 * bytes.len(),
    decreases bytes.len(),
{
    if bytes.len() > 0 {
        lemma_hex_bytes_len(bytes.drop_last());
        lemma_hex_len(bytes.last() as nat, 2);
    }
}

} // verus!
