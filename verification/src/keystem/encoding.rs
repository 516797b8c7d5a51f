//! Big-endian encodings of field elements.
use vstd::prelude::*;

use crate::bytes;
use crate::bytes::{push_le, read_le};
use crate::keystem::error::NonCanonical;

verus! {

/// Byte width of every key encoding.
pub const KEY_LEN: usize = 32;

/// An integer as four limbs of 64 bits, least significant first.
pub type Limbs = [u64; 4];

/// The integer that limbs spell.
pub open spec fn limbs_value(limbs: Limbs) -> nat {
    (limbs@[0] + limbs@[1] * 0x1_0000_0000_0000_0000 + limbs@[2]
        * 0x1_0000_0000_0000_0000_0000_0000_0000_0000 + limbs@[3]
        * 0x1_0000_0000_0000_0000_0000_0000_0000_0000_0000_0000_0000_0000) as nat
}

/// The integer that bytes spell, most significant first.
pub open spec fn be_value(bytes: Seq<u8>) -> nat {
    bytes::le_value(bytes.reverse())
}

/// A natural number, in contracts.
pub type Magnitude = nat;

/// A prime field whose modulus fits an encoding.
pub trait PrimeField: Sized {
    /// Number of elements.
    spec fn order() -> Magnitude;

    /// Number of bits of the modulus.
    spec fn order_bits() -> Magnitude;

    /// The modulus.
    fn modulus() -> (limbs: Limbs)
        ensures
            limbs_value(limbs) == Self::order(),
            Self::order() > 0,
    ;

    /// Number of bits of the modulus.
    fn modulus_bits() -> (bits: usize)
        ensures
            bits == Self::order_bits(),
            bits_fit(Self::order(), Self::order_bits()),
    ;
}

/// Whether a modulus has the given number of bits, and an encoding holds them.
pub open spec fn bits_fit(order: nat, bits: nat) -> bool {
    &&& 0 < bits <= 256
    &&& vstd::arithmetic::power2::pow2((bits - 1) as nat) <= order
    &&& order < vstd::arithmetic::power2::pow2(bits)
}

/// Whether bytes are the encoding of a field element: they spell an integer below the modulus.
pub open spec fn canonical<F: PrimeField>(bytes: Seq<u8>) -> bool {
    bytes.len() == KEY_LEN && be_value(bytes) < F::order()
}

/// Joined bytes spell both integers, the second one shifted past the first.
pub proof fn lemma_le_concat(low: Seq<u8>, high: Seq<u8>)
    ensures
        bytes::le_value(low + high) == bytes::le_value(low) + bytes::byte_range(low.len())
            * bytes::le_value(high),
    decreases low.len(),
{
    if low.len() == 0 {
        assert(low + high =~= high);
        assert(bytes::byte_range(0) * bytes::le_value(high) == bytes::le_value(high))
            by (nonlinear_arith)
            requires
                bytes::byte_range(0) == 1,
        ;
    } else {
        let rest = low.drop_first();
        lemma_le_concat(rest, high);
        assert((low + high).drop_first() =~= rest + high);
        let r = bytes::byte_range(rest.len());
        let h = bytes::le_value(high);
        assert(256 * (r * h) == (256 * r) * h) by (nonlinear_arith);
    }
}

/// Four words of eight bytes spell what their values spell as limbs.
proof fn lemma_words(low: Seq<u8>, limbs: Limbs)
    requires
        low.len() == 32,
        forall|i: int|
            0 <= i < 4 ==> #[trigger] limbs@[i] == bytes::le_value(
                low.subrange(8 * i, 8 * i + 8),
            ),
    ensures
        bytes::le_value(low) == limbs_value(limbs),
{
    let a = low.subrange(0, 8);
    let b = low.subrange(8, 16);
    let c = low.subrange(16, 24);
    let d = low.subrange(24, 32);
    assert(limbs@[0] == bytes::le_value(a));
    assert(limbs@[1] == bytes::le_value(b));
    assert(limbs@[2] == bytes::le_value(c));
    assert(limbs@[3] == bytes::le_value(d));
    assert(low =~= a + (b + (c + d)));
    lemma_le_concat(a, b + (c + d));
    lemma_le_concat(b, c + d);
    lemma_le_concat(c, d);
    bytes::lemma_byte_ranges();
}

/// The big-endian encoding read as limbs.
pub fn to_limbs(bytes: &[u8; 32]) -> (limbs: Limbs)
    ensures
        limbs_value(limbs) == be_value(bytes@),
{
    let mut low: Vec<u8> = Vec::new();
    let mut i: usize = 0;
    while i < KEY_LEN
        invariant
            i <= KEY_LEN,
            low@ == bytes@.reverse().take(i as int),
        decreases KEY_LEN - i,
    {
        low.push(bytes[KEY_LEN - 1 - i]);
        i += 1;
        assert(low@ =~= bytes@.reverse().take(i as int));
    }
    assert(low@ =~= bytes@.reverse());
    let limbs: Limbs = [
        read_le(low.as_slice(), 0, 8),
        read_le(low.as_slice(), 8, 8),
        read_le(low.as_slice(), 16, 8),
        read_le(low.as_slice(), 24, 8),
    ];
    proof {
        lemma_words(low@, limbs);
    }
    limbs
}

/// Canonical big-endian encoding of an integer, zero-padded to `KEY_LEN`.
pub fn to_canonical_bytes(limbs: &Limbs) -> (bytes: [u8; 32])
    ensures
        be_value(bytes@) == limbs_value(*limbs),
{
    let mut low: Vec<u8> = Vec::new();
    let mut at: usize = 0;
    while at < 4
        invariant
            at <= 4,
            low@.len() == 8 * at,
            forall|i: int|
                0 <= i < at ==> #[trigger] limbs@[i] == bytes::le_value(
                    low@.subrange(8 * i, 8 * i + 8),
                ),
        decreases 4 - at,
    {
        let ghost before = low@;
        push_le(&mut low, limbs[at], 8);
        proof {
            let word = bytes::le_bytes(limbs@[at as int] as nat, 8);
            bytes::lemma_byte_ranges();
            bytes::lemma_le_value(limbs@[at as int] as nat, 8);
            assert(low@.subrange(8 * at, 8 * at + 8) =~= word);
            assert forall|i: int| 0 <= i < at implies #[trigger] limbs@[i] == bytes::le_value(
                low@.subrange(8 * i, 8 * i + 8),
            ) by {
                assert(low@.subrange(8 * i, 8 * i + 8) =~= before.subrange(8 * i, 8 * i + 8));
            }
        }
        at += 1;
    }
    let mut bytes: [u8; 32] = [0u8; 32];
    let mut i: usize = 0;
    while i < KEY_LEN
        invariant
            i <= KEY_LEN,
            low@.len() == KEY_LEN,
            forall|j: int| 0 <= j < i ==> bytes@[j] == low@[KEY_LEN - 1 - j],
        decreases KEY_LEN - i,
    {
        bytes[i] = low[KEY_LEN - 1 - i];
        i += 1;
    }
    proof {
        assert(bytes@.reverse() =~= low@);
        lemma_words(low@, *limbs);
    }
    bytes
}

/// Whether one integer is below another.
pub fn is_below(a: &Limbs, b: &Limbs) -> (below: bool)
    ensures
        below <==> limbs_value(*a) < limbs_value(*b),
{
    if a[3] != b[3] {
        a[3] < b[3]
    } else if a[2] != b[2] {
        a[2] < b[2]
    } else if a[1] != b[1] {
        a[1] < b[1]
    } else {
        a[0] < b[0]
    }
}

/// Rejects an encoding of no field element.
pub fn check_canonical<F: PrimeField>(bytes: &[u8; 32]) -> (checked: Result<(), NonCanonical>)
    ensures
        checked is Ok <==> canonical::<F>(bytes@),
        checked is Ok <==> be_value(bytes@) < F::order(),
{
    let limbs = to_limbs(bytes);
    let modulus = F::modulus();
    if is_below(&limbs, &modulus) {
        Ok(())
    } else {
        Err(NonCanonical)
    }
}

/// Field element, as the integer that stands for it.
pub struct Element<F: PrimeField> {
    limbs: Limbs,
    field: std::marker::PhantomData<F>,
}

impl<F: PrimeField> Element<F> {
    /// The integer is below the modulus.
    #[verifier::type_invariant]
    closed spec fn inv(self) -> bool {
        limbs_value(self.limbs) < F::order()
    }

    /// The integer that stands for the element.
    pub closed spec fn value(&self) -> nat {
        limbs_value(self.limbs)
    }

    /// The element that an integer below the modulus stands for.
    pub fn from_bigint(limbs: Limbs) -> (element: Option<Self>)
        ensures
            match element {
                Some(element) => limbs_value(limbs) < F::order() && element.value() == limbs_value(
                    limbs,
                ),
                None => limbs_value(limbs) >= F::order(),
            },
    {
        let modulus = F::modulus();
        if is_below(&limbs, &modulus) {
            Some(Element { limbs, field: std::marker::PhantomData })
        } else {
            None
        }
    }

    /// The integer that stands for the element.
    pub fn into_bigint(&self) -> (limbs: Limbs)
        ensures
            limbs_value(limbs) == self.value(),
            self.value() < F::order(),
    {
        proof {
            use_type_invariant(self);
        }
        self.limbs
    }
}

/// The field element of a canonical encoding.
pub fn to_field<F: PrimeField>(bytes: &[u8; 32]) -> (element: Element<F>)
    requires
        canonical::<F>(bytes@),
    ensures
        element.value() == be_value(bytes@),
{
    Element { limbs: to_limbs(bytes), field: std::marker::PhantomData }
}

/// Bits that an integer of `bits` bits uses of its highest byte.
pub open spec fn high_byte_bits(bits: nat) -> nat {
    if bits % 8 == 0 {
        8
    } else {
        bits % 8
    }
}

/// Bytes that an integer of `bits` bits takes up.
pub open spec fn bytes_for(bits: nat) -> nat {
    (bits + 7) / 8
}

/// Mask of the bits that an integer of `bits` bits uses of its highest byte.
pub fn high_byte_mask(bits: usize) -> (mask: u8)
    ensures
        mask + 1 == vstd::arithmetic::power2::pow2(high_byte_bits(bits as nat)),
{
    let used: u8 = (bits % 8) as u8;
    proof {
        vstd::arithmetic::power2::lemma2_to64();
        assert(0 < used < 8 ==> (1u8 << used) == (if used == 1 {
            2u8
        } else if used == 2 {
            4
        } else if used == 3 {
            8
        } else if used == 4 {
            16
        } else if used == 5 {
            32
        } else if used == 6 {
            64
        } else {
            128
        })) by (bit_vector);
    }
    if used == 0 {
        u8::MAX
    } else {
        (1u8 << used) - 1
    }
}

/// Masking a byte takes it modulo the next power of two.
proof fn lemma_masked(byte: u8, mask: u8, used: nat)
    requires
        1 <= used <= 8,
        mask + 1 == vstd::arithmetic::power2::pow2(used),
    ensures
        (byte & mask) as nat == byte as nat % vstd::arithmetic::power2::pow2(used),
{
    vstd::arithmetic::power2::lemma2_to64();
    assert(mask == 1 || mask == 3 || mask == 7 || mask == 15 || mask == 31 || mask == 63 || mask
        == 127 || mask == 255);
    assert((byte & mask) as int == (byte as int) % (mask + 1)) by (bit_vector)
        requires
            mask == 1 || mask == 3 || mask == 7 || mask == 15 || mask == 31 || mask == 63 || mask
                == 127 || mask == 255,
    ;
}

/// Encoding that drawn bytes stand for: padded, and cut to `bits` bits.
pub open spec fn candidate(drawn: Seq<u8>, bits: nat) -> Seq<u8> {
    let first = drawn[0] as nat % vstd::arithmetic::power2::pow2(high_byte_bits(bits));
    Seq::new((KEY_LEN - drawn.len()) as nat, |i: int| 0u8) + seq![first as u8] + drawn.skip(1)
}

/// The first canonical candidate of a pool of drawn bytes, `bytes_for(bits)` bytes to a draw.
pub open spec fn first_canonical<F: PrimeField>(pool: Seq<u8>, bits: nat) -> Option<Seq<u8>>
    decreases pool.len(),
{
    let n = bytes_for(bits);
    if n == 0 || pool.len() < n {
        None
    } else if canonical::<F>(candidate(pool.take(n as int), bits)) {
        Some(candidate(pool.take(n as int), bits))
    } else {
        first_canonical::<F>(pool.skip(n as int), bits)
    }
}

/// Uniform canonical encoding by rejection sampling: the first canonical candidate of a pool of
/// random bytes, if it holds one.
pub fn sample_canonical<F: PrimeField>(pool: &[u8]) -> (sample: Option<[u8; 32]>)
    ensures
        match sample {
            Some(bytes) => first_canonical::<F>(pool@, F::order_bits()) == Some(bytes@)
                && canonical::<F>(bytes@),
            None => first_canonical::<F>(pool@, F::order_bits()) is None,
        },
{
    let bits: usize = F::modulus_bits();
    let n: usize = (bits + 7) / 8;
    let mask: u8 = high_byte_mask(bits);
    let len: usize = pool.len();
    let mut at: usize = 0;
    assert(pool@.skip(0) =~= pool@);
    while len - at >= n
        invariant
            bits == F::order_bits(),
            0 < bits <= 256,
            n == bytes_for(bits as nat),
            mask + 1 == vstd::arithmetic::power2::pow2(high_byte_bits(bits as nat)),
            len == pool@.len(),
            at <= len,
            first_canonical::<F>(pool@, bits as nat) == first_canonical::<F>(
                pool@.skip(at as int),
                bits as nat,
            ),
        decreases len - at,
    {
        let ghost drawn = pool@.subrange(at as int, at + n);
        let mut bytes: [u8; 32] = [0u8; 32];
        let mut i: usize = 0;
        while i < n
            invariant
                0 < n <= KEY_LEN,
                i <= n,
                at + n <= len,
                len == pool@.len(),
                drawn == pool@.subrange(at as int, at + n),
                forall|j: int| 0 <= j < KEY_LEN - n ==> bytes@[j] == 0,
                forall|j: int| 0 <= j < i ==> #[trigger] bytes@[KEY_LEN - n + j] == drawn[j],
            decreases n - i,
        {
            bytes[KEY_LEN - n + i] = pool[at + i];
            i += 1;
        }
        let high: u8 = bytes[KEY_LEN - n];
        assert(bytes@[KEY_LEN - n + 0] == drawn[0]);
        bytes[KEY_LEN - n] = high & mask;
        proof {
            lemma_masked(drawn[0], mask, high_byte_bits(bits as nat));
            assert(pool@.skip(at as int).take(n as int) =~= drawn);
            assert forall|j: int| 0 <= j < KEY_LEN implies bytes@[j] == candidate(
                drawn,
                bits as nat,
            )[j] by {
                if j > KEY_LEN - n {
                    let k = j - (KEY_LEN - n);
                    assert(bytes@[KEY_LEN - n + k] == drawn[k]);
                }
            }
            assert(bytes@ =~= candidate(drawn, bits as nat));
            assert(pool@.skip(at as int).skip(n as int) =~= pool@.skip(at + n));
        }
        if check_canonical::<F>(&bytes).is_ok() {
            return Some(bytes);
        }
        at += n;
    }
    None
}

/// Rejection sampling leaves no field element out: every canonical encoding is the candidate of
/// its own last bytes.
pub proof fn law_sampling_reaches_every_element<F: PrimeField>(bytes: Seq<u8>)
    requires
        bits_fit(F::order(), F::order_bits()),
        canonical::<F>(bytes),
    ensures
        candidate(bytes.skip(KEY_LEN - bytes_for(F::order_bits())), F::order_bits()) == bytes,
{
    let bits = F::order_bits();
    let n = bytes_for(bits) as int;
    let used = high_byte_bits(bits);
    let body = bytes.skip(KEY_LEN - n);
    let pad = bytes.take(KEY_LEN - n);
    // The encoding, least significant byte first, is the low bytes, the high byte, then the pad.
    let low = bytes.reverse();
    let rest = low.take(n - 1);
    let high = bytes[KEY_LEN - n];
    let top = low.skip(n);
    assert(low =~= rest + (seq![high] + top));
    lemma_le_concat(rest, seq![high] + top);
    lemma_le_concat(seq![high], top);
    assert(seq![high].drop_first() =~= Seq::<u8>::empty());
    assert(bytes::le_value(seq![high].drop_first()) == 0);
    assert(bytes::le_value(seq![high]) == high as nat);
    bytes::lemma_byte_ranges();
    lemma_power_of_bytes((n - 1) as nat);
    assert(bits == 8 * (n - 1) + used);
    vstd::arithmetic::power2::lemma_pow2_adds((8 * (n - 1)) as nat, used);
    let unit = bytes::byte_range((n - 1) as nat);
    let limit = vstd::arithmetic::power2::pow2(used);
    let upper = bytes::le_value(seq![high] + top);
    assert(upper == high as nat + 256 * bytes::le_value(top));
    assert(upper < limit) by (nonlinear_arith)
        requires
            unit * upper <= be_value(bytes),
            be_value(bytes) < unit * limit,
            unit >= 0,
    ;
    vstd::arithmetic::power2::lemma2_to64();
    lemma_limits(used);
    assert(bytes::le_value(top) == 0);
    lemma_zero_bytes(top);
    assert(high as nat % limit == high as nat) by (nonlinear_arith)
        requires
            0 <= high as nat,
            (high as nat) < limit,
    ;
    assert forall|j: int| 0 <= j < KEY_LEN implies candidate(body, bits)[j] == bytes[j] by {
        if j < KEY_LEN - n {
            assert(bytes[j] == top[KEY_LEN - 1 - j - n]);
        }
    }
    assert(candidate(body, bits) =~= bytes);
}

/// At most a byte's worth of bits.
proof fn lemma_limits(used: nat)
    requires
        1 <= used <= 8,
    ensures
        vstd::arithmetic::power2::pow2(used) <= 256,
{
    vstd::arithmetic::power2::lemma2_to64();
}

/// Bytes that spell zero are zero.
proof fn lemma_zero_bytes(bytes: Seq<u8>)
    requires
        bytes::le_value(bytes) == 0,
    ensures
        forall|i: int| 0 <= i < bytes.len() ==> bytes[i] == 0,
    decreases bytes.len(),
{
    if bytes.len() > 0 {
        lemma_zero_bytes(bytes.drop_first());
        assert forall|i: int| 0 <= i < bytes.len() implies bytes[i] == 0 by {
            if i > 0 {
                assert(bytes[i] == bytes.drop_first()[i - 1]);
            }
        }
    }
}

/// Bytes hold eight bits each.
proof fn lemma_power_of_bytes(n: nat)
    ensures
        bytes::byte_range(n) == vstd::arithmetic::power2::pow2(8 * n),
    decreases n,
{
    vstd::arithmetic::power2::lemma2_to64();
    if n > 0 {
        lemma_power_of_bytes((n - 1) as nat);
        vstd::arithmetic::power2::lemma_pow2_adds(8, (8 * (n - 1)) as nat);
    }
}

/// What bytes spell, put a byte behind them: all before it count 256 times as much.
pub proof fn law_bytes_spell_big_endian(bytes: Seq<u8>, byte: u8)
    ensures
        be_value(Seq::empty()) == 0,
        be_value(bytes.push(byte)) == 256 * be_value(bytes) + byte,
{
    assert(Seq::<u8>::empty().reverse() =~= Seq::<u8>::empty());
    let turned = bytes.push(byte).reverse();
    assert(turned[0] == byte);
    assert(turned.drop_first() =~= bytes.reverse());
}

/// The candidate of drawn bytes is a full encoding that spells what they spell, less the bits
/// above the modulus's.
pub proof fn law_candidate_keeps_the_low_bits(drawn: Seq<u8>, bits: nat)
    requires
        0 < bits <= 256,
        8 * (drawn.len() - 1) < bits <= 8 * drawn.len(),
    ensures
        candidate(drawn, bits).len() == 32,
        be_value(candidate(drawn, bits)) == be_value(drawn) % vstd::arithmetic::power2::pow2(bits),
{
    let n = drawn.len() as int;
    let used = high_byte_bits(bits);
    let limit = vstd::arithmetic::power2::pow2(used);
    let unit = bytes::byte_range((n - 1) as nat);
    let rest = drawn.skip(1).reverse();
    let high = drawn[0] as nat;
    let first = high % limit;
    let pad = Seq::new((KEY_LEN - n) as nat, |i: int| 0u8);
    vstd::arithmetic::power2::lemma2_to64();
    lemma_limits(used);
    assert(bits == 8 * (n - 1) + used);
    assert(drawn.reverse() =~= rest + seq![drawn[0]]);
    assert(candidate(drawn, bits).reverse() =~= rest + (seq![first as u8] + pad));
    lemma_le_concat(rest, seq![drawn[0]]);
    lemma_le_concat(rest, seq![first as u8] + pad);
    lemma_le_concat(seq![first as u8], pad);
    lemma_one_byte(drawn[0]);
    lemma_one_byte(first as u8);
    lemma_pad((KEY_LEN - n) as nat);
    lemma_power_of_bytes((n - 1) as nat);
    vstd::arithmetic::power2::lemma_pow2_adds((8 * (n - 1)) as nat, used);
    bytes::lemma_le_bytes(rest);
    let low = bytes::le_value(rest) as int;
    let total = low + unit * high;
    vstd::arithmetic::power2::lemma_pow2_pos(used);
    vstd::arithmetic::div_mod::lemma_fundamental_div_mod(high as int, limit as int);
    let quotient = high as int / limit as int;
    assert(bytes::byte_range(1) * bytes::le_value(pad) == 0) by (nonlinear_arith)
        requires
            bytes::le_value(pad) == 0,
    ;
    assert(total == quotient * (unit * limit) + (low + unit * first)) by (nonlinear_arith)
        requires
            total == low + unit * high,
            high == limit * quotient + first,
    ;
    assert(0 <= low + unit * first < unit * limit) by (nonlinear_arith)
        requires
            0 <= low < unit,
            0 <= first < limit,
    ;
    vstd::arithmetic::div_mod::lemma_fundamental_div_mod_converse(
        total,
        (unit * limit) as int,
        quotient,
        low + unit * first,
    );
}

proof fn lemma_one_byte(byte: u8)
    ensures
        bytes::le_value(seq![byte]) == byte,
{
    assert(seq![byte].drop_first() =~= Seq::<u8>::empty());
    assert(bytes::le_value(seq![byte].drop_first()) == 0);
}

/// Zeros spell zero.
proof fn lemma_pad(len: nat)
    ensures
        bytes::le_value(Seq::new(len, |i: int| 0u8)) == 0,
    decreases len,
{
    if len > 0 {
        let pad = Seq::new(len, |i: int| 0u8);
        lemma_pad((len - 1) as nat);
        assert(pad.drop_first() =~= Seq::new((len - 1) as nat, |i: int| 0u8));
    }
}

/// What draw `k` of a pool spells, less the bits above the modulus's; `n` bytes make a draw.
#[verifier::opaque]
pub open spec fn draw(pool: Seq<u8>, n: nat, bits: nat, k: nat) -> nat {
    be_value(pool.subrange((k * n) as int, (k * n + n) as int)) % vstd::arithmetic::power2::pow2(
        bits,
    )
}

/// Sampling takes the first draw that spells less than the modulus: the pool is cut into draws
/// of as many bytes as the modulus needs, and the sample spells that draw without the bits
/// above the modulus's. There is no sample exactly when no whole draw of the pool fits.
pub proof fn law_sample_is_the_first_draw_that_fits<F: PrimeField>(
    pool: Seq<u8>,
    bits: nat,
    n: nat,
)
    requires
        0 < bits <= 256,
        8 * (n - 1) < bits <= 8 * n,
    ensures
        match first_canonical::<F>(pool, bits) {
            Some(bytes) => {
                &&& bytes.len() == 32
                &&& be_value(bytes) < F::order()
                &&& exists|k: nat|
                    k * n + n <= pool.len() && #[trigger] draw(pool, n, bits, k) == be_value(bytes)
                        && forall|j: nat|
                        j < k ==> #[trigger] draw(pool, n, bits, j) >= F::order()
            },
            None => forall|k: nat|
                k * n + n <= pool.len() ==> #[trigger] draw(pool, n, bits, k) >= F::order(),
        },
    decreases pool.len(),
{
    assert(n == bytes_for(bits));
    let order = F::order();
    if pool.len() >= n {
        let rest = pool.skip(n as int);
        let first = candidate(pool.take(n as int), bits);
        lemma_first_draw(pool, n, bits);
        law_sample_is_the_first_draw_that_fits::<F>(rest, bits, n);
        if be_value(first) < order {
            lemma_whole_draw(0, n);
        } else {
            match first_canonical::<F>(rest, bits) {
                Some(bytes) => {
                    let k = choose|k: nat|
                        k * n + n <= rest.len() && #[trigger] draw(rest, n, bits, k) == be_value(
                            bytes,
                        ) && forall|j: nat|
                            j < k ==> #[trigger] draw(rest, n, bits, j) >= order;
                    lemma_next_draw(pool, n, bits, k);
                    assert forall|j: nat| j < k + 1 implies #[trigger] draw(pool, n, bits, j)
                        >= order by {
                        if j > 0 {
                            let i = (j - 1) as nat;
                            assert(i * n <= k * n) by (nonlinear_arith)
                                requires
                                    i <= k,
                            ;
                            lemma_next_draw(pool, n, bits, i);
                            assert(draw(rest, n, bits, i) >= order);
                        }
                    }
                },
                None => {
                    assert forall|k: nat| k * n + n <= pool.len() implies #[trigger] draw(
                        pool,
                        n,
                        bits,
                        k,
                    ) >= order by {
                        if k > 0 {
                            let i = (k - 1) as nat;
                            lemma_whole_draw(i, n);
                            lemma_next_draw(pool, n, bits, i);
                            assert(draw(rest, n, bits, i) >= order);
                        }
                    }
                },
            }
        }
    } else {
        assert forall|k: nat| k * n + n <= pool.len() implies #[trigger] draw(pool, n, bits, k)
            >= order by {
            lemma_whole_draw(k, n);
        }
    }
}

/// Where a draw ends.
proof fn lemma_whole_draw(k: nat, n: nat)
    ensures
        k * n + n >= n,
        (k + 1) * n == k * n + n,
        k == 0 ==> k * n == 0,
{
    assert(k * n >= 0 && (k + 1) * n == k * n + n && (k == 0 ==> k * n == 0)) by (nonlinear_arith)
        requires
            k >= 0,
            n >= 0,
    ;
}

/// The first draw of a pool.
proof fn lemma_first_draw(pool: Seq<u8>, n: nat, bits: nat)
    requires
        0 < bits <= 256,
        8 * (n - 1) < bits <= 8 * n,
        n <= pool.len(),
    ensures
        candidate(pool.take(n as int), bits).len() == 32,
        draw(pool, n, bits, 0) == be_value(candidate(pool.take(n as int), bits)),
{
    reveal(draw);
    law_candidate_keeps_the_low_bits(pool.take(n as int), bits);
    lemma_whole_draw(0, n);
    assert(pool.subrange(0, n as int) =~= pool.take(n as int));
}

/// The draws behind the first are those of the rest.
proof fn lemma_next_draw(pool: Seq<u8>, n: nat, bits: nat, k: nat)
    requires
        k * n + n + n <= pool.len(),
    ensures
        draw(pool.skip(n as int), n, bits, k) == draw(pool, n, bits, k + 1),
        (k + 1) * n + n <= pool.len(),
{
    reveal(draw);
    lemma_whole_draw(k, n);
    assert(pool.skip(n as int).subrange((k * n) as int, (k * n + n) as int) =~= pool.subrange(
        ((k + 1) * n) as int,
        ((k + 1) * n + n) as int,
    ));
}

} // verus!
