//! Little-endian integers in byte sequences.
use vstd::prelude::*;

verus! {

/// A sequence of bytes, in contracts.
pub type ByteSeq = Seq<u8>;

/// One more than the largest integer that `width` bytes hold.
pub open spec fn byte_range(width: nat) -> nat
    decreases width,
{
    if width == 0 {
        1
    } else {
        256 * byte_range((width - 1) as nat)
    }
}

/// The low `width` bytes of an integer, least significant first.
pub open spec fn le_bytes(n: nat, width: nat) -> Seq<u8>
    decreases width,
{
    if width == 0 {
        Seq::empty()
    } else {
        seq![(n % 256) as u8] + le_bytes(n / 256, (width - 1) as nat)
    }
}

/// The integer that bytes spell, least significant first.
pub open spec fn le_value(bytes: Seq<u8>) -> nat
    decreases bytes.len(),
{
    if bytes.len() == 0 {
        0
    } else {
        bytes[0] as nat + 256 * le_value(bytes.drop_first())
    }
}

/// The byte ranges in use.
pub proof fn lemma_byte_ranges()
    ensures
        byte_range(1) == 0x100,
        byte_range(2) == 0x1_0000,
        byte_range(4) == 0x1_0000_0000,
        byte_range(8) == 0x1_0000_0000_0000_0000,
{
    reveal_with_fuel(byte_range, 9);
}

/// Bytes of an integer that fits spell the integer.
pub proof fn lemma_le_value(n: nat, width: nat)
    requires
        n < byte_range(width),
    ensures
        le_bytes(n, width).len() == width,
        le_value(le_bytes(n, width)) == n,
    decreases width,
{
    if width > 0 {
        assert(n / 256 < byte_range((width - 1) as nat)) by (nonlinear_arith)
            requires
                n < 256 * byte_range((width - 1) as nat),
        ;
        lemma_le_value(n / 256, (width - 1) as nat);
        let rest = le_bytes(n / 256, (width - 1) as nat);
        assert((seq![(n % 256) as u8] + rest).drop_first() =~= rest);
    }
}

/// Bytes are the bytes of the integer that they spell.
pub proof fn lemma_le_bytes(bytes: Seq<u8>)
    ensures
        le_value(bytes) < byte_range(bytes.len()),
        le_bytes(le_value(bytes), bytes.len()) == bytes,
    decreases bytes.len(),
{
    if bytes.len() == 0 {
        assert(le_bytes(le_value(bytes), 0) =~= bytes);
    } else {
        let rest = bytes.drop_first();
        lemma_le_bytes(rest);
        let value = le_value(bytes);
        assert(value % 256 == bytes[0] as nat);
        assert(value / 256 == le_value(rest));
        assert(seq![bytes[0]] + rest =~= bytes);
    }
}

/// Appends the low `width` bytes of an integer, least significant first.
pub fn push_le(out: &mut Vec<u8>, n: u64, width: usize)
    ensures
        final(out)@ == old(out)@ + le_bytes(n as nat, width as nat),
    decreases width,
{
    let ghost before = out@;
    if width > 0 {
        out.push((n % 256) as u8);
        push_le(out, n / 256, width - 1);
        assert(out@ =~= before + le_bytes(n as nat, width as nat));
    } else {
        assert(out@ =~= before + le_bytes(n as nat, width as nat));
    }
}

/// Reads `width` bytes from `at` on as an integer.
pub fn read_le(bytes: &[u8], at: usize, width: usize) -> (n: u64)
    requires
        at + width <= bytes@.len(),
        width <= 8,
    ensures
        n == le_value(bytes@.subrange(at as int, at + width)),
        n < byte_range(width as nat),
{
    let total = bytes.len();
    let mut left: usize = width;
    let mut n: u64 = 0;
    assert(bytes@.subrange(at + width, at + width).len() == 0);
    while left > 0
        invariant
            left <= width <= 8,
            at + width <= total,
            total == bytes@.len(),
            at + width <= bytes@.len(),
            n == le_value(bytes@.subrange(at + left, at + width)),
        decreases left,
    {
        let ghost tail = bytes@.subrange(at + left, at + width);
        let ghost longer = bytes@.subrange(at + left - 1, at + width);
        proof {
            assert(longer.drop_first() =~= tail);
            lemma_le_bytes(longer);
            lemma_byte_ranges();
            lemma_byte_range_grows(longer.len(), 8);
        }
        left -= 1;
        n = n * 256 + bytes[at + left] as u64;
    }
    proof {
        lemma_le_bytes(bytes@.subrange(at as int, at + width));
    }
    n
}

/// More bytes hold more integers.
pub proof fn lemma_byte_range_grows(some: nat, more: nat)
    requires
        some <= more,
    ensures
        0 < byte_range(some) <= byte_range(more),
    decreases more,
{
    if more > 0 {
        if some < more {
            lemma_byte_range_grows(some, (more - 1) as nat);
        } else {
            lemma_byte_range_grows((some - 1) as nat, (more - 1) as nat);
        }
    }
}

} // verus!
