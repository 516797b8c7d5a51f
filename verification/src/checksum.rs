//! The CRC-32/ISCSI checksum, known as CRC32C.
use vstd::prelude::*;

verus! {

/// The register after one bit: shifted down, and combined with the reflected polynomial
/// `0x1edc6f41` when a set bit falls out.
pub open spec fn after_bit(register: u32) -> u32 {
    if register & 1 == 1 {
        (register >> 1) ^ 0x82f63b78
    } else {
        register >> 1
    }
}

/// The register after some bits.
pub open spec fn after_bits(register: u32, count: nat) -> u32
    decreases count,
{
    if count == 0 {
        register
    } else {
        after_bit(after_bits(register, (count - 1) as nat))
    }
}

/// The register after some bytes: it starts with every bit set, and each byte joins it at the
/// low end.
#[verifier::opaque]
pub open spec fn register_after(bytes: Seq<u8>) -> u32
    decreases bytes.len(),
{
    if bytes.len() == 0 {
        0xffff_ffff
    } else {
        after_bits(register_after(bytes.drop_last()) ^ (bytes.last() as u32), 8)
    }
}

/// The CRC-32/ISCSI checksum of bytes: the register with every bit flipped.
pub open spec fn crc32c_of(bytes: Seq<u8>) -> u32 {
    register_after(bytes) ^ 0xffff_ffff
}

/// Registers that differ still differ after more bits.
proof fn lemma_bits_differ(a: u32, b: u32, count: nat)
    requires
        a != b,
    ensures
        after_bits(a, count) != after_bits(b, count),
    decreases count,
{
    if count > 0 {
        lemma_bits_differ(a, b, (count - 1) as nat);
        let x = after_bits(a, (count - 1) as nat);
        let y = after_bits(b, (count - 1) as nat);
        assert(x != y ==> after_bit(x) != after_bit(y)) by (bit_vector);
    }
}

/// Two byte strings of one length that differ in one byte have different registers.
proof fn lemma_registers_differ(bytes: Seq<u8>, at: int, byte: u8)
    requires
        0 <= at < bytes.len(),
        bytes[at] != byte,
    ensures
        register_after(bytes.update(at, byte)) != register_after(bytes),
    decreases bytes.len(),
{
    reveal(register_after);
    let changed = bytes.update(at, byte);
    let rest = bytes.drop_last();
    let old = register_after(rest);
    let new = register_after(changed.drop_last());
    let last = bytes.last();
    if at == bytes.len() - 1 {
        assert(changed.drop_last() =~= rest);
        assert(last != byte ==> old ^ (last as u32) != old ^ (byte as u32)) by (bit_vector);
        lemma_bits_differ(old ^ (last as u32), old ^ (byte as u32), 8);
    } else {
        assert(changed.drop_last() =~= rest.update(at, byte));
        lemma_registers_differ(rest, at, byte);
        assert(old != new ==> old ^ (last as u32) != new ^ (last as u32)) by (bit_vector);
        lemma_bits_differ(old ^ (last as u32), new ^ (last as u32), 8);
    }
}

/// A change of one byte changes the checksum.
pub proof fn law_changed_byte_changes_the_checksum(bytes: Seq<u8>, at: int, byte: u8)
    requires
        0 <= at < bytes.len(),
        bytes[at] != byte,
    ensures
        crc32c_of(bytes.update(at, byte)) != crc32c_of(bytes),
{
    lemma_registers_differ(bytes, at, byte);
    let a = register_after(bytes.update(at, byte));
    let b = register_after(bytes);
    assert(a != b ==> a ^ 0xffff_ffff != b ^ 0xffff_ffff) by (bit_vector);
}

} // verus!
