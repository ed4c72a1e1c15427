//! The CRC-32 checksum that PNG chunks and ZIP entries carry.

use vstd::prelude::*;

verus! {

/// One shift of the CRC register.
pub open spec fn crc_bit(register: u32) -> u32 {
    if register & 1 == 1 {
        (register >> 1) ^ 0xedb8_8320
    } else {
        register >> 1
    }
}

/// Several shifts of the CRC register.
pub open spec fn crc_bits(register: u32, count: nat) -> u32
    decreases count,
{
    if count == 0 {
        register
    } else {
        crc_bit(crc_bits(register, (count - 1) as nat))
    }
}

/// The CRC register after these bytes.
pub open spec fn crc_register(bytes: Seq<u8>) -> u32
    decreases bytes.len(),
{
    if bytes.len() == 0 {
        0xffff_ffff
    } else {
        crc_bits(crc_register(bytes.drop_last()) ^ bytes.last() as u32, 8)
    }
}

/// The CRC-32 of bytes.
pub open spec fn crc32_of(bytes: Seq<u8>) -> u32 {
    !crc_register(bytes)
}

/// The CRC-32 of bytes.
pub fn crc32(bytes: &[u8]) -> (crc: u32)
    ensures
        crc == crc32_of(bytes@),
{
    let mut register: u32 = 0xffff_ffff;
    assert(bytes@.take(0) =~= Seq::empty());
    let mut i: usize = 0;
    while i < bytes.len()
        invariant
            i <= bytes@.len(),
            register == crc_register(bytes@.take(i as int)),
        decreases bytes.len() - i,
    {
        assert(bytes@.take(i + 1).drop_last() =~= bytes@.take(i as int));
        let ghost mixed = register ^ bytes@[i as int] as u32;
        register = register ^ bytes[i] as u32;
        let mut shifts: usize = 0;
        while shifts < 8
            invariant
                shifts <= 8,
                register == crc_bits(mixed, shifts as nat),
            decreases 8 - shifts,
        {
            register = if register & 1 == 1 {
                (register >> 1) ^ 0xedb8_8320
            } else {
                register >> 1
            };
            shifts += 1;
        }
        i += 1;
    }
    assert(bytes@.take(bytes@.len() as int) =~= bytes@);
    !register
}

} // verus!
