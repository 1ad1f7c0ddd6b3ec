//! CRC-16/DNP for the DNP3 data link layer.
//!
//! Poly 0x3d65, refin and refout, xorout 0xffff, check 0xea82. DNP3 transmits the
//! CRC low octet first.

use vstd::prelude::*;

verus! {

/// The polynomial, lowest bit first.
pub const POLY: u16 = 0xA6BC;

/// The register after one bit.
pub open spec fn crc_bit(c: u16) -> u16 {
    if c & 1 == 1 {
        (c >> 1) ^ POLY
    } else {
        c >> 1
    }
}

/// The register after `n` bits.
pub open spec fn crc_bits(c: u16, n: nat) -> u16
    decreases n,
{
    if n == 0 {
        c
    } else {
        crc_bit(crc_bits(c, (n - 1) as nat))
    }
}

/// The register after a byte run.
pub open spec fn crc_register(data: Seq<u8>) -> u16
    decreases data.len(),
{
    if data.len() == 0 {
        0
    } else {
        crc_bits(crc_register(data.drop_last()) ^ data.last() as u16, 8)
    }
}

/// The CRC-16/DNP value of a byte run.
pub open spec fn crc16_dnp(data: Seq<u8>) -> u16 {
    crc_register(data) ^ 0xffff
}

/// CRC-16/DNP over `data`.
pub fn dnp3(data: &[u8]) -> (r: u16)
    ensures
        r == crc16_dnp(data@),
{
    let mut c: u16 = 0;
    let mut i: usize = 0;
    proof {
        assert(data@.take(0) =~= Seq::empty());
    }
    while i < data.len()
        invariant
            i <= data@.len(),
            c == crc_register(data@.take(i as int)),
        decreases data@.len() - i,
    {
        let start: u16 = c ^ data[i] as u16;
        c = start;
        let mut k: u8 = 0;
        while k < 8
            invariant
                k <= 8,
                c == crc_bits(start, k as nat),
            decreases 8 - k,
        {
            c = if c & 1 == 1 {
                (c >> 1) ^ POLY
            } else {
                c >> 1
            };
            k += 1;
        }
        proof {
            assert(data@.take(i as int + 1).drop_last() =~= data@.take(i as int));
        }
        i += 1;
    }
    proof {
        assert(data@.take(i as int) =~= data@);
    }
    c ^ 0xffff
}

} // verus!
