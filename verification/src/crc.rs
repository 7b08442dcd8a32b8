//! The CRC-16/CCITT checksum that folds each benchmark's observable results
//! into one running digest.

use vstd::prelude::*;

verus! {

/// One feedback step: shift the register left and fold in the polynomial
/// `0x1021` when the bit shifted out was set.
pub open spec fn spec_crc16_bit(crc: u16) -> u16 {
    if crc & 0x8000 != 0 {
        (crc << 1) ^ 0x1021
    } else {
        crc << 1
    }
}

/// `n` feedback steps in a row.
pub open spec fn spec_crc16_bits(crc: u16, n: nat) -> u16
    decreases n,
{
    if n == 0 {
        crc
    } else {
        spec_crc16_bits(spec_crc16_bit(crc), (n - 1) as nat)
    }
}

/// One byte folded into the running checksum: the byte enters the top half of
/// the register, followed by eight feedback steps.
pub open spec fn spec_crc16_byte(crc: u16, byte: u8) -> u16 {
    spec_crc16_bits(crc ^ ((byte as u16) << 8), 8)
}

/// The checksum of `data` continued from the running value `crc`.
pub open spec fn spec_crc16(data: Seq<u8>, crc: u16) -> u16
    decreases data.len(),
{
    if data.len() == 0 {
        crc
    } else {
        spec_crc16_byte(spec_crc16(data.drop_last(), crc), data.last())
    }
}

/// Folds `data` into the running CRC-16/CCITT checksum `crc`.
pub fn crc16(data: &[u8], crc: u16) -> (r: u16)
    ensures
        r == spec_crc16(data@, crc),
{
    let ghost all = data@;
    let ghost crc0 = crc;
    let mut acc = crc;
    let n = data.len();
    let mut i: usize = 0;
    while i < n
        invariant
            0 <= i <= n,
            n == all.len(),
            data@ == all,
            acc == spec_crc16(all.take(i as int), crc0),
        decreases n - i,
    {
        let byte = data[i];
        acc = acc ^ ((byte as u16) << 8u16);
        let mut k: usize = 0;
        let ghost start = acc;
        while k < 8
            invariant
                0 <= k <= 8,
                spec_crc16_bits(acc, (8 - k) as nat) == spec_crc16_bits(start, 8),
            decreases 8 - k,
        {
            if (acc & 0x8000) != 0 {
                acc = (acc << 1u16) ^ 0x1021;
            } else {
                acc = acc << 1u16;
            }
            k = k + 1;
        }
        proof {
            assert(all.take(i + 1).drop_last() =~= all.take(i as int));
            assert(all.take(i + 1).last() == all[i as int]);
        }
        i = i + 1;
    }
    proof {
        assert(all.take(n as int) =~= all);
    }
    acc
}

/// The two little-endian bytes of a 16-bit value.
pub open spec fn spec_le_bytes_u16(v: u16) -> Seq<u8> {
    seq![(v & 0xff) as u8, (v >> 8) as u8]
}

/// The four little-endian bytes of a 32-bit value.
pub open spec fn spec_le_bytes_u32(v: u32) -> Seq<u8> {
    seq![
        (v & 0xff) as u8,
        ((v >> 8) & 0xff) as u8,
        ((v >> 16) & 0xff) as u8,
        ((v >> 24) & 0xff) as u8,
    ]
}

/// Serialises a 16-bit value as its two little-endian bytes.
pub fn le_bytes_u16(v: u16) -> (r: Vec<u8>)
    ensures
        r@ == spec_le_bytes_u16(v),
{
    let mut r: Vec<u8> = Vec::new();
    proof {
        assert((v & 0xff) <= 0xff) by (bit_vector);
        assert((v >> 8) <= 0xff) by (bit_vector);
    }
    r.push((v & 0xff) as u8);
    r.push((v >> 8u16) as u8);
    proof {
        assert(r@ =~= spec_le_bytes_u16(v));
    }
    r
}

/// Serialises a 32-bit value as its four little-endian bytes.
pub fn le_bytes_u32(v: u32) -> (r: Vec<u8>)
    ensures
        r@ == spec_le_bytes_u32(v),
{
    let mut r: Vec<u8> = Vec::new();
    proof {
        assert((v & 0xff) <= 0xff) by (bit_vector);
        assert(((v >> 8) & 0xff) <= 0xff) by (bit_vector);
        assert(((v >> 16) & 0xff) <= 0xff) by (bit_vector);
        assert(((v >> 24) & 0xff) <= 0xff) by (bit_vector);
    }
    r.push((v & 0xff) as u8);
    r.push(((v >> 8u32) & 0xff) as u8);
    r.push(((v >> 16u32) & 0xff) as u8);
    r.push(((v >> 24u32) & 0xff) as u8);
    proof {
        assert(r@ =~= spec_le_bytes_u32(v));
    }
    r
}

} // verus!
