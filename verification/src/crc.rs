//! Dallas/Maxim CRC-8: polynomial x^8 + x^5 + x^4 + 1, processed least
//! significant bit first (reflected constant `0x8C`), initial value 0.

use vstd::prelude::*;

verus! {

/// Bit `i` of `byte`, counting from the least significant one.
pub open spec fn bit_of(byte: u8, i: nat) -> bool {
    (byte >> i) & 1 == 1
}

/// The shift register after one more input bit.
pub open spec fn crc8_bit(crc: u8, bit: bool) -> u8 {
    if bit_of(crc, 0) != bit {
        (crc >> 1) ^ 0x8C
    } else {
        crc >> 1
    }
}

/// The shift register after the `n` low bits of `byte`, lowest first.
pub open spec fn crc8_bits(crc: u8, byte: u8, n: nat) -> u8
    decreases n,
{
    if n == 0 {
        crc
    } else {
        crc8_bit(crc8_bits(crc, byte, (n - 1) as nat), bit_of(byte, (n - 1) as nat))
    }
}

/// The shift register after one whole input byte.
pub open spec fn crc8_byte(crc: u8, byte: u8) -> u8 {
    crc8_bits(crc, byte, 8)
}

/// The shift register after all of `data`, starting from `crc`.
pub open spec fn crc8(crc: u8, data: Seq<u8>) -> u8
    decreases data.len(),
{
    if data.len() == 0 {
        crc
    } else {
        crc8_byte(crc8(crc, data.drop_last()), data.last())
    }
}

proof fn lemma_crc8_round(crc: u8, cur: u8, byte: u8, j: u8)
    requires
        j < 8,
        cur == byte >> j,
    ensures
        (((crc ^ cur) & 0x01) != 0) == (bit_of(crc, 0) != bit_of(byte, j as nat)),
        cur >> 1u8 == byte >> ((j + 1) as u8),
{
    assert((((crc ^ cur) & 0x01) != 0) == (((crc >> 0u8) & 1 == 1) != ((cur >> 0u8) & 1 == 1)))
        by (bit_vector);
    assert((cur >> 0u8) & 1 == (byte >> j) & 1) by (bit_vector)
        requires
            cur == byte >> j,
            j < 8,
    ;
    assert(cur >> 1u8 == byte >> ((j + 1) as u8)) by (bit_vector)
        requires
            cur == byte >> j,
            j < 8,
    ;
    assert(crc >> 0u8 == crc >> 0nat);
    assert(byte >> j == byte >> (j as nat));
}

/// Continues a CRC-8 computation: feeds `data` into the register `crc`.
///
/// The checksum of a whole buffer is `compute_partial_crc8(0, buffer)`.
pub fn compute_partial_crc8(crc: u8, data: &[u8]) -> (r: u8)
    ensures
        r == crc8(crc, data@),
{
    let mut acc: u8 = crc;
    let mut k: usize = 0;
    while k < data.len()
        invariant
            k <= data.len(),
            acc == crc8(crc, data@.take(k as int)),
        decreases data.len() - k,
    {
        let ghost before = acc;
        let mut byte: u8 = data[k];
        let mut j: u8 = 0;
        assert(byte == byte >> 0u8) by (bit_vector);
        while j < 8
            invariant
                k < data.len(),
                j <= 8,
                byte == data@[k as int] >> j,
                acc == crc8_bits(before, data@[k as int], j as nat),
            decreases 8 - j,
        {
            proof {
                lemma_crc8_round(acc, byte, data@[k as int], j);
            }
            let mix: u8 = (acc ^ byte) & 0x01;
            acc >>= 1;
            if mix != 0x00 {
                acc ^= 0x8C;
            }
            byte >>= 1;
            j += 1;
        }
        proof {
            let next = data@.take(k + 1);
            assert(next.drop_last() =~= data@.take(k as int));
            assert(next.last() == data@[k as int]);
        }
        k += 1;
    }
    proof {
        assert(data@.take(k as int) =~= data@);
    }
    acc
}

/// Feeding `a` and then `b` gives the same register as feeding their
/// concatenation: the checksum can be computed piece by piece.
pub proof fn lemma_crc8_concat(crc: u8, a: Seq<u8>, b: Seq<u8>)
    ensures
        crc8(crc, a + b) == crc8(crc8(crc, a), b),
    decreases b.len(),
{
    if b.len() == 0 {
        assert(a + b =~= a);
    } else {
        lemma_crc8_concat(crc, a, b.drop_last());
        assert((a + b).drop_last() =~= a + b.drop_last());
        assert((a + b).last() == b.last());
    }
}

} // verus!
