//! CRC-32, the checksum that closes every index file.
//!
//! This is the common reflected CRC-32: generator polynomial `0xEDB88320`, a
//! register that starts at all ones, and a final inversion. The check value of
//! the ASCII digits `123456789` is `0xCBF43926`.

use vstd::prelude::*;

verus! {

/// The generator polynomial, bit-reflected.
pub const CRC32_POLYNOMIAL: u32 = 0xEDB8_8320;

/// The register after one bit of input has been shifted out.
pub open spec fn crc_shift(c: u32) -> u32 {
    if c & 1 == 1 {
        (c >> 1) ^ CRC32_POLYNOMIAL
    } else {
        c >> 1
    }
}

/// The register after `n` bits have been shifted out.
pub open spec fn crc_shifts(c: u32, n: nat) -> u32
    decreases n,
{
    if n == 0 {
        c
    } else {
        crc_shifts(crc_shift(c), (n - 1) as nat)
    }
}

/// The register after one more byte of input.
pub open spec fn crc_absorb(c: u32, b: u8) -> u32 {
    crc_shifts(c ^ (b as u32), 8)
}

/// The register after all of `s`, starting from all ones.
pub open spec fn crc_register(s: Seq<u8>) -> u32
    decreases s.len(),
{
    if s.len() == 0 {
        0xFFFF_FFFF
    } else {
        crc_absorb(crc_register(s.drop_last()), s.last())
    }
}

/// The CRC-32 checksum of `s`.
pub open spec fn crc32(s: Seq<u8>) -> u32 {
    crc_register(s) ^ 0xFFFF_FFFF
}

/// Shifting bits out loses nothing: two registers that are the same
/// afterwards were the same before.
pub proof fn lemma_shifts_injective(a: u32, b: u32, n: nat)
    requires
        crc_shifts(a, n) == crc_shifts(b, n),
    ensures
        a == b,
    decreases n,
{
    if n > 0 {
        lemma_shifts_injective(crc_shift(a), crc_shift(b), (n - 1) as nat);
        let x = crc_shift(a);
        let y = crc_shift(b);
        assert(a == b) by (bit_vector)
            requires
                x == (if a & 1 == 1 {
                    (a >> 1) ^ 0xEDB8_8320u32
                } else {
                    a >> 1
                }),
                y == (if b & 1 == 1 {
                    (b >> 1) ^ 0xEDB8_8320u32
                } else {
                    b >> 1
                }),
                x == y,
        ;
    }
}

/// Absorbing a byte loses nothing: neither which byte it was, nor what the
/// register was before.
pub proof fn lemma_absorb_injective(c: u32, x: u8, d: u32, y: u8)
    requires
        crc_absorb(c, x) == crc_absorb(d, y),
    ensures
        c == d ==> x == y,
        x == y ==> c == d,
{
    lemma_shifts_injective(c ^ (x as u32), d ^ (y as u32), 8);
    let p = c ^ (x as u32);
    let q = d ^ (y as u32);
    assert((c == d ==> x == y) && (x == y ==> c == d)) by (bit_vector)
        requires
            p == c ^ (x as u32),
            q == d ^ (y as u32),
            p == q,
    ;
}

/// The checksum tells every change of a single byte: two runs of bytes that
/// differ in exactly one place have different checksums.
pub proof fn lemma_checksum_detects_byte(s: Seq<u8>, i: int, b: u8)
    requires
        0 <= i < s.len(),
        b != s[i],
    ensures
        crc32(s.update(i, b)) != crc32(s),
{
    lemma_register_detects_byte(s, i, b);
    let x = crc_register(s.update(i, b));
    let y = crc_register(s);
    assert(x ^ 0xFFFF_FFFFu32 != y ^ 0xFFFF_FFFFu32) by (bit_vector)
        requires
            x != y,
    ;
}

proof fn lemma_register_detects_byte(s: Seq<u8>, i: int, b: u8)
    requires
        0 <= i < s.len(),
        b != s[i],
    ensures
        crc_register(s.update(i, b)) != crc_register(s),
    decreases s.len(),
{
    let t = s.update(i, b);
    if i == s.len() - 1 {
        assert(t.drop_last() =~= s.drop_last());
        if crc_register(t) == crc_register(s) {
            lemma_absorb_injective(
                crc_register(s.drop_last()),
                b,
                crc_register(s.drop_last()),
                s.last(),
            );
        }
    } else {
        assert(t.drop_last() =~= s.drop_last().update(i, b));
        lemma_register_detects_byte(s.drop_last(), i, b);
        if crc_register(t) == crc_register(s) {
            lemma_absorb_injective(
                crc_register(t.drop_last()),
                t.last(),
                crc_register(s.drop_last()),
                s.last(),
            );
        }
    }
}

/// Computes the CRC-32 checksum of `data`.
pub fn checksum(data: &[u8]) -> (c: u32)
    ensures
        c == crc32(data@),
{
    let mut register: u32 = 0xFFFF_FFFF;
    let mut i: usize = 0;
    while i < data.len()
        invariant
            i <= data.len(),
            register == crc_register(data@.take(i as int)),
        decreases data.len() - i,
    {
        let mut c: u32 = register ^ (data[i] as u32);
        let mut j: u32 = 0;
        while j < 8
            invariant
                j <= 8,
                crc_shifts(c, (8 - j) as nat) == crc_absorb(register, data@[i as int]),
            decreases 8 - j,
        {
            c = if c & 1 == 1 {
                (c >> 1) ^ CRC32_POLYNOMIAL
            } else {
                c >> 1
            };
            j = j + 1;
        }
        proof {
            assert(data@.take(i + 1).drop_last() == data@.take(i as int));
        }
        register = c;
        i = i + 1;
    }
    proof {
        assert(data@.take(i as int) == data@);
    }
    register ^ 0xFFFF_FFFF
}

} // verus!
