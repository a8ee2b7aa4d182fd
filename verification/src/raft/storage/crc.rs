//! The checksum of records: CRC-32C, and that it finds every changed byte.

use vstd::prelude::*;

verus! {

/// The Castagnoli polynomial, its lowest power first.
pub const POLYNOMIAL: u32 = 0x82F6_3B78;

/// One step of the division by the polynomial.
pub open spec fn divided_once(register: u32) -> u32 {
    if register & 1 == 1 {
        (register >> 1) ^ POLYNOMIAL
    } else {
        register >> 1
    }
}

/// As many steps of the division.
pub open spec fn divided(register: u32, steps: nat) -> u32
    decreases steps,
{
    if steps == 0 {
        register
    } else {
        divided_once(divided(register, (steps - 1) as nat))
    }
}

/// The remainder after the bytes, each with its lowest bit first.
pub open spec fn remainder(register: u32, data: Seq<u8>) -> u32
    decreases data.len(),
{
    if data.len() == 0 {
        register
    } else {
        divided(remainder(register, data.drop_last()) ^ (data.last() as u32), 8)
    }
}

/// The CRC-32C of bytes that follow others whose CRC-32C is `crc`. That of no
/// bytes is zero.
#[verifier::opaque]
pub open spec fn crc32c_of(crc: u32, data: Seq<u8>) -> u32 {
    !remainder(!crc, data)
}

/// Calls `crc32c::crc32c`. Trusted: it is the CRC-32C of the bytes.
#[verifier::external_body]
pub(crate) fn crc32c(data: &[u8]) -> (r: u32)
    ensures
        r == crc32c_of(0, data@),
{
    crc32c::crc32c(data)
}

/// Calls `crc32c::crc32c_append`. Trusted: it is the CRC-32C of what `crc` is the
/// CRC-32C of, followed by the bytes.
#[verifier::external_body]
pub(crate) fn crc32c_append(crc: u32, data: &[u8]) -> (r: u32)
    ensures
        r == crc32c_of(crc, data@),
{
    crc32c::crc32c_append(crc, data)
}

// ── Laws ────────────────────────────────────────────────────────────────────

/// No two registers divide to the same.
proof fn lemma_divided_apart(a: u32, b: u32, steps: nat)
    requires
        a != b,
    ensures
        divided(a, steps) != divided(b, steps),
    decreases steps,
{
    if steps > 0 {
        lemma_divided_apart(a, b, (steps - 1) as nat);
        let x = divided(a, (steps - 1) as nat);
        let y = divided(b, (steps - 1) as nat);
        assert(divided_once(x) != divided_once(y)) by (bit_vector)
            requires
                x != y,
        ;
    }
}

proof fn lemma_remainders_apart(a: u32, b: u32, data: Seq<u8>)
    requires
        a != b,
    ensures
        remainder(a, data) != remainder(b, data),
    decreases data.len(),
{
    if data.len() > 0 {
        lemma_remainders_apart(a, b, data.drop_last());
        let x = remainder(a, data.drop_last());
        let y = remainder(b, data.drop_last());
        let last = data.last() as u32;
        assert(x ^ last != y ^ last) by (bit_vector)
            requires
                x != y,
        ;
        lemma_divided_apart(x ^ last, y ^ last, 8);
    }
}

/// Bytes that follow others with another checksum have another checksum.
pub proof fn law_checksum_goes_on(a: u32, b: u32, data: Seq<u8>)
    requires
        a != b,
    ensures
        crc32c_of(a, data) != crc32c_of(b, data),
{
    reveal(crc32c_of);
    assert(!a != !b) by (bit_vector)
        requires
            a != b,
    ;
    lemma_remainders_apart(!a, !b, data);
    let x = remainder(!a, data);
    let y = remainder(!b, data);
    assert(!x != !y) by (bit_vector)
        requires
            x != y,
    ;
}

proof fn lemma_changed_remainder(register: u32, data: Seq<u8>, at: int, byte: u8)
    requires
        0 <= at < data.len(),
        data[at] != byte,
    ensures
        remainder(register, data.update(at, byte)) != remainder(register, data),
    decreases data.len(),
{
    let changed = data.update(at, byte);
    let x = remainder(register, data.drop_last());
    let y = remainder(register, changed.drop_last());
    if at == data.len() - 1 {
        assert(changed.drop_last() =~= data.drop_last());
        let was = data.last();
        assert(x ^ (was as u32) != x ^ (byte as u32)) by (bit_vector)
            requires
                was != byte,
        ;
        lemma_divided_apart(x ^ (was as u32), x ^ (byte as u32), 8);
    } else {
        assert(changed.drop_last() =~= data.drop_last().update(at, byte));
        lemma_changed_remainder(register, data.drop_last(), at, byte);
        let last = data.last() as u32;
        assert(x ^ last != y ^ last) by (bit_vector)
            requires
                x != y,
        ;
        lemma_divided_apart(x ^ last, y ^ last, 8);
    }
}

/// One changed byte changes the checksum.
pub proof fn law_changed_byte_changes_the_checksum(crc: u32, data: Seq<u8>, at: int, byte: u8)
    requires
        0 <= at < data.len(),
        data[at] != byte,
    ensures
        crc32c_of(crc, data.update(at, byte)) != crc32c_of(crc, data),
{
    reveal(crc32c_of);
    lemma_changed_remainder(!crc, data, at, byte);
    let x = remainder(!crc, data);
    let y = remainder(!crc, data.update(at, byte));
    assert(!x != !y) by (bit_vector)
        requires
            x != y,
    ;
}

} // verus!
