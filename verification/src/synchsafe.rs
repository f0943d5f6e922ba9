//! Synchsafe integers: 28 payload bits spread over four bytes whose top bit is clear.

use vstd::prelude::*;

verus! {

/// Whether every byte of `n` has its top bit clear.
pub open spec fn is_synchsafe(n: u32) -> bool {
    n & 0x8080_8080u32 == 0
}

/// The synchsafe form of the low 28 bits of `n`.
pub open spec fn spec_synchsafe(n: u32) -> u32 {
    (n & 0x7Fu32) | ((n & 0x3F80u32) << 1u32) | ((n & 0x1F_C000u32) << 2u32) | ((n & 0x0FE0_0000u32)
        << 3u32)
}

/// The ordinary value of the 28 payload bits of `n`.
pub open spec fn spec_unsynchsafe(n: u32) -> u32 {
    (n & 0x7Fu32) | ((n & 0x7F00u32) >> 1u32) | ((n & 0x7F_0000u32) >> 2u32) | ((n & 0x7F00_0000u32)
        >> 3u32)
}

/// Packs the low 28 bits of `n` into synchsafe form; higher bits are dropped.
pub fn synchsafe(n: u32) -> (r: u32)
    ensures
        r == spec_synchsafe(n),
        is_synchsafe(r),
{
    let r: u32 = (n & 0x7F) | ((n & 0x3F80) << 1) | ((n & 0x1F_C000) << 2) | ((n & 0x0FE0_0000) << 3);
    assert(is_synchsafe(spec_synchsafe(n))) by {
        lemma_synchsafe_is_synchsafe(n);
    }
    r
}

/// Unpacks the 28 payload bits of `n`; the top bit of each byte is ignored.
pub fn unsynchsafe(n: u32) -> (r: u32)
    ensures
        r == spec_unsynchsafe(n),
        r < 0x1000_0000,
{
    let r: u32 = (n & 0x7F) | ((n & 0x7F00) >> 1) | ((n & 0x7F_0000) >> 2) | ((n & 0x7F00_0000) >> 3);
    assert(spec_unsynchsafe(n) < 0x1000_0000) by {
        lemma_unsynchsafe_bound(n);
    }
    r
}

/// The packed form never sets the top bit of a byte.
pub proof fn lemma_synchsafe_is_synchsafe(n: u32)
    ensures
        is_synchsafe(spec_synchsafe(n)),
{
    assert(((n & 0x7Fu32) | ((n & 0x3F80u32) << 1u32) | ((n & 0x1F_C000u32) << 2u32) | ((n
        & 0x0FE0_0000u32) << 3u32)) & 0x8080_8080u32 == 0) by (bit_vector);
}

/// The unpacked value always fits in 28 bits.
pub proof fn lemma_unsynchsafe_bound(n: u32)
    ensures
        spec_unsynchsafe(n) < 0x1000_0000,
{
    assert(((n & 0x7Fu32) | ((n & 0x7F00u32) >> 1u32) | ((n & 0x7F_0000u32) >> 2u32) | ((n
        & 0x7F00_0000u32) >> 3u32)) < 0x1000_0000u32) by (bit_vector);
}

/// Packing the unpacked value of a synchsafe integer gives that integer back.
pub proof fn lemma_synchsafe_of_unsynchsafe(x: u32)
    requires
        is_synchsafe(x),
    ensures
        spec_synchsafe(spec_unsynchsafe(x)) == x,
{
    assert(x & 0x8080_8080u32 == 0 ==> ({
        let y = (x & 0x7Fu32) | ((x & 0x7F00u32) >> 1u32) | ((x & 0x7F_0000u32) >> 2u32) | ((x
            & 0x7F00_0000u32) >> 3u32);
        (y & 0x7Fu32) | ((y & 0x3F80u32) << 1u32) | ((y & 0x1F_C000u32) << 2u32) | ((y
            & 0x0FE0_0000u32) << 3u32)
    }) == x) by (bit_vector);
}

/// Unpacking the packed form of a value below 2^28 gives that value back.
pub proof fn lemma_unsynchsafe_of_synchsafe(y: u32)
    requires
        y < 0x1000_0000,
    ensures
        spec_unsynchsafe(spec_synchsafe(y)) == y,
{
    assert(y < 0x1000_0000u32 ==> ({
        let x = (y & 0x7Fu32) | ((y & 0x3F80u32) << 1u32) | ((y & 0x1F_C000u32) << 2u32) | ((y
            & 0x0FE0_0000u32) << 3u32);
        (x & 0x7Fu32) | ((x & 0x7F00u32) >> 1u32) | ((x & 0x7F_0000u32) >> 2u32) | ((x
            & 0x7F00_0000u32) >> 3u32)
    }) == y) by (bit_vector);
}

} // verus!
