//! Big-endian integers in byte strings.

use byteorder::{BigEndian, ByteOrder};
use vstd::prelude::*;

verus! {

/// The number of values that `len` bytes can hold: 256 to the power `len`.
pub open spec fn radix(len: nat) -> nat
    decreases len,
{
    if len == 0 {
        1
    } else {
        256 * radix((len - 1) as nat)
    }
}

/// The number that the bytes of `s` spell, most significant byte first.
pub open spec fn be_value(s: Seq<u8>) -> nat
    decreases s.len(),
{
    if s.len() == 0 {
        0
    } else {
        be_value(s.drop_last()) * 256 + s.last() as nat
    }
}

/// The `len` low-order base-256 digits of `n`, most significant first.
pub open spec fn be_bytes(n: nat, len: nat) -> Seq<u8>
    decreases len,
{
    if len == 0 {
        Seq::empty()
    } else {
        be_bytes(n / 256, (len - 1) as nat).push((n % 256) as u8)
    }
}

/// `bytes` with the stretch that starts at `at` replaced by `patch`.
pub open spec fn splice(bytes: Seq<u8>, at: int, patch: Seq<u8>) -> Seq<u8> {
    bytes.subrange(0, at) + patch + bytes.subrange(at + patch.len(), bytes.len() as int)
}

/// Writing a number out in `len` bytes and reading it back gives the number,
/// as long as it fits in `len` bytes.
pub proof fn lemma_be_round_trip(n: nat, len: nat)
    requires
        n < radix(len),
    ensures
        be_bytes(n, len).len() == len,
        be_value(be_bytes(n, len)) == n,
    decreases len,
{
    if len > 0 {
        let rest = be_bytes(n / 256, (len - 1) as nat);
        lemma_be_round_trip(n / 256, (len - 1) as nat);
        assert(be_bytes(n, len).drop_last() =~= rest);
    }
}

/// `be_bytes` always gives `len` bytes.
pub proof fn lemma_be_bytes_len(n: nat, len: nat)
    ensures
        be_bytes(n, len).len() == len,
    decreases len,
{
    if len > 0 {
        lemma_be_bytes_len(n / 256, (len - 1) as nat);
    }
}

/// Every `u32` fits in four bytes and every `u64` in eight.
pub proof fn lemma_radix_widths()
    ensures
        radix(4) == 0x1_0000_0000,
        radix(8) == 0x1_0000_0000_0000_0000,
{
    reveal_with_fuel(radix, 9);
}

/// Splicing the same patch in twice is splicing it in once.
pub proof fn lemma_splice_idempotent(bytes: Seq<u8>, at: int, patch: Seq<u8>)
    requires
        0 <= at,
        at + patch.len() <= bytes.len(),
    ensures
        splice(splice(bytes, at, patch), at, patch) == splice(bytes, at, patch),
        splice(bytes, at, patch).len() == bytes.len(),
        splice(bytes, at, patch).subrange(at, at + patch.len()) == patch,
{
    let once = splice(bytes, at, patch);
    assert(splice(once, at, patch) =~= once);
    assert(once.subrange(at, at + patch.len()) =~= patch);
}

/// `byteorder::BigEndian::read_u32`: the first four bytes of `buf` read as a
/// big-endian number. The outside function panics on fewer than four bytes.
#[verifier::external_body]
pub(crate) fn read_u32(buf: &[u8]) -> (n: u32)
    requires
        buf@.len() >= 4,
    ensures
        n as nat == be_value(buf@.subrange(0, 4)),
{
    BigEndian::read_u32(buf)
}

/// `byteorder::BigEndian::read_u64`: the first eight bytes of `buf` read as a
/// big-endian number. The outside function panics on fewer than eight bytes.
#[verifier::external_body]
pub(crate) fn read_u64(buf: &[u8]) -> (n: u64)
    requires
        buf@.len() >= 8,
    ensures
        n as nat == be_value(buf@.subrange(0, 8)),
{
    BigEndian::read_u64(buf)
}

/// `byteorder::BigEndian::write_u32`: the first four bytes of `buf` become
/// `n`, most significant byte first, and no other byte changes. The outside
/// function panics on fewer than four bytes.
#[verifier::external_body]
pub(crate) fn write_u32(buf: &mut [u8], n: u32)
    requires
        old(buf)@.len() >= 4,
    ensures
        final(buf)@ == splice(old(buf)@, 0, be_bytes(n as nat, 4)),
{
    BigEndian::write_u32(buf, n)
}

/// `byteorder::BigEndian::write_u64`: the first eight bytes of `buf` become
/// `n`, most significant byte first, and no other byte changes. The outside
/// function panics on fewer than eight bytes.
#[verifier::external_body]
pub(crate) fn write_u64(buf: &mut [u8], n: u64)
    requires
        old(buf)@.len() >= 8,
    ensures
        final(buf)@ == splice(old(buf)@, 0, be_bytes(n as nat, 8)),
{
    BigEndian::write_u64(buf, n)
}

} // verus!
