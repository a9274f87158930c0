//! Little-endian integers in byte sequences.

use vstd::prelude::*;

verus! {

/// The four bytes of `v`, least significant first.
#[verifier::opaque]
pub open spec fn le32(v: int) -> Seq<u8> {
    seq![
        (v % 256) as u8,
        (v / 0x100 % 256) as u8,
        (v / 0x1_0000 % 256) as u8,
        (v / 0x100_0000 % 256) as u8,
    ]
}

/// The number that four bytes starting at `at` spell, least significant first.
pub open spec fn le32_at(bytes: Seq<u8>, at: int) -> int {
    bytes[at] as int + 0x100 * (bytes[at + 1] as int) + 0x1_0000 * (bytes[at + 2] as int)
        + 0x100_0000 * (bytes[at + 3] as int)
}

/// The eight bytes of `v`, least significant first.
#[verifier::opaque]
pub open spec fn le64(v: int) -> Seq<u8> {
    le32(v % 0x1_0000_0000) + le32(v / 0x1_0000_0000)
}

/// The number that eight bytes starting at `at` spell, least significant first.
pub open spec fn le64_at(bytes: Seq<u8>, at: int) -> int {
    le32_at(bytes, at) + 0x1_0000_0000 * le32_at(bytes, at + 4)
}

/// `le32` gives four bytes and `le64` eight.
pub proof fn lemma_le_len(v: int)
    ensures
        le32(v).len() == 4,
        le64(v).len() == 8,
{
    reveal(le32);
    reveal(le64);
}

/// Reading back what `le32` wrote gives the number again.
pub proof fn lemma_le32_round_trip(v: int, bytes: Seq<u8>, at: int)
    requires
        0 <= v <= u32::MAX,
        0 <= at,
        at + 4 <= bytes.len(),
        bytes.subrange(at, at + 4) == le32(v),
    ensures
        le32_at(bytes, at) == v,
{
    reveal(le32);
    let part = bytes.subrange(at, at + 4);
    assert(part[0] == bytes[at]);
    assert(part[1] == bytes[at + 1]);
    assert(part[2] == bytes[at + 2]);
    assert(part[3] == bytes[at + 3]);
}

/// Reading back what `le64` wrote gives the number again.
pub proof fn lemma_le64_round_trip(v: int, bytes: Seq<u8>, at: int)
    requires
        0 <= v <= u64::MAX,
        0 <= at,
        at + 8 <= bytes.len(),
        bytes.subrange(at, at + 8) == le64(v),
    ensures
        le64_at(bytes, at) == v,
{
    reveal(le64);
    lemma_le_len(v % 0x1_0000_0000);
    lemma_le_len(v / 0x1_0000_0000);
    let part = bytes.subrange(at, at + 8);
    let low = le32(v % 0x1_0000_0000);
    let high = le32(v / 0x1_0000_0000);
    assert(bytes.subrange(at, at + 4) =~= low) by {
        assert forall|i: int| 0 <= i < 4 implies bytes.subrange(at, at + 4)[i] == low[i] by {
            assert(part[i] == bytes[at + i]);
            assert(part[i] == (low + high)[i]);
        }
    }
    assert(bytes.subrange(at + 4, at + 8) =~= high) by {
        assert forall|i: int| 0 <= i < 4 implies bytes.subrange(at + 4, at + 8)[i] == high[i] by {
            assert(part[i + 4] == bytes[at + 4 + i]);
            assert(part[i + 4] == (low + high)[i + 4]);
        }
    }
    lemma_le32_round_trip(v % 0x1_0000_0000, bytes, at);
    lemma_le32_round_trip(v / 0x1_0000_0000, bytes, at + 4);
}

/// Appends `v` to `out`, least significant byte first.
pub fn push_le32(out: &mut Vec<u8>, v: u32)
    ensures
        final(out)@ == old(out)@ + le32(v as int),
{
    out.push((v % 256) as u8);
    out.push((v / 0x100 % 256) as u8);
    out.push((v / 0x1_0000 % 256) as u8);
    out.push((v / 0x100_0000 % 256) as u8);
    assert(out@ =~= old(out)@ + le32(v as int)) by {
        reveal(le32);
    }
}

/// Appends `v` to `out`, least significant byte first.
pub fn push_le64(out: &mut Vec<u8>, v: u64)
    ensures
        final(out)@ == old(out)@ + le64(v as int),
{
    push_le32(out, (v % 0x1_0000_0000) as u32);
    push_le32(out, (v / 0x1_0000_0000) as u32);
    assert(out@ =~= old(out)@ + le64(v as int)) by {
        reveal(le64);
    }
}

/// Reads four bytes at `at`, least significant first.
pub fn read_le32(bytes: &Vec<u8>, at: usize) -> (v: u32)
    requires
        at + 4 <= bytes.len(),
    ensures
        v == le32_at(bytes@, at as int),
{
    (bytes[at] as u32) + 0x100 * (bytes[at + 1] as u32) + 0x1_0000 * (bytes[at + 2] as u32)
        + 0x100_0000 * (bytes[at + 3] as u32)
}

/// Reads eight bytes at `at`, least significant first.
pub fn read_le64(bytes: &Vec<u8>, at: usize) -> (v: u64)
    requires
        at + 8 <= bytes.len(),
    ensures
        v == le64_at(bytes@, at as int),
{
    (read_le32(bytes, at) as u64) + 0x1_0000_0000 * (read_le32(bytes, at + 4) as u64)
}

/// Appends a copy of `src` to `out`.
pub fn push_all(out: &mut Vec<u8>, src: &Vec<u8>)
    ensures
        final(out)@ == old(out)@ + src@,
{
    let mut i: usize = 0;
    while i < src.len()
        invariant
            i <= src.len(),
            out@ == old(out)@ + src@.take(i as int),
        decreases src.len() - i,
    {
        out.push(src[i]);
        i += 1;
        assert(out@ =~= old(out)@ + src@.take(i as int));
    }
    assert(src@.take(i as int) =~= src@);
}

/// Whether two buffers hold the same bytes.
pub fn same_bytes(a: &Vec<u8>, b: &Vec<u8>) -> (same: bool)
    ensures
        same == (a@ == b@),
{
    if a.len() != b.len() {
        return false;
    }
    let mut i: usize = 0;
    while i < a.len()
        invariant
            a.len() == b.len(),
            i <= a.len(),
            forall|j: int| 0 <= j < i ==> a[j] == b[j],
        decreases a.len() - i,
    {
        if a[i] != b[i] {
            return false;
        }
        i += 1;
    }
    assert(a@ =~= b@);
    true
}

} // verus!
