//! Content fingerprints: a 64-bit FNV-1a digest over an image's header,
//! the policies it is processed under, and its texels.

use vstd::prelude::*;
use crate::bytes::{le32, push_le32};
use crate::image::{ImageAsset, ImageModel};
use crate::settings::MipmapGeneratorSettings;

verus! {

/// The FNV-1a offset basis for 64-bit digests.
pub const FNV_OFFSET: u64 = 0xcbf2_9ce4_8422_2325;

/// The FNV-1a prime for 64-bit digests.
pub const FNV_PRIME: u64 = 0x0000_0100_0000_01b3;

/// One round of FNV-1a: fold the byte in, then multiply modulo 2^64.
pub open spec fn fnv_step(state: u64, byte: u8) -> u64 {
    (state ^ (byte as u64)).wrapping_mul(FNV_PRIME)
}

/// The digest state after absorbing `bytes` in order, starting from `state`.
pub open spec fn fnv_fold(state: u64, bytes: Seq<u8>) -> u64
    decreases bytes.len(),
{
    if bytes.len() == 0 {
        state
    } else {
        fnv_step(fnv_fold(state, bytes.drop_last()), bytes.last())
    }
}

/// Absorbing two runs of bytes one after the other is absorbing their
/// concatenation.
pub proof fn lemma_fold_concat(state: u64, a: Seq<u8>, b: Seq<u8>)
    ensures
        fnv_fold(state, a + b) == fnv_fold(fnv_fold(state, a), b),
    decreases b.len(),
{
    if b.len() == 0 {
        assert(a + b =~= a);
    } else {
        lemma_fold_concat(state, a, b.drop_last());
        assert((a + b).drop_last() =~= a + b.drop_last());
    }
}

/// Absorbs `bytes` into a running digest.
pub fn absorb(state: u64, bytes: &Vec<u8>) -> (out: u64)
    ensures
        out == fnv_fold(state, bytes@),
{
    let mut h: u64 = state;
    let mut i: usize = 0;
    while i < bytes.len()
        invariant
            i <= bytes.len(),
            h == fnv_fold(state, bytes@.take(i as int)),
        decreases bytes.len() - i,
    {
        proof {
            assert(bytes@.take(i + 1).drop_last() == bytes@.take(i as int));
        }
        h = (h ^ (bytes[i] as u64)).wrapping_mul(FNV_PRIME);
        i += 1;
    }
    proof {
        assert(bytes@.take(i as int) == bytes@);
    }
    h
}

/// The digest of `bytes` alone.
pub open spec fn digest_of(bytes: Seq<u8>) -> u64 {
    fnv_fold(FNV_OFFSET, bytes)
}

/// The byte that stands for the compression policy: 0 when compression is
/// off, else the rank of the speed.
pub open spec fn compression_byte(settings: MipmapGeneratorSettings) -> u8 {
    match settings.compression {
        Some(speed) => speed.rank(),
        None => 0,
    }
}

/// What the digest absorbs before the texels: the image's dimensions and
/// format, then the mipmap policy, then the compression policy.
pub open spec fn fingerprint_header(image: ImageModel, settings: MipmapGeneratorSettings) -> Seq<
    u8,
> {
    le32(image.width) + le32(image.height) + seq![image.format.tag()] + le32(
        settings.level_limit as int,
    ) + seq![
        compression_byte(settings),
        if settings.low_quality {
            1u8
        } else {
            0u8
        },
    ]
}

/// The fingerprint of `image` when processed under `settings`.
pub open spec fn fingerprint_value(image: ImageModel, settings: MipmapGeneratorSettings) -> u64 {
    fnv_fold(digest_of(fingerprint_header(image, settings)), image.data)
}

/// The key of a cache entry.
#[derive(Clone, Copy, PartialEq, Eq, Structural, Debug, Hash)]
pub struct ContentFingerprint {
    pub value: u64,
}

/// The ASCII digit for a value below sixteen, lower case.
pub open spec fn hex_digit(nibble: int) -> u8 {
    if nibble < 10 {
        (48 + nibble) as u8
    } else {
        (87 + nibble) as u8
    }
}

/// The last `n` hexadecimal digits of `v`, most significant first.
pub open spec fn hex_digits(v: int, n: nat) -> Seq<u8>
    decreases n,
{
    if n == 0 {
        Seq::empty()
    } else {
        hex_digits(v / 16, (n - 1) as nat).push(hex_digit(v % 16))
    }
}

/// The value of an ASCII hexadecimal digit, lower case only.
pub open spec fn digit_value(digit: u8) -> Option<int> {
    if 48 <= digit <= 57 {
        Some(digit - 48)
    } else if 97 <= digit <= 102 {
        Some(digit - 87)
    } else {
        None
    }
}

/// The number that `digits` spell, most significant first, or `None` where
/// one of them is no lower-case hexadecimal digit.
pub open spec fn hex_value(digits: Seq<u8>) -> Option<int>
    decreases digits.len(),
{
    if digits.len() == 0 {
        Some(0)
    } else {
        match (hex_value(digits.drop_last()), digit_value(digits.last())) {
            (Some(high), Some(low)) => Some(high * 16 + low),
            _ => None,
        }
    }
}

/// Sixteen to the power `n`.
pub open spec fn pow16(n: nat) -> int
    decreases n,
{
    if n == 0 {
        1
    } else {
        16 * pow16((n - 1) as nat)
    }
}

proof fn lemma_hex_digits_len(v: int, n: nat)
    ensures
        hex_digits(v, n).len() == n,
    decreases n,
{
    if n > 0 {
        lemma_hex_digits_len(v / 16, (n - 1) as nat);
    }
}

/// The digits of a number spell that number.
pub proof fn lemma_hex_round_trip(v: int, n: nat)
    requires
        0 <= v < pow16(n),
    ensures
        hex_digits(v, n).len() == n,
        hex_value(hex_digits(v, n)) == Some(v),
    decreases n,
{
    lemma_hex_digits_len(v, n);
    if n > 0 {
        lemma_hex_round_trip(v / 16, (n - 1) as nat);
        assert(hex_digits(v, n).drop_last() =~= hex_digits(v / 16, (n - 1) as nat));
    }
}

proof fn lemma_hex_value_bound(digits: Seq<u8>)
    requires
        hex_value(digits).is_some(),
    ensures
        0 <= hex_value(digits).unwrap() < pow16(digits.len()),
    decreases digits.len(),
{
    if digits.len() > 0 {
        lemma_hex_value_bound(digits.drop_last());
    }
}

proof fn lemma_pow16_sixteen()
    ensures
        pow16(16) == 0x1_0000_0000_0000_0000,
        pow16(15) == 0x1000_0000_0000_0000,
{
    reveal_with_fuel(pow16, 17);
}

proof fn lemma_pow16_monotonic(a: nat, b: nat)
    requires
        a <= b,
    ensures
        0 < pow16(a) <= pow16(b),
    decreases b,
{
    if b > 0 {
        if a < b {
            lemma_pow16_monotonic(a, (b - 1) as nat);
        } else {
            lemma_pow16_monotonic((a - 1) as nat, (b - 1) as nat);
        }
    }
}

fn push_hex(out: &mut Vec<u8>, v: u64, n: u32)
    ensures
        final(out)@ == old(out)@ + hex_digits(v as int, n as nat),
    decreases n,
{
    if n == 0 {
        assert(out@ =~= old(out)@ + hex_digits(v as int, 0));
    } else {
        push_hex(out, v / 16, n - 1);
        let nibble: u8 = (v % 16) as u8;
        out.push(if nibble < 10 { 48 + nibble } else { 87 + nibble });
        assert(out@ =~= old(out)@ + hex_digits(v as int, n as nat));
    }
}

impl ContentFingerprint {
    /// The number of digits in the name of an entry.
    pub const HEX_LEN: usize = 16;

    /// The name of the entry for this fingerprint: its sixteen hexadecimal
    /// digits in ASCII, lower case, most significant first.
    pub fn to_hex(&self) -> (digits: Vec<u8>)
        ensures
            digits@ == hex_digits(self.value as int, 16),
            digits.len() == 16,
            hex_value(digits@) == Some(self.value as int),
    {
        let mut digits: Vec<u8> = Vec::new();
        push_hex(&mut digits, self.value, 16);
        proof {
            assert(digits@ =~= hex_digits(self.value as int, 16));
            lemma_pow16_sixteen();
            lemma_hex_round_trip(self.value as int, 16);
        }
        digits
    }

    /// The fingerprint that a name stands for: `None` unless the name is
    /// sixteen lower-case hexadecimal digits.
    pub fn from_hex(digits: &Vec<u8>) -> (fingerprint: Option<ContentFingerprint>)
        ensures
            fingerprint.is_some() <==> digits.len() == 16 && hex_value(digits@).is_some(),
            fingerprint.is_some() ==> hex_value(digits@) == Some(
                fingerprint.unwrap().value as int,
            ),
    {
        if digits.len() != 16 {
            return None;
        }
        let mut value: u64 = 0;
        let mut i: usize = 0;
        while i < 16
            invariant
                digits.len() == 16,
                i <= 16,
                hex_value(digits@.take(i as int)) == Some(value as int),
            decreases 16 - i,
        {
            let d = digits[i];
            let ghost prefix = digits@.take(i as int);
            let ghost longer = digits@.take(i + 1);
            proof {
                assert(longer.drop_last() =~= prefix);
                assert(longer.last() == d);
                lemma_hex_value_bound(prefix);
                lemma_pow16_monotonic(i as nat, 15);
                lemma_pow16_sixteen();
            }
            let low: u64 = if 48 <= d && d <= 57 {
                (d - 48) as u64
            } else if 97 <= d && d <= 102 {
                (d - 87) as u64
            } else {
                proof {
                    lemma_none_stays_none(digits@, i + 1);
                }
                return None;
            };
            value = value * 16 + low;
            i += 1;
        }
        proof {
            assert(digits@.take(16) =~= digits@);
        }
        Some(ContentFingerprint { value })
    }
}

proof fn lemma_none_stays_none(digits: Seq<u8>, n: int)
    requires
        0 <= n <= digits.len(),
        hex_value(digits.take(n)).is_none(),
    ensures
        hex_value(digits).is_none(),
    decreases digits.len() - n,
{
    if n < digits.len() {
        assert(digits.take(n + 1).drop_last() =~= digits.take(n));
        lemma_none_stays_none(digits, n + 1);
    } else {
        assert(digits.take(n) =~= digits);
    }
}

/// Computes the fingerprint of `image` under `settings`: the cache key of
/// what processing will make of it.
pub fn fingerprint(image: &ImageAsset, settings: &MipmapGeneratorSettings) -> (key:
    ContentFingerprint)
    ensures
        key.value == fingerprint_value(image@, *settings),
{
    let mut header: Vec<u8> = Vec::new();
    push_le32(&mut header, image.width());
    push_le32(&mut header, image.height());
    header.push(image.format().tag());
    push_le32(&mut header, settings.level_limit);
    header.push(
        match settings.compression {
            Some(speed) => speed.rank(),
            None => 0,
        },
    );
    header.push(if settings.low_quality { 1 } else { 0 });
    proof {
        crate::bytes::lemma_le_len(image@.width);
        crate::bytes::lemma_le_len(image@.height);
        crate::bytes::lemma_le_len(settings.level_limit as int);
        assert(header@ =~= fingerprint_header(image@, *settings));
    }
    let state = absorb(FNV_OFFSET, &header);
    ContentFingerprint { value: absorb(state, image.data()) }
}

} // verus!
