//! The compression cache: processed payloads framed as bytes and kept under
//! the fingerprint of what they were made from.

use vstd::prelude::*;
use std::collections::HashMap;
use crate::bytes::{le32, le32_at, le64, le64_at, push_all, push_le32, push_le64, read_le32, read_le64, same_bytes};
use crate::bytes::{lemma_le32_round_trip, lemma_le64_round_trip};
use crate::fingerprint::ContentFingerprint;
use crate::image::{Encoding, LevelModel, MipLevel, PayloadModel, TexturePayload, level_models};
use crate::settings::MipmapGeneratorSettings;

verus! {

/// The four bytes that every entry starts with.
pub open spec fn entry_magic() -> Seq<u8> {
    seq![0x4du8, 0x49u8, 0x50u8, 0x43u8]
}

/// The number of bytes before the first level of an entry: the magic, the
/// layout's tag, and the number of levels.
pub const ENTRY_HEADER: usize = 13;

/// The number of bytes before the data of a level: width, height, length.
pub const LEVEL_HEADER: usize = 16;

/// One level as bytes: width, height and data length, then the data.
pub open spec fn level_bytes(level: LevelModel) -> Seq<u8> {
    le32(level.width) + le32(level.height) + le64(level.data.len() as int) + level.data
}

/// A run of levels as bytes, one after the other.
pub open spec fn levels_bytes(levels: Seq<LevelModel>) -> Seq<u8>
    decreases levels.len(),
{
    if levels.len() == 0 {
        Seq::empty()
    } else {
        level_bytes(levels[0]) + levels_bytes(levels.skip(1))
    }
}

/// A payload as the bytes of a cache entry.
pub open spec fn entry_bytes(payload: PayloadModel) -> Seq<u8> {
    entry_magic() + seq![payload.encoding.tag()] + le64(payload.levels.len() as int) + levels_bytes(
        payload.levels,
    )
}

/// The `count` levels that `bytes` hold and nothing else, or `None` where
/// they do not.
pub open spec fn parsed_levels(bytes: Seq<u8>, count: nat) -> Option<Seq<LevelModel>>
    decreases count,
{
    if count == 0 {
        if bytes.len() == 0 {
            Some(Seq::empty())
        } else {
            None
        }
    } else if bytes.len() < 16 || bytes.len() - 16 < le64_at(bytes, 8) {
        None
    } else {
        let end = 16 + le64_at(bytes, 8);
        let level = LevelModel {
            width: le32_at(bytes, 0),
            height: le32_at(bytes, 4),
            data: bytes.subrange(16, end),
        };
        match parsed_levels(bytes.skip(end), (count - 1) as nat) {
            Some(rest) => Some(seq![level] + rest),
            None => None,
        }
    }
}

/// The payload that the bytes of an entry hold, or `None` where they are no
/// entry: a wrong magic, an unknown layout, levels cut short, or bytes left
/// over.
pub open spec fn parsed_entry(bytes: Seq<u8>) -> Option<PayloadModel> {
    if bytes.len() < 13 || bytes.subrange(0, 4) != entry_magic() {
        None
    } else {
        match (Encoding::of_tag(bytes[4]), parsed_levels(bytes.skip(13), le64_at(bytes, 5) as nat)) {
            (Some(encoding), Some(levels)) => Some(PayloadModel { encoding, levels }),
            _ => None,
        }
    }
}

/// A level whose numbers fit the fields of an entry.
pub open spec fn level_fits(level: LevelModel) -> bool {
    &&& 0 <= level.width <= u32::MAX
    &&& 0 <= level.height <= u32::MAX
    &&& level.data.len() <= u64::MAX
}

/// A payload whose numbers fit the fields of an entry. Every payload held
/// in memory does.
pub open spec fn payload_fits(payload: PayloadModel) -> bool {
    &&& payload.levels.len() <= u64::MAX
    &&& forall|k: int| 0 <= k < payload.levels.len() ==> level_fits(#[trigger] payload.levels[k])
}

proof fn lemma_levels_bytes_push(levels: Seq<LevelModel>, level: LevelModel)
    ensures
        levels_bytes(levels.push(level)) == levels_bytes(levels) + level_bytes(level),
    decreases levels.len(),
{
    let longer = levels.push(level);
    if levels.len() == 0 {
        assert(longer.skip(1) =~= Seq::<LevelModel>::empty());
        assert(levels_bytes(longer.skip(1)) =~= Seq::<u8>::empty());
        assert(levels_bytes(longer) =~= level_bytes(level));
        assert(levels_bytes(levels) + level_bytes(level) =~= level_bytes(level));
    } else {
        lemma_levels_bytes_push(levels.skip(1), level);
        assert(longer.skip(1) =~= levels.skip(1).push(level));
        assert(levels_bytes(longer) =~= levels_bytes(levels) + level_bytes(level));
    }
}

proof fn lemma_level_header(level: LevelModel, tail: Seq<u8>)
    requires
        level_fits(level),
    ensures
        (level_bytes(level) + tail).len() == 16 + level.data.len() + tail.len(),
        le32_at(level_bytes(level) + tail, 0) == level.width,
        le32_at(level_bytes(level) + tail, 4) == level.height,
        le64_at(level_bytes(level) + tail, 8) == level.data.len(),
        (level_bytes(level) + tail).subrange(16, 16 + level.data.len() as int) == level.data,
        (level_bytes(level) + tail).skip(16 + level.data.len() as int) == tail,
{
    let n = level.data.len() as int;
    let bytes = level_bytes(level) + tail;
    let a = le32(level.width);
    let b = le32(level.height);
    let c = le64(n);
    crate::bytes::lemma_le_len(level.width);
    crate::bytes::lemma_le_len(level.height);
    crate::bytes::lemma_le_len(n);
    assert(bytes =~= a + b + c + level.data + tail);
    assert(bytes.subrange(0, 4) =~= a);
    assert(bytes.subrange(4, 8) =~= b);
    assert(bytes.subrange(8, 16) =~= c);
    lemma_le32_round_trip(level.width, bytes, 0);
    lemma_le32_round_trip(level.height, bytes, 4);
    lemma_le64_round_trip(n, bytes, 8);
    assert(bytes.subrange(16, 16 + n) =~= level.data);
    assert(bytes.skip(16 + n) =~= tail);
}

proof fn lemma_levels_round_trip(levels: Seq<LevelModel>)
    requires
        forall|k: int| 0 <= k < levels.len() ==> level_fits(#[trigger] levels[k]),
    ensures
        parsed_levels(levels_bytes(levels), levels.len()) == Some(levels),
    decreases levels.len(),
{
    if levels.len() > 0 {
        let first = levels[0];
        let rest = levels.skip(1);
        assert(level_fits(first));
        assert forall|k: int| 0 <= k < rest.len() implies level_fits(#[trigger] rest[k]) by {
            assert(rest[k] == levels[k + 1]);
        }
        lemma_levels_round_trip(rest);
        lemma_level_header(first, levels_bytes(rest));
        assert(seq![first] + rest =~= levels);
    }
}

/// Reading back the bytes of an entry gives the payload again.
pub proof fn lemma_entry_round_trip(payload: PayloadModel)
    requires
        payload_fits(payload),
    ensures
        parsed_entry(entry_bytes(payload)) == Some(payload),
{
    let bytes = entry_bytes(payload);
    let count = payload.levels.len() as int;
    lemma_levels_round_trip(payload.levels);
    crate::bytes::lemma_le_len(count);
    assert(bytes.subrange(0, 4) =~= entry_magic());
    assert(bytes[4] == payload.encoding.tag());
    assert(bytes.subrange(5, 13) =~= le64(count));
    lemma_le64_round_trip(count, bytes, 5);
    assert(bytes.skip(13) =~= levels_bytes(payload.levels));
}

/// Every payload held in memory fits the fields of an entry.
pub proof fn lemma_payload_fits(payload: TexturePayload)
    ensures
        payload_fits(payload@),
{
    assert forall|k: int| 0 <= k < payload@.levels.len() implies level_fits(
        #[trigger] payload@.levels[k],
    ) by {
        assert(payload@.levels[k] == payload.levels[k]@);
        assert(payload.levels[k].data@.len() == payload.levels[k].data.len());
    }
    assert(payload@.levels.len() == payload.levels.len());
}

/// Frames a payload as the bytes of a cache entry.
pub fn encode_entry(payload: &TexturePayload) -> (bytes: Vec<u8>)
    ensures
        bytes@ == entry_bytes(payload@),
        parsed_entry(bytes@) == Some(payload@),
{
    let mut bytes: Vec<u8> = Vec::new();
    bytes.push(0x4d);
    bytes.push(0x49);
    bytes.push(0x50);
    bytes.push(0x43);
    bytes.push(payload.encoding.tag());
    push_le64(&mut bytes, payload.levels.len() as u64);
    let ghost header = bytes@;
    proof {
        assert(header =~= entry_magic() + seq![payload.encoding.tag()] + le64(
            payload.levels.len() as int,
        ));
        assert(level_models(payload.levels@).take(0) =~= Seq::<LevelModel>::empty());
    }
    let mut k: usize = 0;
    while k < payload.levels.len()
        invariant
            k <= payload.levels.len(),
            bytes@ == header + levels_bytes(level_models(payload.levels@).take(k as int)),
        decreases payload.levels.len() - k,
    {
        let level = &payload.levels[k];
        let ghost before = bytes@;
        push_le32(&mut bytes, level.width);
        push_le32(&mut bytes, level.height);
        push_le64(&mut bytes, level.data.len() as u64);
        push_all(&mut bytes, &level.data);
        proof {
            let models = level_models(payload.levels@);
            assert(bytes@ =~= before + level_bytes(level@));
            assert(models.take(k + 1) =~= models.take(k as int).push(level@));
            lemma_levels_bytes_push(models.take(k as int), level@);
        }
        k += 1;
    }
    proof {
        let models = level_models(payload.levels@);
        assert(models.take(k as int) =~= models);
        assert(bytes@ =~= entry_bytes(payload@));
        lemma_payload_fits(*payload);
        lemma_entry_round_trip(payload@);
    }
    bytes
}

fn copy_range(bytes: &Vec<u8>, from: usize, to: usize) -> (part: Vec<u8>)
    requires
        from <= to <= bytes.len(),
    ensures
        part@ == bytes@.subrange(from as int, to as int),
{
    let mut part: Vec<u8> = Vec::new();
    let mut i: usize = from;
    while i < to
        invariant
            from <= i <= to <= bytes.len(),
            part@ == bytes@.subrange(from as int, i as int),
        decreases to - i,
    {
        part.push(bytes[i]);
        i += 1;
        assert(part@ =~= bytes@.subrange(from as int, i as int));
    }
    part
}

/// What is known of the levels once some have been read: the ones read,
/// then whatever the rest of the bytes hold.
spec fn joined(read: Seq<LevelModel>, rest: Option<Seq<LevelModel>>) -> Option<Seq<LevelModel>> {
    match rest {
        Some(levels) => Some(read + levels),
        None => None,
    }
}

/// Reads the bytes of a cache entry back into a payload. Bytes that are no
/// entry give `None`.
pub fn decode_entry(bytes: &Vec<u8>) -> (payload: Option<TexturePayload>)
    ensures
        match payload {
            Some(p) => parsed_entry(bytes@) == Some(p@),
            None => parsed_entry(bytes@).is_none(),
        },
{
    if bytes.len() < ENTRY_HEADER {
        return None;
    }
    if bytes[0] != 0x4d || bytes[1] != 0x49 || bytes[2] != 0x50 || bytes[3] != 0x43 {
        proof {
            let magic = bytes@.subrange(0, 4);
            assert(magic[0] == bytes[0] && magic[1] == bytes[1] && magic[2] == bytes[2] && magic[3]
                == bytes[3]);
        }
        return None;
    }
    assert(bytes@.subrange(0, 4) =~= entry_magic());
    let encoding = match Encoding::from_tag(bytes[4]) {
        Some(encoding) => encoding,
        None => {
            return None;
        },
    };
    let count: u64 = read_le64(bytes, 5);
    let ghost all = parsed_levels(bytes@.skip(13), count as nat);
    let mut levels: Vec<MipLevel> = Vec::new();
    let mut at: usize = ENTRY_HEADER;
    let mut k: u64 = 0;
    proof {
        assert(joined(level_models(levels@), all) =~= all);
    }
    while k < count
        invariant
            13 <= at <= bytes.len(),
            k <= count,
            bytes@.subrange(0, 4) == entry_magic(),
            Encoding::of_tag(bytes[4]) == Some(encoding),
            count == le64_at(bytes@, 5),
            all == parsed_levels(bytes@.skip(13), count as nat),
            all == joined(
                level_models(levels@),
                parsed_levels(bytes@.skip(at as int), (count - k) as nat),
            ),
        decreases count - k,
    {
        let ghost rest = bytes@.skip(at as int);
        if bytes.len() - at < LEVEL_HEADER {
            return None;
        }
        let width = read_le32(bytes, at);
        let height = read_le32(bytes, at + 4);
        let size: u64 = read_le64(bytes, at + 8);
        proof {
            assert(le32_at(rest, 0) == le32_at(bytes@, at as int));
            assert(le32_at(rest, 4) == le32_at(bytes@, at + 4));
            assert(le64_at(rest, 8) == le64_at(bytes@, at + 8));
        }
        if ((bytes.len() - at - LEVEL_HEADER) as u64) < size {
            return None;
        }
        let start: usize = at + LEVEL_HEADER;
        let end: usize = start + size as usize;
        let data = copy_range(bytes, start, end);
        let level = MipLevel { width, height, data };
        proof {
            let before = level_models(levels@);
            assert(rest.subrange(16, 16 + size) =~= bytes@.subrange(start as int, end as int));
            assert(rest.skip(16 + size) =~= bytes@.skip(end as int));
            let tail = parsed_levels(bytes@.skip(end as int), (count - k - 1) as nat);
            assert(parsed_levels(rest, (count - k) as nat) == joined(seq![level@], tail));
            assert(level_models(levels@.push(level)) =~= before.push(level@));
            if tail.is_some() {
                assert(before + (seq![level@] + tail.unwrap()) =~= before.push(level@)
                    + tail.unwrap());
            }
        }
        levels.push(level);
        at = end;
        k += 1;
    }
    if at != bytes.len() {
        return None;
    }
    proof {
        assert(bytes@.skip(at as int) =~= Seq::<u8>::empty());
        assert(level_models(levels@) + Seq::<LevelModel>::empty() =~= level_models(levels@));
    }
    Some(TexturePayload { encoding, levels })
}

/// The mathematical value of a [`CompressionCache`].
pub struct CacheModel {
    /// Whether the cache keeps anything at all.
    pub enabled: bool,
    /// The blob kept under each fingerprint.
    pub entries: Map<u64, Seq<u8>>,
    /// The fingerprints whose blobs have not been written out yet, oldest
    /// first.
    pub unsaved: Seq<u64>,
}

impl CacheModel {
    /// What a lookup of `key` finds. A cache that is off finds nothing.
    pub open spec fn found(self, key: u64) -> Option<Seq<u8>> {
        if self.enabled && self.entries.contains_key(key) {
            Some(self.entries[key])
        } else {
            None
        }
    }

    /// The cache after `blob` has been stored under `key`: unchanged where
    /// the cache is off or already holds these bytes under `key`, else
    /// holding `blob` there, with `key` waiting to be written out.
    pub open spec fn stored(self, key: u64, blob: Seq<u8>) -> CacheModel {
        if !self.enabled || self.found(key) == Some(blob) {
            self
        } else {
            CacheModel {
                enabled: true,
                entries: self.entries.insert(key, blob),
                unsaved: self.unsaved.push(key),
            }
        }
    }

    /// The cache after an entry read from durable storage has been put
    /// back: it does not wait to be written out.
    pub open spec fn loaded(self, key: u64, blob: Seq<u8>) -> CacheModel {
        if !self.enabled {
            self
        } else {
            CacheModel { entries: self.entries.insert(key, blob), ..self }
        }
    }
}

/// Lookup after store finds the stored bytes, whatever was there before:
/// the last writer wins.
pub proof fn lemma_store_then_lookup(cache: CacheModel, key: u64, blob: Seq<u8>)
    requires
        cache.enabled,
    ensures
        cache.stored(key, blob).found(key) == Some(blob),
        forall|other: u64| other != key ==> cache.stored(key, blob).found(other) == cache.found(other),
{
}

/// Storing the same bytes under the same fingerprint a second time changes
/// nothing.
pub proof fn lemma_store_idempotent(cache: CacheModel, key: u64, blob: Seq<u8>)
    ensures
        cache.stored(key, blob).stored(key, blob) == cache.stored(key, blob),
{
}

/// A cache that is off keeps nothing and finds nothing.
pub proof fn lemma_disabled_cache(cache: CacheModel, key: u64, blob: Seq<u8>)
    requires
        !cache.enabled,
    ensures
        cache.stored(key, blob) == cache,
        cache.stored(key, blob).found(key).is_none(),
{
}

/// Compressed payloads by fingerprint, held in memory. The application
/// fills it from durable storage with `load` and writes out what
/// `take_unsaved` names.
pub struct CompressionCache {
    enabled: bool,
    entries: HashMap<u64, Vec<u8>>,
    unsaved: Vec<u64>,
}

impl View for CompressionCache {
    type V = CacheModel;

    closed spec fn view(&self) -> CacheModel {
        CacheModel {
            enabled: self.enabled,
            entries: Map::new(
                |key: u64| self.entries@.contains_key(key),
                |key: u64| self.entries@[key]@,
            ),
            unsaved: self.unsaved@,
        }
    }
}

impl CompressionCache {
    /// An empty cache, switched on or off.
    pub fn new(enabled: bool) -> (cache: CompressionCache)
        ensures
            cache@ == (CacheModel { enabled, entries: Map::empty(), unsaved: Seq::empty() }),
    {
        let cache = CompressionCache { enabled, entries: HashMap::new(), unsaved: Vec::new() };
        assert(cache@.entries =~= Map::empty());
        cache
    }

    /// An empty cache for `settings`: switched on where they name a place
    /// to keep it.
    pub fn for_settings(settings: &MipmapGeneratorSettings) -> (cache: CompressionCache)
        ensures
            cache@ == (CacheModel {
                enabled: settings.compressed_image_data_cache_path.is_some(),
                entries: Map::empty(),
                unsaved: Seq::empty(),
            }),
    {
        CompressionCache::new(settings.compressed_image_data_cache_path.is_some())
    }

    /// Whether the cache is switched on.
    pub fn is_enabled(&self) -> (enabled: bool)
        ensures
            enabled == self@.enabled,
    {
        self.enabled
    }

    /// The blob kept under `key`, if the cache is on and holds one.
    pub fn lookup(&self, key: ContentFingerprint) -> (blob: Option<Vec<u8>>)
        ensures
            match blob {
                Some(bytes) => self@.found(key.value) == Some(bytes@),
                None => self@.found(key.value).is_none(),
            },
    {
        broadcast use vstd::std_specs::hash::group_hash_axioms;

        if !self.enabled {
            return None;
        }
        match self.entries.get(&key.value) {
            Some(bytes) => Some(bytes.clone()),
            None => None,
        }
    }

    /// Keeps `blob` under `key`. Nothing happens where the cache is off or
    /// already holds these bytes there; other bytes there are replaced.
    pub fn store(&mut self, key: ContentFingerprint, blob: Vec<u8>)
        ensures
            final(self)@ == old(self)@.stored(key.value, blob@),
    {
        broadcast use vstd::std_specs::hash::group_hash_axioms;

        if !self.enabled {
            return ;
        }
        let present = match self.entries.get(&key.value) {
            Some(bytes) => same_bytes(bytes, &blob),
            None => false,
        };
        if present {
            return ;
        }
        self.entries.insert(key.value, blob);
        self.unsaved.push(key.value);
        assert(self@.entries =~= old(self)@.entries.insert(key.value, blob@));
    }

    /// Puts back an entry that was read from durable storage.
    pub fn load(&mut self, key: ContentFingerprint, blob: Vec<u8>)
        ensures
            final(self)@ == old(self)@.loaded(key.value, blob@),
    {
        broadcast use vstd::std_specs::hash::group_hash_axioms;

        if !self.enabled {
            return ;
        }
        self.entries.insert(key.value, blob);
        assert(self@.entries =~= old(self)@.entries.insert(key.value, blob@));
    }

    /// Hands out the fingerprints whose blobs wait to be written out, oldest
    /// first, and forgets them. The entries stay.
    pub fn take_unsaved(&mut self) -> (keys: Vec<ContentFingerprint>)
        ensures
            final(self)@ == (CacheModel { unsaved: Seq::empty(), ..old(self)@ }),
            keys.len() == old(self)@.unsaved.len(),
            forall|i: int| 0 <= i < keys.len() ==> (#[trigger] keys[i]).value == old(self)@.unsaved[i],
    {
        let mut keys: Vec<ContentFingerprint> = Vec::new();
        let mut i: usize = 0;
        while i < self.unsaved.len()
            invariant
                *self == *old(self),
                i <= self.unsaved.len(),
                keys.len() == i,
                forall|j: int| 0 <= j < i ==> (#[trigger] keys[j]).value == self.unsaved[j],
            decreases self.unsaved.len() - i,
        {
            keys.push(ContentFingerprint { value: self.unsaved[i] });
            i += 1;
        }
        self.unsaved = Vec::new();
        assert(self@.entries =~= old(self)@.entries);
        keys
    }
}

} // verus!
