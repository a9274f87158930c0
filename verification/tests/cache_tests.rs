use asset_pipeline::cache::{decode_entry, encode_entry, CompressionCache};
use asset_pipeline::fingerprint::ContentFingerprint;
use asset_pipeline::image::{Encoding, MipLevel, TexturePayload};
use asset_pipeline::settings::MipmapGeneratorSettings;

fn key(value: u64) -> ContentFingerprint {
    ContentFingerprint { value }
}

fn payload() -> TexturePayload {
    TexturePayload {
        encoding: Encoding::Bc3,
        levels: vec![
            MipLevel { width: 2, height: 1, data: vec![1, 2, 3, 4, 5, 6, 7, 8, 9, 10, 11, 12, 13, 14, 15, 16] },
            MipLevel { width: 1, height: 1, data: vec![] },
            MipLevel { width: 70000, height: 3, data: vec![255] },
        ],
    }
}

#[test]
fn store_then_lookup_returns_the_blob() {
    let mut cache = CompressionCache::new(true);
    assert_eq!(cache.lookup(key(7)), None);
    cache.store(key(7), vec![1, 2, 3]);
    assert_eq!(cache.lookup(key(7)), Some(vec![1, 2, 3]));
    assert_eq!(cache.lookup(key(8)), None);
    cache.store(key(8), vec![]);
    assert_eq!(cache.lookup(key(8)), Some(vec![]));
    assert_eq!(cache.lookup(key(7)), Some(vec![1, 2, 3]));
}

#[test]
fn storing_the_same_bytes_again_is_a_no_op() {
    let mut cache = CompressionCache::new(true);
    cache.store(key(7), vec![1, 2, 3]);
    cache.store(key(7), vec![1, 2, 3]);
    assert_eq!(cache.lookup(key(7)), Some(vec![1, 2, 3]));
    assert_eq!(cache.take_unsaved(), vec![key(7)]);
}

#[test]
fn last_writer_wins() {
    let mut cache = CompressionCache::new(true);
    cache.store(key(7), vec![1, 2, 3]);
    cache.store(key(7), vec![4]);
    assert_eq!(cache.lookup(key(7)), Some(vec![4]));
    assert_eq!(cache.take_unsaved(), vec![key(7), key(7)]);
}

#[test]
fn disabled_cache_keeps_nothing() {
    let mut cache = CompressionCache::new(false);
    assert!(!cache.is_enabled());
    cache.store(key(7), vec![1, 2, 3]);
    cache.load(key(8), vec![1]);
    assert_eq!(cache.lookup(key(7)), None);
    assert_eq!(cache.lookup(key(8)), None);
    assert!(cache.take_unsaved().is_empty());
}

#[test]
fn cache_follows_the_settings() {
    let mut settings = MipmapGeneratorSettings::default();
    assert!(!CompressionCache::for_settings(&settings).is_enabled());
    settings.compressed_image_data_cache_path = Some(String::from("compressed_texture_cache"));
    assert!(CompressionCache::for_settings(&settings).is_enabled());
}

#[test]
fn loaded_entries_are_found_and_not_written_again() {
    let mut cache = CompressionCache::new(true);
    cache.load(key(1), vec![9, 9]);
    assert_eq!(cache.lookup(key(1)), Some(vec![9, 9]));
    assert!(cache.take_unsaved().is_empty());
    cache.store(key(1), vec![9, 9]);
    assert!(cache.take_unsaved().is_empty());
    cache.store(key(1), vec![8]);
    assert_eq!(cache.take_unsaved(), vec![key(1)]);
}

#[test]
fn unsaved_keys_come_out_once_in_order() {
    let mut cache = CompressionCache::new(true);
    cache.store(key(3), vec![3]);
    cache.store(key(1), vec![1]);
    cache.store(key(2), vec![2]);
    assert_eq!(cache.take_unsaved(), vec![key(3), key(1), key(2)]);
    assert!(cache.take_unsaved().is_empty());
    assert_eq!(cache.lookup(key(1)), Some(vec![1]));
}

#[test]
fn entry_bytes_are_as_laid_out() {
    let p = TexturePayload {
        encoding: Encoding::Bc1,
        levels: vec![MipLevel { width: 0x0102, height: 3, data: vec![9, 8, 7] }],
    };
    assert_eq!(
        encode_entry(&p),
        vec![
            0x4d, 0x49, 0x50, 0x43, // magic
            1,    // layout
            1, 0, 0, 0, 0, 0, 0, 0, // levels
            2, 1, 0, 0, // width
            3, 0, 0, 0, // height
            3, 0, 0, 0, 0, 0, 0, 0, // length
            9, 8, 7,
        ]
    );
    let empty = TexturePayload { encoding: Encoding::Raw, levels: vec![] };
    assert_eq!(encode_entry(&empty), vec![0x4d, 0x49, 0x50, 0x43, 0, 0, 0, 0, 0, 0, 0, 0, 0]);
}

#[test]
fn entry_reads_back() {
    let bytes = encode_entry(&payload());
    assert_eq!(decode_entry(&bytes), Some(payload()));
    let empty = TexturePayload { encoding: Encoding::Raw, levels: vec![] };
    assert_eq!(decode_entry(&encode_entry(&empty)), Some(empty));
}

#[test]
fn blob_round_trip_through_the_cache() {
    let mut cache = CompressionCache::new(true);
    cache.store(key(5), encode_entry(&payload()));
    let blob = cache.lookup(key(5)).unwrap();
    assert_eq!(blob, encode_entry(&payload()));
    assert_eq!(decode_entry(&blob), Some(payload()));
}

#[test]
fn damaged_entries_are_refused() {
    let good = encode_entry(&payload());
    assert_eq!(decode_entry(&vec![]), None);
    assert_eq!(decode_entry(&good[..12].to_vec()), None);
    // cut short anywhere
    for cut in 0..good.len() {
        assert_eq!(decode_entry(&good[..cut].to_vec()), None, "cut at {}", cut);
    }
    // bytes left over
    let mut longer = good.clone();
    longer.push(0);
    assert_eq!(decode_entry(&longer), None);
    // wrong magic
    let mut magic = good.clone();
    magic[0] = 0x4e;
    assert_eq!(decode_entry(&magic), None);
    let mut magic = good.clone();
    magic[3] = 0;
    assert_eq!(decode_entry(&magic), None);
    // unknown layout
    let mut layout = good.clone();
    layout[4] = 3;
    assert_eq!(decode_entry(&layout), None);
    // one level too many or too few announced
    let mut count = good.clone();
    count[5] = 4;
    assert_eq!(decode_entry(&count), None);
    let mut count = good.clone();
    count[5] = 2;
    assert_eq!(decode_entry(&count), None);
    // a length that runs past the end
    let mut length = good.clone();
    length[13 + 8 + 7] = 0xff;
    assert_eq!(decode_entry(&length), None);
}

#[test]
fn every_layout_tag_reads_back() {
    for encoding in [Encoding::Raw, Encoding::Bc1, Encoding::Bc3] {
        let p = TexturePayload { encoding, levels: vec![MipLevel { width: 1, height: 1, data: vec![0; 4] }] };
        assert_eq!(decode_entry(&encode_entry(&p)).unwrap().encoding, encoding);
    }
}
