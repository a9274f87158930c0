use asset_pipeline::compress::{compress_chain, compress_level, detect_alpha, select_encoding};
use asset_pipeline::image::{Encoding, MipLevel};
use asset_pipeline::settings::{CompressionSpeed, MipmapGeneratorSettings};

fn block(texels: [[u8; 4]; 16]) -> MipLevel {
    let mut data = Vec::new();
    for t in texels.iter() {
        data.extend_from_slice(t);
    }
    MipLevel { width: 4, height: 4, data }
}

fn settings(compression: Option<CompressionSpeed>, low_quality: bool) -> MipmapGeneratorSettings {
    MipmapGeneratorSettings {
        anisotropic_filtering: 1,
        level_limit: u32::MAX,
        compression,
        low_quality,
        compressed_image_data_cache_path: None,
    }
}

/// Decodes the colours of a BC1 block in four-colour mode.
fn decode_colors(bytes: &[u8]) -> Vec<[i32; 3]> {
    let expand = |c: u16| -> [i32; 3] {
        let r = (c >> 11) as i32;
        let g = ((c >> 5) & 63) as i32;
        let b = (c & 31) as i32;
        [r * 8 + r / 4, g * 4 + g / 16, b * 8 + b / 4]
    };
    let e0 = expand(bytes[0] as u16 | (bytes[1] as u16) << 8);
    let e1 = expand(bytes[2] as u16 | (bytes[3] as u16) << 8);
    let mut palette = vec![e0, e1, [0; 3], [0; 3]];
    for c in 0..3 {
        palette[2][c] = (2 * e0[c] + e1[c]) / 3;
        palette[3][c] = (e0[c] + 2 * e1[c]) / 3;
    }
    (0..16).map(|i| palette[((bytes[4 + i / 4] >> (2 * (i % 4))) & 3) as usize]).collect()
}

fn color_error(level: &MipLevel, bytes: &[u8]) -> i32 {
    let decoded = decode_colors(bytes);
    let mut error = 0;
    for i in 0..16 {
        for c in 0..3 {
            let d = level.data[4 * i + c] as i32 - decoded[i][c];
            error += d * d;
        }
    }
    error
}

#[test]
fn alpha_is_in_use_when_any_texel_is_not_opaque() {
    assert!(!detect_alpha(&vec![]));
    assert!(!detect_alpha(&vec![0, 0, 0, 255]));
    assert!(detect_alpha(&vec![0, 0, 0, 254]));
    assert!(!detect_alpha(&vec![1, 2, 3, 255, 4, 5, 6, 255]));
    assert!(detect_alpha(&vec![1, 2, 3, 255, 4, 5, 6, 0]));
    assert!(detect_alpha(&vec![1, 2, 3, 0, 4, 5, 6, 255]));
    // colour channels below 255 are no alpha
    assert!(!detect_alpha(&vec![0, 0, 0, 255, 0, 0, 0, 255, 0, 0, 0, 255]));
}

#[test]
fn layout_follows_alpha() {
    assert_eq!(select_encoding(false), Encoding::Bc1);
    assert_eq!(select_encoding(true), Encoding::Bc3);
}

#[test]
fn uniform_block_has_equal_endpoints_and_zero_indices() {
    let level = block([[255, 0, 0, 255]; 16]);
    let out = compress_level(&level, Encoding::Bc1, 0);
    // red 31 << 11 == 0xf800
    assert_eq!(out.data, vec![0x00, 0xf8, 0x00, 0xf8, 0, 0, 0, 0]);
    assert_eq!((out.width, out.height), (4, 4));
}

#[test]
fn endpoints_are_quantized_to_565() {
    // r 0x4f >> 3 == 9, g 0x83 >> 2 == 32, b 0xff >> 3 == 31
    let level = block([[0x4f, 0x83, 0xff, 255]; 16]);
    let out = compress_level(&level, Encoding::Bc1, 0);
    let c: u16 = (9 << 11) | (32 << 5) | 31;
    assert_eq!(out.data[..4], [(c & 255) as u8, (c >> 8) as u8, (c & 255) as u8, (c >> 8) as u8]);
    assert_eq!(out.data[4..], [0, 0, 0, 0]);
}

#[test]
fn black_and_white_halves() {
    let mut texels = [[255, 255, 255, 255]; 16];
    for t in texels.iter_mut().skip(8) {
        *t = [0, 0, 0, 255];
    }
    let out = compress_level(&block(texels), Encoding::Bc1, 0);
    // white is endpoint 0, black is endpoint 1: rows of index 1 are 0b01010101
    assert_eq!(out.data, vec![0xff, 0xff, 0x00, 0x00, 0x00, 0x00, 0x55, 0x55]);
    // the search finds nothing better than an exact fit
    assert_eq!(compress_level(&block(texels), Encoding::Bc1, 5).data, out.data);
}

#[test]
fn each_texel_gets_the_nearest_palette_entry() {
    // endpoints 255 and 0; the palette is 255, 0, 170, 85
    let mut texels = [[0, 0, 0, 255]; 16];
    texels[0] = [255, 255, 255, 255];
    texels[1] = [170, 170, 170, 255];
    texels[2] = [85, 85, 85, 255];
    texels[3] = [128, 128, 128, 255]; // 42 from 170, 43 from 85
    texels[4] = [127, 127, 127, 255]; // 43 from 170, 42 from 85
    texels[5] = [213, 213, 213, 255]; // 42 from 255, 43 from 170
    texels[6] = [42, 42, 42, 255]; // 42 from 0, 43 from 85
    texels[7] = [43, 43, 43, 255]; // 43 from 0, 42 from 85
    let out = compress_level(&block(texels), Encoding::Bc1, 0);
    assert_eq!(out.data[..4], [0xff, 0xff, 0x00, 0x00]);
    // row 0: indices 0, 2, 3, 2
    assert_eq!(out.data[4], 0 | 2 << 2 | 3 << 4 | 2 << 6);
    // row 1: indices 3, 0, 1, 3
    assert_eq!(out.data[5], 3 | 0 << 2 | 1 << 4 | 3 << 6);
    assert_eq!(out.data[6], 0x55);
    assert_eq!(out.data[7], 0x55);
}

#[test]
fn equal_distances_take_the_first_entry() {
    // endpoints 24 and 0 decode to 24 and 0; the palette is 24, 0, 16, 8
    let mut texels = [[0, 0, 0, 255]; 16];
    texels[0] = [24, 24, 24, 255];
    texels[1] = [12, 12, 12, 255]; // 4 from 16 and 4 from 8: entry 2 comes first
    texels[2] = [20, 20, 20, 255]; // 4 from 24 and 4 from 16: entry 0 comes first
    texels[3] = [4, 4, 4, 255]; // 4 from 0 and 4 from 8: entry 1 comes first
    let out = compress_level(&block(texels), Encoding::Bc1, 0);
    assert_eq!(out.data[4], 0 | 2 << 2 | 0 << 4 | 1 << 6);
}

#[test]
fn alpha_block_of_one_value() {
    let level = block([[255, 255, 255, 128]; 16]);
    let out = compress_level(&level, Encoding::Bc3, 0);
    assert_eq!(
        out.data,
        vec![128, 128, 0, 0, 0, 0, 0, 0, 0xff, 0xff, 0xff, 0xff, 0, 0, 0, 0]
    );
}

#[test]
fn alpha_indices_are_packed_three_bits_each() {
    let mut texels = [[255, 255, 255, 255]; 16];
    for t in texels.iter_mut().skip(8) {
        t[3] = 0;
    }
    let out = compress_level(&block(texels), Encoding::Bc3, 0);
    // the first eight take entry 0, the last eight entry 1: 0b001001...001
    assert_eq!(out.data[..8], [255, 0, 0, 0, 0, 0x49, 0x92, 0x24]);
    assert_eq!(out.data[8..], [0xff, 0xff, 0xff, 0xff, 0, 0, 0, 0]);
}

#[test]
fn alpha_takes_the_nearest_of_eight() {
    // the palette is 255, 0, 218, 182, 145, 109, 72, 36
    let mut texels = [[9, 9, 9, 0]; 16];
    texels[0][3] = 128; // 17 from 145, 19 from 109: entry 4
    texels[1][3] = 255;
    let out = compress_level(&block(texels), Encoding::Bc3, 0);
    assert_eq!(out.data[..8], [255, 0, 0x44, 0x92, 0x24, 0x49, 0x92, 0x24]);
    let mut texels = [[9, 9, 9, 0]; 16];
    texels[15][3] = 255;
    texels[14][3] = 200; // 18 from 218 and 18 from 182: entry 2 comes first
    texels[13][3] = 40; // 4 from 36: entry 7
    texels[12][3] = 90; // 18 from 72, 19 from 109: entry 6
    let out = compress_level(&block(texels), Encoding::Bc3, 0);
    let group: u32 = 1 | 1 << 3 | 1 << 6 | 1 << 9 | 6 << 12 | 7 << 15 | 2 << 18 | 0 << 21;
    assert_eq!(out.data[5..8], [(group & 255) as u8, (group >> 8 & 255) as u8, (group >> 16) as u8]);
}

#[test]
fn blocks_cover_the_level_row_by_row() {
    let mut data = Vec::new();
    for y in 0..5u8 {
        for x in 0..6u8 {
            let v = if x < 4 && y < 4 { 255 } else { 0 };
            data.extend_from_slice(&[v, v, v, 255]);
        }
    }
    let level = MipLevel { width: 6, height: 5, data };
    let bc1 = compress_level(&level, Encoding::Bc1, 0);
    assert_eq!((bc1.width, bc1.height), (6, 5));
    assert_eq!(bc1.data.len(), 2 * 2 * 8);
    // the first block is all white, the others all black: the edge repeats
    assert_eq!(bc1.data[..8], [0xff, 0xff, 0xff, 0xff, 0, 0, 0, 0]);
    assert_eq!(bc1.data[8..16], [0; 8]);
    assert_eq!(bc1.data[16..24], [0; 8]);
    assert_eq!(bc1.data[24..], [0; 8]);
    let bc3 = compress_level(&level, Encoding::Bc3, 0);
    assert_eq!(bc3.data.len(), 2 * 2 * 16);
}

#[test]
fn the_edge_texel_fills_the_rest_of_a_block() {
    // 1x1 level: one block of sixteen copies of the texel
    let level = MipLevel { width: 1, height: 1, data: vec![255, 0, 0, 77] };
    let out = compress_level(&level, Encoding::Bc3, 3);
    assert_eq!(out.data, vec![77, 77, 0, 0, 0, 0, 0, 0, 0x00, 0xf8, 0x00, 0xf8, 0, 0, 0, 0]);
    // 2x1 level: columns 1..4 repeat the second texel
    let level = MipLevel { width: 2, height: 1, data: vec![255, 255, 255, 255, 0, 0, 0, 255] };
    let out = compress_level(&level, Encoding::Bc1, 0);
    let row = 0 | 1 << 2 | 1 << 4 | 1 << 6;
    assert_eq!(out.data, vec![0xff, 0xff, 0, 0, row, row, row, row]);
}

#[test]
fn raw_layout_leaves_the_level_alone() {
    let level = block([[1, 2, 3, 4]; 16]);
    assert_eq!(compress_level(&level, Encoding::Raw, 0), level);
}

#[test]
fn search_lowers_the_error() {
    let mut texels = [[128, 128, 128, 255]; 16];
    texels[0] = [0, 0, 0, 255];
    texels[1] = [255, 255, 255, 255];
    let level = block(texels);
    let plain = compress_level(&level, Encoding::Bc1, 0);
    assert_eq!(plain.data[..4], [0xff, 0xff, 0, 0]);
    // fourteen texels 42 away from 170 in three channels
    assert_eq!(color_error(&level, &plain.data), 14 * 3 * 42 * 42);
    let mut last = color_error(&level, &plain.data);
    for steps in 1..=8 {
        let searched = compress_level(&level, Encoding::Bc1, steps);
        let error = color_error(&level, &searched.data);
        assert!(error <= last, "steps {}", steps);
        last = error;
    }
    let searched = compress_level(&level, Encoding::Bc1, 5);
    assert!(color_error(&level, &searched.data) < color_error(&level, &plain.data));
    // inset 4 is best: the endpoints are 255 - 63 and 63, the error 41784;
    // inset 5 would give 45438
    let c0: u16 = (24 << 11) | (48 << 5) | 24;
    let c1: u16 = (7 << 11) | (15 << 5) | 7;
    assert_eq!(searched.data[..4], [(c0 & 255) as u8, (c0 >> 8) as u8, (c1 & 255) as u8, (c1 >> 8) as u8]);
    assert_eq!(color_error(&level, &searched.data), 41784);
    assert_eq!(compress_level(&level, Encoding::Bc1, 4).data, searched.data);
    assert_eq!(compress_level(&level, Encoding::Bc1, 8).data, searched.data);
}

#[test]
fn upper_endpoint_is_never_below_the_lower() {
    let mut seed: u32 = 12345;
    for _ in 0..50 {
        let mut texels = [[0u8; 4]; 16];
        for t in texels.iter_mut() {
            for c in t.iter_mut() {
                seed = seed.wrapping_mul(1664525).wrapping_add(1013904223);
                *c = (seed >> 24) as u8;
            }
        }
        for steps in [0u8, 1, 5, 8] {
            let out = compress_level(&block(texels), Encoding::Bc1, steps);
            let c0 = out.data[0] as u16 | (out.data[1] as u16) << 8;
            let c1 = out.data[2] as u16 | (out.data[3] as u16) << 8;
            assert!(c0 >= c1);
        }
    }
}

#[test]
fn compression_off_passes_the_chain_through() {
    let chain = vec![block([[1, 2, 3, 4]; 16]), MipLevel { width: 2, height: 2, data: vec![5; 16] }];
    let copy = vec![block([[1, 2, 3, 4]; 16]), MipLevel { width: 2, height: 2, data: vec![5; 16] }];
    let payload = compress_chain(chain, &settings(None, false));
    assert_eq!(payload.encoding, Encoding::Raw);
    assert_eq!(payload.levels, copy);
    // the low-quality switch alone compresses nothing
    let payload = compress_chain(copy, &settings(None, true));
    assert_eq!(payload.encoding, Encoding::Raw);
}

#[test]
fn empty_chain_stays_empty() {
    let payload = compress_chain(vec![], &settings(Some(CompressionSpeed::Fast), false));
    assert_eq!(payload.encoding, Encoding::Raw);
    assert!(payload.levels.is_empty());
}

#[test]
fn base_level_alpha_selects_the_layout_for_every_level() {
    // alpha in use on the base level only
    let mut base = [[10, 20, 30, 255]; 16];
    base[5][3] = 0;
    let chain = vec![block(base), MipLevel { width: 2, height: 2, data: vec![255; 16] }];
    let payload = compress_chain(chain, &settings(Some(CompressionSpeed::UltraFast), false));
    assert_eq!(payload.encoding, Encoding::Bc3);
    assert_eq!(payload.levels[0].data.len(), 16);
    assert_eq!(payload.levels[1].data.len(), 16);
    assert_eq!((payload.levels[1].width, payload.levels[1].height), (2, 2));
    // alpha in use below the base level only
    let chain = vec![block([[10, 20, 30, 255]; 16]), MipLevel { width: 2, height: 2, data: vec![0; 16] }];
    let payload = compress_chain(chain, &settings(Some(CompressionSpeed::UltraFast), false));
    assert_eq!(payload.encoding, Encoding::Bc1);
    assert_eq!(payload.levels[0].data.len(), 8);
    assert_eq!(payload.levels[1].data.len(), 8);
}

#[test]
fn opaque_layout_takes_half_the_storage() {
    let chain = || vec![MipLevel { width: 8, height: 8, data: vec![255; 256] }];
    let mut with_alpha = chain();
    with_alpha[0].data[3] = 1;
    let opaque = compress_chain(chain(), &settings(Some(CompressionSpeed::Slow), false));
    let alpha = compress_chain(with_alpha, &settings(Some(CompressionSpeed::Slow), false));
    assert_eq!(opaque.levels[0].data.len() * 2, alpha.levels[0].data.len());
    assert_eq!(opaque.levels[0].data.len(), 32);
}

#[test]
fn policy_sets_the_search() {
    assert_eq!(settings(None, false).search_steps(), 0);
    assert_eq!(settings(Some(CompressionSpeed::Slow), true).search_steps(), 0);
    assert_eq!(settings(Some(CompressionSpeed::UltraFast), false).search_steps(), 1);
    assert_eq!(settings(Some(CompressionSpeed::VeryFast), false).search_steps(), 2);
    assert_eq!(settings(Some(CompressionSpeed::Fast), false).search_steps(), 3);
    assert_eq!(settings(Some(CompressionSpeed::Basic), false).search_steps(), 4);
    assert_eq!(settings(Some(CompressionSpeed::Slow), false).search_steps(), 5);
}

#[test]
fn low_quality_skips_the_search() {
    let mut texels = [[128, 128, 128, 255]; 16];
    texels[0] = [0, 0, 0, 255];
    texels[1] = [255, 255, 255, 255];
    let low = compress_chain(vec![block(texels)], &settings(Some(CompressionSpeed::Slow), true));
    assert_eq!(low.levels[0], compress_level(&block(texels), Encoding::Bc1, 0));
    let slow = compress_chain(vec![block(texels)], &settings(Some(CompressionSpeed::Slow), false));
    assert_eq!(slow.levels[0], compress_level(&block(texels), Encoding::Bc1, 5));
    assert_ne!(low.levels[0], slow.levels[0]);
}
