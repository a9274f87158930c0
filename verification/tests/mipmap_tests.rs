use asset_pipeline::image::{ImageAsset, MipLevel, PixelFormat};
use asset_pipeline::mipmap::{downsample, generate_chain};

fn gray(width: u32, height: u32, values: &[u8]) -> ImageAsset {
    let mut data = Vec::new();
    for v in values {
        data.extend_from_slice(&[*v, *v, *v, 255]);
    }
    ImageAsset::new(width, height, PixelFormat::Rgba8Unorm, data).unwrap()
}

fn dims(chain: &[MipLevel]) -> Vec<(u32, u32)> {
    chain.iter().map(|l| (l.width, l.height)).collect()
}

#[test]
fn image_needs_four_bytes_per_texel() {
    assert!(ImageAsset::new(2, 2, PixelFormat::Rgba8Unorm, vec![0; 16]).is_some());
    assert!(ImageAsset::new(2, 2, PixelFormat::Rgba8Unorm, vec![0; 15]).is_none());
    assert!(ImageAsset::new(2, 2, PixelFormat::Rgba8Unorm, vec![0; 17]).is_none());
    assert!(ImageAsset::new(0, 7, PixelFormat::Rgba8Unorm, vec![]).is_some());
    assert!(ImageAsset::new(0, 7, PixelFormat::Rgba8Unorm, vec![0; 4]).is_none());
}

#[test]
fn new_image_is_unprocessed() {
    let image = gray(1, 1, &[9]);
    assert!(!image.is_processed());
    assert_eq!(image.anisotropy(), None);
    assert!(image.payload().levels.is_empty());
    assert_eq!(image.width(), 1);
    assert_eq!(image.height(), 1);
    assert_eq!(image.data(), &vec![9, 9, 9, 255]);
}

#[test]
fn chain_of_512_square_has_ten_levels() {
    let image = ImageAsset::new(512, 512, PixelFormat::Rgba8Unorm, vec![7; 512 * 512 * 4]).unwrap();
    let chain = generate_chain(&image, u32::MAX);
    assert_eq!(
        dims(&chain),
        vec![
            (512, 512),
            (256, 256),
            (128, 128),
            (64, 64),
            (32, 32),
            (16, 16),
            (8, 8),
            (4, 4),
            (2, 2),
            (1, 1)
        ]
    );
    for level in &chain {
        assert_eq!(level.data.len(), (level.width * level.height * 4) as usize);
        assert!(level.data.iter().all(|b| *b == 7));
    }
}

#[test]
fn chain_length_follows_the_larger_side() {
    // floor(log2(5)) + 1 == 3
    let chain = generate_chain(&gray(5, 3, &[0; 15]), u32::MAX);
    assert_eq!(dims(&chain), vec![(5, 3), (2, 1), (1, 1)]);
    // floor(log2(8)) + 1 == 4, the short side stays at one
    let chain = generate_chain(&gray(1, 8, &[0; 8]), u32::MAX);
    assert_eq!(dims(&chain), vec![(1, 8), (1, 4), (1, 2), (1, 1)]);
    // floor(log2(1)) + 1 == 1
    let chain = generate_chain(&gray(1, 1, &[3]), u32::MAX);
    assert_eq!(dims(&chain), vec![(1, 1)]);
    // floor(log2(7)) + 1 == 3
    let chain = generate_chain(&gray(7, 7, &[0; 49]), u32::MAX);
    assert_eq!(dims(&chain), vec![(7, 7), (3, 3), (1, 1)]);
}

#[test]
fn level_limit_cuts_the_chain() {
    let image = gray(8, 8, &[1; 64]);
    assert_eq!(dims(&generate_chain(&image, 2)), vec![(8, 8), (4, 4)]);
    assert_eq!(dims(&generate_chain(&image, 1)), vec![(8, 8)]);
    assert_eq!(generate_chain(&image, 4).len(), 4);
    assert_eq!(generate_chain(&image, 5).len(), 4);
    assert!(generate_chain(&image, 0).is_empty());
}

#[test]
fn empty_image_has_no_levels() {
    let image = ImageAsset::new(0, 5, PixelFormat::Rgba8Unorm, vec![]).unwrap();
    assert!(generate_chain(&image, u32::MAX).is_empty());
    let image = ImageAsset::new(5, 0, PixelFormat::Rgba8Unorm, vec![]).unwrap();
    assert!(generate_chain(&image, u32::MAX).is_empty());
}

#[test]
fn base_level_is_the_source() {
    let image = gray(2, 1, &[10, 20]);
    let chain = generate_chain(&image, u32::MAX);
    assert_eq!(chain[0].data, vec![10, 10, 10, 255, 20, 20, 20, 255]);
}

#[test]
fn box_filter_averages_and_rounds() {
    // (0 + 1 + 2 + 4 + 2) / 4 == 2
    let chain = generate_chain(&gray(2, 2, &[0, 1, 2, 4]), u32::MAX);
    assert_eq!(chain[1].data, vec![2, 2, 2, 255]);
    // (255 * 4 + 2) / 4 == 255: no overflow at the top
    let chain = generate_chain(&gray(2, 2, &[255; 4]), u32::MAX);
    assert_eq!(chain[1].data, vec![255, 255, 255, 255]);
    // (1 + 0 + 0 + 0 + 2) / 4 == 0, (1 + 1 + 0 + 0 + 2) / 4 == 1
    let chain = generate_chain(&gray(2, 2, &[1, 0, 0, 0]), u32::MAX);
    assert_eq!(chain[1].data[0], 0);
    let chain = generate_chain(&gray(2, 2, &[1, 1, 0, 0]), u32::MAX);
    assert_eq!(chain[1].data[0], 1);
}

#[test]
fn box_filter_treats_channels_apart() {
    let data = vec![
        10, 20, 30, 40, //
        50, 60, 70, 80, //
        90, 100, 110, 120, //
        130, 140, 150, 160,
    ];
    let level = MipLevel { width: 2, height: 2, data };
    let next = downsample(&level);
    assert_eq!((next.width, next.height), (1, 1));
    // (10 + 50 + 90 + 130 + 2) / 4 == 70, and so on
    assert_eq!(next.data, vec![70, 80, 90, 100]);
}

#[test]
fn narrow_level_is_sampled_twice_across() {
    // 1x2: (10 + 10 + 20 + 20 + 2) / 4 == 15
    let chain = generate_chain(&gray(1, 2, &[10, 20]), u32::MAX);
    assert_eq!(chain[1].data, vec![15, 15, 15, 255]);
}

#[test]
fn odd_side_drops_the_last_column() {
    // 3x1 -> 1x1 from the first two texels: (100 + 50 + 100 + 50 + 2) / 4 == 75
    let chain = generate_chain(&gray(3, 1, &[100, 50, 255]), u32::MAX);
    assert_eq!(dims(&chain), vec![(3, 1), (1, 1)]);
    assert_eq!(chain[1].data, vec![75, 75, 75, 255]);
}

#[test]
fn each_level_comes_from_the_one_before() {
    let values: Vec<u8> = (0..64).map(|i| (i * 4) as u8).collect();
    let chain = generate_chain(&gray(8, 8, &values), u32::MAX);
    for k in 0..chain.len() - 1 {
        let next = downsample(&chain[k]);
        assert_eq!(next, chain[k + 1]);
        assert_eq!(chain[k + 1].width, std::cmp::max(1, chain[k].width / 2));
        assert_eq!(chain[k + 1].height, std::cmp::max(1, chain[k].height / 2));
    }
}

#[test]
fn four_by_four_rows_and_columns() {
    // rows of 4 texels; value = 16 * row + column
    let values: Vec<u8> = (0..16).map(|i| ((i / 4) * 16 + i % 4) as u8).collect();
    let chain = generate_chain(&gray(4, 4, &values), u32::MAX);
    // texel (0,0): (0 + 1 + 16 + 17 + 2) / 4 == 9; (1,0): (2 + 3 + 18 + 19 + 2) / 4 == 11
    // texel (0,1): (32 + 33 + 48 + 49 + 2) / 4 == 41; (1,1): (34 + 35 + 50 + 51 + 2) / 4 == 43
    let level = &chain[1];
    assert_eq!(level.data[0], 9);
    assert_eq!(level.data[4], 11);
    assert_eq!(level.data[8], 41);
    assert_eq!(level.data[12], 43);
}
