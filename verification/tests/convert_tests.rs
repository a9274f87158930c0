use asset_pipeline::convert::{
    convert_name, extension_at, extension_of, rewrite_references, should_convert, sniff_container,
};

const MAGIC: [u8; 12] = [0xab, 0x4b, 0x54, 0x58, 0x20, 0x32, 0x30, 0xbb, 0x0d, 0x0a, 0x1a, 0x0a];

fn bytes(text: &str) -> Vec<u8> {
    text.as_bytes().to_vec()
}

#[test]
fn container_is_known_by_its_first_bytes() {
    assert!(sniff_container(&MAGIC.to_vec()));
    let mut longer = MAGIC.to_vec();
    longer.extend_from_slice(&[1, 2, 3]);
    assert!(sniff_container(&longer));
    assert!(!sniff_container(&MAGIC[..11].to_vec()));
    assert!(!sniff_container(&vec![]));
    for i in 0..12 {
        let mut wrong = MAGIC.to_vec();
        wrong[i] ^= 1;
        assert!(!sniff_container(&wrong), "byte {}", i);
    }
    // a PNG
    assert!(!sniff_container(&vec![0x89, 0x50, 0x4e, 0x47, 0x0d, 0x0a, 0x1a, 0x0a, 0, 0, 0, 13]));
}

#[test]
fn source_extensions() {
    assert_eq!(extension_of(&bytes("a.png")), 4);
    assert_eq!(extension_of(&bytes("a.jpg")), 4);
    assert_eq!(extension_of(&bytes("a.jpeg")), 5);
    assert_eq!(extension_of(&bytes(".png")), 4);
    assert_eq!(extension_of(&bytes(".jpeg")), 5);
    assert_eq!(extension_of(&bytes("a.ktx2")), 0);
    assert_eq!(extension_of(&bytes("a.PNG")), 0);
    assert_eq!(extension_of(&bytes("a.png.txt")), 0);
    assert_eq!(extension_of(&bytes("apng")), 0);
    assert_eq!(extension_of(&bytes("png")), 0);
    assert_eq!(extension_of(&bytes("")), 0);
    assert_eq!(extension_of(&bytes("a.jpe")), 0);
    assert_eq!(extension_of(&bytes("a.jpgg")), 0);
}

#[test]
fn extension_at_a_position() {
    let text = bytes("x.png.jpeg.jpg.jp");
    assert_eq!(extension_at(&text, 0), 0);
    assert_eq!(extension_at(&text, 1), 4);
    assert_eq!(extension_at(&text, 5), 5);
    assert_eq!(extension_at(&text, 10), 4);
    assert_eq!(extension_at(&text, 14), 0);
    assert_eq!(extension_at(&text, 16), 0);
    assert_eq!(extension_at(&text, 17), 0);
    assert_eq!(extension_at(&text, 1000), 0);
    assert_eq!(extension_at(&bytes(".jpe"), 0), 0);
    assert_eq!(extension_at(&bytes(".jpeX"), 0), 0);
}

#[test]
fn converted_names() {
    assert_eq!(convert_name(&bytes("textures/wall.png")), bytes("textures/wall.ktx2"));
    assert_eq!(convert_name(&bytes("wall.jpg")), bytes("wall.ktx2"));
    assert_eq!(convert_name(&bytes("wall.jpeg")), bytes("wall.ktx2"));
    assert_eq!(convert_name(&bytes("wall.v2.png")), bytes("wall.v2.ktx2"));
    assert_eq!(convert_name(&bytes("wall.ktx2")), bytes("wall.ktx2"));
    assert_eq!(convert_name(&bytes("scene.gltf")), bytes("scene.gltf"));
    assert_eq!(convert_name(&bytes("")), bytes(""));
}

#[test]
fn converting_a_name_twice_changes_nothing_more() {
    for name in ["a.png", "b.jpg", "c.jpeg", "d.ktx2", "e", ".png.png", "x.jpeg.jpg"] {
        let once = convert_name(&bytes(name));
        assert_eq!(convert_name(&once), once);
        assert!(!should_convert(&once, &vec![]));
    }
}

#[test]
fn only_unconverted_source_images_are_converted() {
    assert!(should_convert(&bytes("a.png"), &vec![0x89, 0x50, 0x4e, 0x47]));
    assert!(should_convert(&bytes("a.jpg"), &vec![]));
    // named like a source image, but holding a container already
    assert!(!should_convert(&bytes("a.png"), &MAGIC.to_vec()));
    assert!(!should_convert(&bytes("a.ktx2"), &MAGIC.to_vec()));
    assert!(!should_convert(&bytes("a.ktx2"), &vec![]));
    assert!(!should_convert(&bytes("a.gltf"), &vec![]));
}

#[test]
fn references_are_rewritten() {
    let text = bytes(r#"{"images":[{"uri":"a/wall.png"},{"uri":"floor.jpg"},{"uri":"sky.jpeg"}]}"#);
    let want = bytes(r#"{"images":[{"uri":"a/wall.ktx2"},{"uri":"floor.ktx2"},{"uri":"sky.ktx2"}]}"#);
    assert_eq!(rewrite_references(&text), want);
    assert_eq!(rewrite_references(&want), want);
}

#[test]
fn rewriting_goes_from_left_to_right() {
    assert_eq!(rewrite_references(&bytes("")), bytes(""));
    assert_eq!(rewrite_references(&bytes("plain text.")), bytes("plain text."));
    assert_eq!(rewrite_references(&bytes(".png")), bytes(".ktx2"));
    assert_eq!(rewrite_references(&bytes(".png.png")), bytes(".ktx2.ktx2"));
    assert_eq!(rewrite_references(&bytes(".jpegg")), bytes(".ktx2g"));
    assert_eq!(rewrite_references(&bytes(".jpgeg")), bytes(".ktx2eg"));
    assert_eq!(rewrite_references(&bytes(".p.pngng")), bytes(".p.ktx2ng"));
    assert_eq!(rewrite_references(&bytes(".jp.jpeg")), bytes(".jp.ktx2"));
    assert_eq!(rewrite_references(&bytes("..png")), bytes("..ktx2"));
    assert_eq!(rewrite_references(&bytes(".PNG .pn .jp")), bytes(".PNG .pn .jp"));
}

#[test]
fn rewriting_twice_changes_nothing_more() {
    let mut seed: u32 = 7;
    let alphabet = b".pngje";
    for _ in 0..200 {
        let mut text = Vec::new();
        for _ in 0..24 {
            seed = seed.wrapping_mul(1664525).wrapping_add(1013904223);
            text.push(alphabet[(seed >> 24) as usize % alphabet.len()]);
        }
        let once = rewrite_references(&text);
        assert_eq!(rewrite_references(&once), once);
        for at in 0..once.len() {
            assert_eq!(extension_at(&once, at), 0);
        }
    }
}
