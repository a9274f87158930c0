use asset_pipeline::bytes::{push_all, push_le32, push_le64, read_le32, read_le64, same_bytes};

#[test]
fn integers_are_written_least_significant_byte_first() {
    let mut out = vec![9];
    push_le32(&mut out, 0x0403_0201);
    assert_eq!(out, vec![9, 1, 2, 3, 4]);
    push_le64(&mut out, 0x0807_0605_0403_0201);
    assert_eq!(out[5..], [1, 2, 3, 4, 5, 6, 7, 8]);
    let mut out = Vec::new();
    push_le32(&mut out, u32::MAX);
    push_le32(&mut out, 0);
    push_le64(&mut out, u64::MAX);
    assert_eq!(out, vec![255, 255, 255, 255, 0, 0, 0, 0, 255, 255, 255, 255, 255, 255, 255, 255]);
}

#[test]
fn integers_read_back() {
    for v in [0u32, 1, 255, 256, 0x0102_0304, 0x8000_0000, u32::MAX] {
        let mut out = vec![7, 7];
        push_le32(&mut out, v);
        assert_eq!(read_le32(&out, 2), v);
    }
    for v in [0u64, 1, 0xffff_ffff, 0x1_0000_0000, 0x0102_0304_0506_0708, u64::MAX] {
        let mut out = vec![7];
        push_le64(&mut out, v);
        out.push(7);
        assert_eq!(read_le64(&out, 1), v);
    }
}

#[test]
fn reading_at_an_offset() {
    let bytes = vec![0, 1, 0, 0, 0, 2, 0, 0, 0, 0, 0, 0, 0];
    assert_eq!(read_le32(&bytes, 0), 0x100);
    assert_eq!(read_le32(&bytes, 1), 1);
    assert_eq!(read_le64(&bytes, 5), 2);
    assert_eq!(read_le64(&bytes, 1), 0x2_0000_0001);
}

#[test]
fn copies_and_comparisons() {
    let mut out = vec![1];
    push_all(&mut out, &vec![2, 3]);
    push_all(&mut out, &vec![]);
    assert_eq!(out, vec![1, 2, 3]);
    assert!(same_bytes(&vec![], &vec![]));
    assert!(same_bytes(&vec![1, 2], &vec![1, 2]));
    assert!(!same_bytes(&vec![1, 2], &vec![1, 3]));
    assert!(!same_bytes(&vec![1, 2], &vec![2, 2]));
    assert!(!same_bytes(&vec![1, 2], &vec![1]));
    assert!(!same_bytes(&vec![], &vec![0]));
}
