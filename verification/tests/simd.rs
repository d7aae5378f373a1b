use tiny_trie::simd::{children_mask, children_mask_u16, children_mask_u64, children_mask_u8};

#[test]
fn test_children_mask() {
    let mut children = [0u32; 16];
    assert_eq!(children_mask(&children), 0);

    children[0] = 1;
    assert_eq!(children_mask(&children), 0b0000_0000_0000_0001);

    children[7] = 42;
    assert_eq!(children_mask(&children), 0b0000_0000_1000_0001);

    children[15] = 255;
    assert_eq!(children_mask(&children), 0b1000_0000_1000_0001);

    // All non-zero
    for i in 0..16 {
        children[i] = (i + 1) as u32;
    }
    assert_eq!(children_mask(&children), 0xFFFF);
}

#[test]
fn test_children_mask_u16() {
    let mut children = [0u16; 16];
    assert_eq!(children_mask_u16(&children), 0);

    children[0] = 1;
    assert_eq!(children_mask_u16(&children), 0b0000_0000_0000_0001);

    children[7] = 42;
    assert_eq!(children_mask_u16(&children), 0b0000_0000_1000_0001);

    children[15] = 255;
    assert_eq!(children_mask_u16(&children), 0b1000_0000_1000_0001);

    // All non-zero
    for i in 0..16 {
        children[i] = (i + 1) as u16;
    }
    assert_eq!(children_mask_u16(&children), 0xFFFF);
}

#[test]
fn test_children_mask_u64() {
    let mut children = [0u64; 16];
    assert_eq!(children_mask_u64(&children), 0);

    children[0] = 1;
    assert_eq!(children_mask_u64(&children), 0b0000_0000_0000_0001);

    children[7] = 42;
    assert_eq!(children_mask_u64(&children), 0b0000_0000_1000_0001);

    children[15] = 255;
    assert_eq!(children_mask_u64(&children), 0b1000_0000_1000_0001);

    // All non-zero
    for i in 0..16 {
        children[i] = (i + 1) as u64;
    }
    assert_eq!(children_mask_u64(&children), 0xFFFF);
}

#[test]
fn test_children_mask_u8() {
    let mut children = [0u8; 16];
    assert_eq!(children_mask_u8(&children), 0);

    children[0] = 1;
    assert_eq!(children_mask_u8(&children), 0b0000_0000_0000_0001);

    children[7] = 42;
    assert_eq!(children_mask_u8(&children), 0b0000_0000_1000_0001);

    children[15] = 255;
    assert_eq!(children_mask_u8(&children), 0b1000_0000_1000_0001);

    // All non-zero
    for i in 0..16 {
        children[i] = (i + 1) as u8;
    }
    assert_eq!(children_mask_u8(&children), 0xFFFF);
}
