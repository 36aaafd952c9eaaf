use custom_was::sampling_zipper::child_bytes;

#[test]
fn child_bytes_lists_set_bits_ascending() {
    let mut words = [0u64; 4];
    for b in [0u8, 5, 63, 64, 130, 255] {
        words[(b / 64) as usize] |= 1u64 << (b % 64);
    }
    assert_eq!(child_bytes(words), vec![0u8, 5, 63, 64, 130, 255]);
}

#[test]
fn child_bytes_of_empty_and_full_masks() {
    assert!(child_bytes([0u64; 4]).is_empty());
    let all = child_bytes([u64::MAX; 4]);
    assert_eq!(all.len(), 256);
    assert_eq!(all[0], 0);
    assert_eq!(all[255], 255);
}

#[test]
fn child_bytes_single_branch() {
    assert_eq!(child_bytes([0, 0, 1 << 7, 0]), vec![135u8]);
}

use custom_was::sampling_zipper::sample_child_byte;

fn mask_of(bytes: &[u8]) -> [u64; 4] {
    let mut words = [0u64; 4];
    for &b in bytes {
        words[(b / 64) as usize] |= 1u64 << (b % 64);
    }
    words
}

#[test]
fn sample_child_at_leaf_is_none() {
    let r = sample_child_byte([0u64; 4], |_n| -> Option<usize> { panic!("no draw at a leaf") });
    assert_eq!(r, None);
}

#[test]
fn sample_child_single_branch_needs_no_draw() {
    let r = sample_child_byte(mask_of(&[42]), |_n| -> Option<usize> { panic!("no draw for one branch") });
    assert_eq!(r, Some(42));
}

#[test]
fn sample_child_takes_drawn_index() {
    let words = mask_of(&[200, 3, 70]);
    assert_eq!(sample_child_byte(words, |n| { assert_eq!(n, 3); Some(0) }), Some(3));
    assert_eq!(sample_child_byte(words, |_n| Some(1)), Some(70));
    assert_eq!(sample_child_byte(words, |_n| Some(2)), Some(200));
}

#[test]
fn sample_child_falls_back_to_last_branch() {
    let words = mask_of(&[9, 10]);
    assert_eq!(sample_child_byte(words, |_n| None), Some(10));
    assert_eq!(sample_child_byte(words, |_n| Some(5)), Some(10));
}
