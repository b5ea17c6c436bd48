use dht::branch::{determine_node, Direction};
use dht::distance::xor_distance;

#[test]
fn test_distance_of_single_bytes_is_their_xor() {
    assert_eq!(xor_distance(&[0x15], &[0x11]), 0x04);
    assert_eq!(xor_distance(&[0x15], &[0x10]), 0x05);
    assert_eq!(xor_distance(&[0x15], &[0x05]), 0x10);
    assert_eq!(xor_distance(&[0xff], &[0x00]), 255);
}

#[test]
fn test_distance_folds_bytes_most_significant_first() {
    assert_eq!(xor_distance(&[0x00, 0x03], &[0x01, 0x03]), 256);
    assert_eq!(xor_distance(&[0x00, 0x03], &[0x80, 0x03]), 0x8000);
    assert_eq!(xor_distance(&[0x12, 0x34], &[0x56, 0x78]), 0x444c);
    assert_eq!(xor_distance(&[1, 2, 3], &[3, 2, 1]), 0x020002);
}

#[test]
fn test_distance_counts_missing_bytes_as_ff() {
    assert_eq!(xor_distance(&[0x01], &[0x01, 0x02]), 255);
    assert_eq!(xor_distance(&[0x01, 0x02], &[0x01]), 255);
    assert_eq!(xor_distance(&[], &[5, 6]), 65535);
    assert_eq!(xor_distance(&[0x03], &[0x01, 0x00, 0x00]), 0x02ffff);
}

#[test]
fn test_distance_of_empty_identifiers_is_zero() {
    assert_eq!(xor_distance(&[], &[]), 0);
}

#[test]
fn test_distance_is_symmetric() {
    let ids: [&[u8]; 6] = [&[], &[0x00], &[0x2c], &[0x01, 0x80], &[0xff, 0xff, 0x01], &[7; 20]];
    for a in ids {
        for b in ids {
            assert_eq!(xor_distance(a, b), xor_distance(b, a));
        }
    }
}

#[test]
fn test_distance_to_itself_is_zero() {
    let ids: [&[u8]; 5] = [&[], &[0x00], &[0x2c], &[0xff, 0xff, 0x01], &[7; 20]];
    for a in ids {
        assert_eq!(xor_distance(a, a), 0);
    }
}

#[test]
fn test_distance_wraps_past_the_width_of_the_accumulator() {
    let width = std::mem::size_of::<usize>();
    let mut a = vec![0u8; width + 1];
    let b = vec![0u8; width + 1];
    // the difference in the first byte is shifted out altogether
    a[0] = 1;
    assert_eq!(xor_distance(&a, &b), 0);
    // the difference in the second byte ends up on top
    a[1] = 1;
    assert_eq!(xor_distance(&a, &b), 1usize << (8 * (width - 1)));
}

#[test]
fn test_determine_node_reads_bits_from_the_top() {
    assert_eq!(determine_node(&[0x80u8], 0), Direction::Right);
    assert_eq!(determine_node(&[0x80u8], 1), Direction::Left);
    assert_eq!(determine_node(&[0x01u8], 7), Direction::Right);
    assert_eq!(determine_node(&[0x01u8], 6), Direction::Left);
    assert_eq!(determine_node(&[0x00u8, 0x40], 9), Direction::Right);
    assert_eq!(determine_node(&[0xffu8, 0x7f], 8), Direction::Left);
    assert_eq!(determine_node(&vec![0x00u8, 0x00, 0x10], 19), Direction::Right);
}

#[test]
fn test_determine_node_sends_exhausted_identifiers_left() {
    assert_eq!(determine_node(&[0xffu8], 9), Direction::Left);
    assert_eq!(determine_node(&[0xffu8], 15), Direction::Left);
    assert_eq!(determine_node(&[0xffu8], 17), Direction::Left);
    assert_eq!(determine_node(&Vec::<u8>::new(), 3), Direction::Left);
}
