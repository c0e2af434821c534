use expensive_similarity::aligned::{Packable, Packed};

#[test]
fn new_block_is_all_default() {
    let b = Packed::new(8);
    assert_eq!(b.len(), 8);
    for p in 0..8 {
        assert_eq!(b.get(p), 0u8);
    }
    assert_eq!(b.cmp_default(), 0u8);
}

#[test]
fn from_value_fills_every_position() {
    let b = Packed::from_value(9, 4);
    assert_eq!(b.len(), 4);
    assert_eq!(*b.iter(), vec![9u8, 9, 9, 9]);
}

#[test]
fn packing_truncates_long_sources() {
    let src: Vec<u8> = vec![1, 2, 3, 4, 5, 6];
    let b = Packed::from_vals_at(&src, 0, 4);
    assert_eq!(*b.iter(), vec![1u8, 2, 3, 4]);
}

#[test]
fn packing_pads_short_sources_with_default() {
    let src: Vec<u8> = vec![7, 8];
    let b = Packed::from_vals_at(&src, 0, 5);
    assert_eq!(*b.iter(), vec![7u8, 8, 0, 0, 0]);
}

#[test]
fn packing_starts_mid_source() {
    let src: Vec<u8> = vec![1, 2, 3, 4, 5];
    let b = Packed::from_vals_at(&src, 3, 4);
    assert_eq!(*b.iter(), vec![4u8, 5, 0, 0]);
}

#[test]
fn packing_optionals_maps_missing_to_default() {
    let src: Vec<Option<u8>> = vec![Some(3), None, Some(5)];
    let b = Packed::from_opts_at(&src, 0, 4);
    assert_eq!(*b.iter(), vec![3u8, 0, 5, 0]);
}

#[test]
fn repacking_a_packed_and_unpacked_sequence_is_identity() {
    let src: Vec<u8> = vec![4, 5, 6];
    let once = Packed::from_vals_at(&src, 0, 8);
    let unpacked: Vec<u8> = once.iter().clone();
    let twice = Packed::from_vals_at(&unpacked, 0, 8);
    assert_eq!(*once.iter(), *twice.iter());
}

#[test]
fn consume_vec_cuts_into_padded_blocks() {
    let blocks = Packed::consume_vec(vec![1u8, 2, 3, 4, 5], 2);
    assert_eq!(blocks.len(), 3);
    assert_eq!(*blocks[0].iter(), vec![1u8, 2]);
    assert_eq!(*blocks[1].iter(), vec![3u8, 4]);
    assert_eq!(*blocks[2].iter(), vec![5u8, 0]);
}

#[test]
fn consume_vec_of_empty_source_gives_no_blocks() {
    let blocks = Packed::consume_vec(Vec::new(), 4);
    assert_eq!(blocks.len(), 0);
}

#[test]
fn consume_option_vec_cuts_and_fills_missing() {
    let blocks = Packed::consume_option_vec(vec![Some(1u8), None, Some(3), Some(4), None], 3);
    assert_eq!(blocks.len(), 2);
    assert_eq!(*blocks[0].iter(), vec![1u8, 0, 3]);
    assert_eq!(*blocks[1].iter(), vec![4u8, 0, 0]);
}
