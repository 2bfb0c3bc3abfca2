use any_arena::layout::{
    bitpack_tydesc_ptr, is_alignment, next_power_of_two, round_up, un_bitpack_tydesc_ptr, HEADER,
    MAX_ALIGN, MAX_CHUNK,
};
use any_arena::{Chunk, TyDesc};

#[test]
fn round_up_lands_on_the_next_multiple() {
    assert_eq!(round_up(0, 8), 0);
    assert_eq!(round_up(1, 8), 8);
    assert_eq!(round_up(8, 8), 8);
    assert_eq!(round_up(9, 4), 12);
    assert_eq!(round_up(13, 1), 13);
    assert_eq!(round_up(17, 16), 32);
    assert_eq!(round_up(24, 64), 64);
}

#[test]
fn round_up_is_aligned_and_close() {
    for base in 0..200usize {
        for shift in 0..8 {
            let align = 1usize << shift;
            let r = round_up(base, align);
            assert_eq!(r % align, 0);
            assert!(base <= r && r < base + align);
        }
    }
}

#[test]
fn packing_sets_the_lowest_bit() {
    assert_eq!(bitpack_tydesc_ptr(10, false), 10);
    assert_eq!(bitpack_tydesc_ptr(10, true), 11);
    assert_eq!(bitpack_tydesc_ptr(0, true), 1);
    assert_eq!(un_bitpack_tydesc_ptr(10), (10, false));
    assert_eq!(un_bitpack_tydesc_ptr(11), (10, true));
    assert_eq!(un_bitpack_tydesc_ptr(1), (0, true));
}

#[test]
fn packing_round_trips() {
    for index in 0..100usize {
        let p = 2 * index;
        assert_eq!(un_bitpack_tydesc_ptr(bitpack_tydesc_ptr(p, true)), (p, true));
        assert_eq!(un_bitpack_tydesc_ptr(bitpack_tydesc_ptr(p, false)), (p, false));
    }
}

#[test]
fn next_power_of_two_is_the_least_one() {
    assert_eq!(next_power_of_two(0), 1);
    assert_eq!(next_power_of_two(1), 1);
    assert_eq!(next_power_of_two(2), 2);
    assert_eq!(next_power_of_two(3), 4);
    assert_eq!(next_power_of_two(33), 64);
    assert_eq!(next_power_of_two(64), 64);
    assert_eq!(next_power_of_two(65), 128);
    for x in 1..1000usize {
        assert_eq!(next_power_of_two(x), x.next_power_of_two());
    }
}

#[test]
fn alignments_are_powers_of_two_within_the_limit() {
    assert!(is_alignment(1));
    assert!(is_alignment(2));
    assert!(is_alignment(8));
    assert!(is_alignment(MAX_ALIGN));
    assert!(!is_alignment(0));
    assert!(!is_alignment(3));
    assert!(!is_alignment(12));
    assert!(!is_alignment(2 * MAX_ALIGN));
    assert!(!is_alignment(usize::MAX));
}

#[test]
fn constants_have_their_values() {
    assert_eq!(HEADER, 8);
    assert_eq!(MAX_ALIGN, 1 << 29);
    assert_eq!(MAX_CHUNK, 1 << (usize::BITS - 2));
}

#[test]
fn descriptors_compare_field_by_field() {
    let a = TyDesc { drop_glue: Some(1), size: 8, align: 8 };
    assert!(a.same(&TyDesc { drop_glue: Some(1), size: 8, align: 8 }));
    assert!(!a.same(&TyDesc { drop_glue: Some(2), size: 8, align: 8 }));
    assert!(!a.same(&TyDesc { drop_glue: None, size: 8, align: 8 }));
    assert!(!a.same(&TyDesc { drop_glue: Some(1), size: 4, align: 8 }));
    assert!(!a.same(&TyDesc { drop_glue: Some(1), size: 8, align: 4 }));
    assert!(a.needs_drop());
    assert!(!TyDesc { drop_glue: None, size: 8, align: 8 }.needs_drop());
    assert!(a.is_valid());
    assert!(!TyDesc { drop_glue: None, size: 8, align: 6 }.is_valid());
}

#[test]
fn a_new_chunk_is_zeroed_and_unused() {
    let chunk = Chunk::new(16, true);
    assert_eq!(chunk.capacity(), 16);
    assert_eq!(chunk.fill(), 0);
    assert_eq!(chunk.ord(), 0);
    assert!(chunk.is_copy());
    assert_eq!(chunk.bytes(0, 16), &[0u8; 16][..]);
    let other = Chunk::new(0, false);
    assert_eq!(other.capacity(), 0);
    assert!(!other.is_copy());
    assert!(other.destroy(&vec![]).is_empty());
}
