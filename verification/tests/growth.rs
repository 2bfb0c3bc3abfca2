use any_arena::{AnyArena, Slot, TyDesc};

const POINT: TyDesc = TyDesc { drop_glue: None, size: 12, align: 4 };
const RC: TyDesc = TyDesc { drop_glue: Some(1), size: 8, align: 8 };
const WIDE: TyDesc = TyDesc { drop_glue: Some(2), size: 4, align: 16 };

fn put(arena: &mut AnyArena, desc: TyDesc, bytes: Vec<u8>) -> Slot {
    assert!(arena.can_allocate(&desc));
    arena.allocate(desc, || Ok::<Vec<u8>, ()>(bytes)).unwrap()
}

#[test]
fn a_new_arena_has_32_bytes_in_each_pool() {
    let arena = AnyArena::new();
    assert_eq!(arena.capacity(true), 32);
    assert_eq!(arena.capacity(false), 32);
    assert_eq!(arena.fill(true), 0);
    assert_eq!(arena.fill(false), 0);
    assert_eq!(arena.retired(), 0);
    assert!(arena.teardown().is_empty());
}

#[test]
fn a_sized_arena_has_that_size_in_each_pool() {
    let arena = AnyArena::new_with_size(100);
    assert_eq!(arena.capacity(true), 100);
    assert_eq!(arena.capacity(false), 100);
    let empty = AnyArena::new_with_size(0);
    assert_eq!(empty.capacity(true), 0);
    assert_eq!(empty.capacity(false), 0);
}

#[test]
fn copy_values_are_bumped_with_padding() {
    let mut arena = AnyArena::new();
    let a = arena.alloc_bytes(3);
    assert_eq!(a, Slot { copy: true, chunk: 0, header: 0, start: 0, len: 3 });
    let b = put(&mut arena, POINT, vec![7; 12]);
    assert_eq!(b, Slot { copy: true, chunk: 0, header: 4, start: 4, len: 12 });
    assert_eq!(arena.fill(true), 16);
    let c = arena.alloc_bytes(0);
    assert_eq!(c, Slot { copy: true, chunk: 0, header: 16, start: 16, len: 0 });
    assert_eq!(arena.fill(true), 16);
    assert_eq!(arena.fill(false), 0);
}

#[test]
fn records_are_laid_out_behind_their_headers() {
    let mut arena = AnyArena::new_with_size(1024);
    let a = put(&mut arena, RC, vec![1; 8]);
    assert_eq!(a, Slot { copy: false, chunk: 0, header: 0, start: 8, len: 8 });
    assert_eq!(arena.fill(false), 16);
    let b = put(&mut arena, WIDE, vec![2; 4]);
    assert_eq!(b, Slot { copy: false, chunk: 0, header: 16, start: 32, len: 4 });
    assert_eq!(arena.fill(false), 40);
    let c = put(&mut arena, RC, vec![3; 8]);
    assert_eq!(c, Slot { copy: false, chunk: 0, header: 40, start: 48, len: 8 });
    assert_eq!(arena.fill(false), 56);
    assert_eq!(arena.fill(true), 0);
}

#[test]
fn a_full_chunk_is_replaced_and_retired() {
    let mut arena = AnyArena::new();
    // No room beyond the buffer's length: the chunk must be replaced.
    let replaced = arena.grow_within(true, 0, 100, 0);
    assert!(replaced);
    // The chunk was unused: it is not kept.
    assert_eq!(arena.retired(), 0);
    assert_eq!(arena.capacity(true), 128);
    assert_eq!(arena.capacity(false), 32);
    let slot = arena.alloc_bytes(100);
    assert_eq!(slot.chunk, 0);
    let replaced = arena.grow_within(true, 100, 29, 128);
    assert!(replaced);
    // The chunk was in use: it is retired.
    assert_eq!(arena.retired(), 1);
    assert_eq!(arena.capacity(true), 256);
    assert_eq!(arena.fill(true), 0);
    assert!(arena.contains(slot));
    let next = arena.alloc_bytes(1);
    assert_eq!(next, Slot { copy: true, chunk: 1, header: 0, start: 0, len: 1 });
}

#[test]
fn the_replacement_is_the_power_of_two_above_request_and_capacity() {
    let mut arena = AnyArena::new();
    assert!(arena.grow_within(false, 0, 5, 0));
    assert_eq!(arena.capacity(false), 64);
    assert!(arena.grow_within(false, 0, 64, 0));
    assert_eq!(arena.capacity(false), 128);
    assert!(arena.grow_within(false, 0, 1000, 0));
    assert_eq!(arena.capacity(false), 1024);
    assert!(arena.grow_within(false, 0, 1024, 0));
    assert_eq!(arena.capacity(false), 2048);
}

#[test]
fn a_chunk_grows_in_place_where_its_buffer_has_room() {
    let mut arena = AnyArena::new_with_size(8);
    arena.alloc_bytes(6);
    let replaced = arena.grow_within(true, 6, 20, 100);
    assert!(!replaced);
    assert_eq!(arena.capacity(true), 100);
    assert_eq!(arena.fill(true), 6);
    assert_eq!(arena.retired(), 0);
    // Room that does not hold the request does not count.
    let replaced = arena.grow_within(true, 6, 200, 150);
    assert!(replaced);
    assert_eq!(arena.capacity(true), 256);
    assert_eq!(arena.retired(), 1);
}

#[test]
fn growth_by_the_buffer_s_own_room_serves_the_request() {
    let mut arena = AnyArena::new();
    arena.alloc_bytes(30);
    let replaced = arena.alloc_grow(true, 30, 10);
    if replaced {
        assert_eq!(arena.capacity(true), 64);
        assert_eq!(arena.fill(true), 0);
        assert_eq!(arena.retired(), 1);
    } else {
        assert!(arena.capacity(true) >= 40);
        assert_eq!(arena.fill(true), 30);
        assert_eq!(arena.retired(), 0);
    }
}

#[test]
fn allocation_grows_the_pool_it_uses() {
    let mut arena = AnyArena::new();
    let mut slots = vec![];
    for i in 0..100u8 {
        slots.push(put(&mut arena, POINT, vec![i; 12]));
        slots.push(put(&mut arena, RC, vec![i; 8]));
    }
    for (i, pair) in slots.chunks(2).enumerate() {
        assert_eq!(arena.get(pair[0]), &vec![i as u8; 12][..]);
        assert_eq!(arena.get(pair[1]), &vec![i as u8; 8][..]);
    }
    assert!(arena.retired() > 0);
    assert!(arena.capacity(true) >= 64);
    assert!(arena.capacity(false) >= 64);
}

#[test]
fn a_record_larger_than_the_chunk_finds_room() {
    let mut arena = AnyArena::new_with_size(96);
    let big = TyDesc { drop_glue: Some(9), size: 8, align: 128 };
    arena.alloc_bytes(1);
    for _ in 0..5 {
        put(&mut arena, RC, vec![0; 8]);
    }
    assert_eq!(arena.fill(false), 80);
    let slot = put(&mut arena, big, vec![5; 8]);
    assert_eq!(slot.start % 128, 0);
    assert!(arena.fill(false) <= arena.capacity(false));
    assert_eq!(arena.get(slot), &[5u8; 8][..]);
}

#[test]
fn clear_keeps_the_two_active_buffers() {
    let mut arena = AnyArena::new();
    for i in 0..50u8 {
        put(&mut arena, POINT, vec![i; 12]);
        put(&mut arena, RC, vec![i; 8]);
    }
    let copy_capacity = arena.capacity(true);
    let capacity = arena.capacity(false);
    let dropped = arena.clear();
    assert_eq!(dropped.len(), 50);
    assert_eq!(arena.capacity(true), copy_capacity);
    assert_eq!(arena.capacity(false), capacity);
    assert_eq!(arena.fill(true), 0);
    assert_eq!(arena.fill(false), 0);
    assert_eq!(arena.retired(), 0);
    let slot = put(&mut arena, POINT, vec![1; 12]);
    assert_eq!(slot, Slot { copy: true, chunk: 0, header: 0, start: 0, len: 12 });
    assert!(arena.clear().is_empty());
}

#[test]
fn requests_beyond_the_limits_are_not_admitted() {
    let arena = AnyArena::new();
    assert!(arena.can_alloc_bytes(0));
    assert!(arena.can_alloc_bytes(32));
    assert!(arena.can_alloc_bytes(1 << 20));
    assert!(!arena.can_alloc_bytes(usize::MAX));
    assert!(!arena.can_alloc_bytes(usize::MAX / 2));
    assert!(arena.can_allocate(&RC));
    assert!(arena.can_allocate(&POINT));
    assert!(!arena.can_allocate(&TyDesc { drop_glue: None, size: 4, align: 3 }));
    assert!(!arena.can_allocate(&TyDesc { drop_glue: Some(1), size: 4, align: 0 }));
    assert!(!arena.can_allocate(&TyDesc { drop_glue: Some(1), size: usize::MAX, align: 8 }));
    assert!(!arena.can_allocate(&TyDesc { drop_glue: None, size: usize::MAX - 8, align: 8 }));
    assert!(arena.can_allocate(&TyDesc { drop_glue: Some(1), size: 0, align: 1 }));
}
