use any_arena::{AnyArena, Dropped, Slot, TyDesc};

const RC: TyDesc = TyDesc { drop_glue: Some(1), size: 8, align: 8 };
const NAME: TyDesc = TyDesc { drop_glue: Some(2), size: 5, align: 1 };
const TRIPLE: TyDesc = TyDesc { drop_glue: None, size: 3, align: 1 };

fn word(i: u64) -> Vec<u8> {
    i.to_le_bytes().to_vec()
}

fn put(arena: &mut AnyArena, desc: TyDesc, bytes: Vec<u8>) -> Slot {
    assert!(arena.can_allocate(&desc));
    arena.allocate(desc, || Ok::<Vec<u8>, ()>(bytes)).unwrap()
}

fn words(dropped: &[Dropped]) -> Vec<u64> {
    dropped
        .iter()
        .map(|d| {
            let mut b = [0u8; 8];
            b.copy_from_slice(&d.payload);
            u64::from_le_bytes(b)
        })
        .collect()
}

#[test]
fn values_are_reported_with_their_destructor_and_bytes() {
    let mut arena = AnyArena::new();
    put(&mut arena, RC, word(41));
    put(&mut arena, NAME, b"hello".to_vec());
    put(&mut arena, TRIPLE, vec![1, 2, 3]);
    let dropped = arena.teardown();
    assert_eq!(dropped.len(), 2);
    assert_eq!(dropped[0].drop_glue, 1);
    assert_eq!(dropped[0].payload, word(41));
    assert_eq!(dropped[1].drop_glue, 2);
    assert_eq!(dropped[1].payload, b"hello".to_vec());
}

#[test]
fn the_active_chunk_is_walked_first_then_the_retired_in_order() {
    let mut arena = AnyArena::new_with_size(32);
    // Four chunks of 32, 64, 128 and 256 bytes hold 2, 4, 8 and 6 records.
    for i in 0..20 {
        put(&mut arena, RC, word(i));
    }
    if arena.retired() == 3 && arena.capacity(false) == 256 {
        let order = words(&arena.teardown());
        let mut expected: Vec<u64> = (14..20).collect();
        expected.extend(0..14);
        assert_eq!(order, expected);
    } else {
        let mut order = words(&arena.teardown());
        order.sort();
        assert_eq!(order, (0..20).collect::<Vec<u64>>());
    }
}

#[test]
fn within_a_chunk_the_oldest_comes_first() {
    let mut arena = AnyArena::new_with_size(4096);
    for i in 0..100 {
        put(&mut arena, RC, word(i));
        put(&mut arena, TRIPLE, vec![0, 1, 2]);
    }
    assert_eq!(arena.retired(), 0);
    assert_eq!(words(&arena.clear()), (0..100).collect::<Vec<u64>>());
}

#[test]
fn a_failed_initialiser_leaves_nothing_to_destroy() {
    let mut arena = AnyArena::new();
    for i in 0..10 {
        put(&mut arena, RC, word(i));
        put(&mut arena, TRIPLE, vec![0, 1, 2]);
    }
    let fill = arena.fill(false);
    let failed = arena.allocate(RC, || Err::<Vec<u8>, &str>("no value"));
    assert_eq!(failed, Err("no value"));
    // The record stays set aside, and is skipped by the walk.
    assert!(arena.fill(false) > fill || arena.retired() > 0);
    put(&mut arena, RC, word(10));
    let mut order = words(&arena.teardown());
    order.sort();
    assert_eq!(order, (0..11).collect::<Vec<u64>>());
}

#[test]
fn a_failed_initialiser_in_the_copy_pool_is_handed_on() {
    let mut arena = AnyArena::new();
    let failed = arena.allocate(TRIPLE, || Err::<Vec<u8>, u32>(7));
    assert_eq!(failed, Err(7));
    assert_eq!(arena.fill(true), 3);
    assert!(arena.teardown().is_empty());
}

#[test]
fn only_failures_leave_an_arena_with_nothing_due() {
    let mut arena = AnyArena::new();
    for _ in 0..100 {
        let failed = arena.allocate(RC, || Err::<Vec<u8>, ()>(()));
        assert!(failed.is_err());
    }
    assert!(arena.clear().is_empty());
    assert!(arena.teardown().is_empty());
}

#[test]
fn a_record_is_due_only_once_it_is_committed() {
    let mut arena = AnyArena::new_with_size(1024);
    let outer = arena.alloc_noncopy_inner(RC);
    assert!(arena.contains(outer));
    assert!(arena.awaits(outer));
    // While the outer value is being made, another one is allocated.
    let inner = put(&mut arena, RC, word(7));
    assert_ne!(outer, inner);
    assert!(inner.start >= outer.start + outer.len);
    assert!(!arena.awaits(inner));
    arena.commit(outer, &word(9));
    assert!(!arena.awaits(outer));
    assert_eq!(arena.get(outer), &word(9)[..]);
    assert_eq!(arena.get(inner), &word(7)[..]);
    assert_eq!(words(&arena.teardown()), vec![9, 7]);
}

#[test]
fn a_record_never_committed_is_never_due() {
    let mut arena = AnyArena::new_with_size(1024);
    let outer = arena.alloc_noncopy_inner(RC);
    put(&mut arena, RC, word(7));
    assert!(arena.awaits(outer));
    assert_eq!(words(&arena.clear()), vec![7]);
    assert!(!arena.contains(outer));
}

#[test]
fn a_record_in_a_retired_chunk_can_still_be_committed() {
    let mut arena = AnyArena::new_with_size(16);
    let outer = arena.alloc_noncopy_inner(RC);
    let inner = put(&mut arena, RC, word(1));
    if arena.retired() == 1 {
        assert_ne!(outer.chunk, inner.chunk);
    }
    assert!(arena.awaits(outer));
    arena.commit(outer, &word(2));
    let mut order = words(&arena.teardown());
    order.sort();
    assert_eq!(order, vec![1, 2]);
}

#[test]
fn clear_reports_each_value_once() {
    let mut arena = AnyArena::new();
    let mut total = 0;
    for round in 0..10 {
        for i in 0..100 {
            put(&mut arena, RC, word(round * 100 + i));
        }
        let mut order = words(&arena.clear());
        order.sort();
        assert_eq!(order, (round * 100..round * 100 + 100).collect::<Vec<u64>>());
        total += order.len();
        assert!(arena.clear().is_empty());
    }
    assert_eq!(total, 1000);
    assert!(arena.teardown().is_empty());
}

#[test]
fn values_changed_in_place_are_reported_as_they_are() {
    let mut arena = AnyArena::new();
    let slot = put(&mut arena, RC, word(1));
    arena.write(slot, &word(2));
    assert_eq!(words(&arena.teardown()), vec![2]);
}

#[test]
fn the_same_type_is_described_once() {
    let mut arena = AnyArena::new();
    let first = arena.get_tydesc(RC);
    let second = arena.get_tydesc(NAME);
    assert_eq!(first, 0);
    assert_eq!(second, 2);
    assert_eq!(arena.get_tydesc(RC), 0);
    assert_eq!(arena.get_tydesc(NAME), 2);
    assert_eq!(arena.get_tydesc(TyDesc { drop_glue: Some(1), size: 8, align: 4 }), 4);
}
