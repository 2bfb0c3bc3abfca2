use any_arena::{AnyArena, Slot, TyDesc};

const POINT: TyDesc = TyDesc { drop_glue: None, size: 12, align: 4 };
const WORD: TyDesc = TyDesc { drop_glue: None, size: 8, align: 8 };
const PAIR: TyDesc = TyDesc { drop_glue: None, size: 2, align: 2 };
const RC: TyDesc = TyDesc { drop_glue: Some(1), size: 8, align: 8 };
const WIDE: TyDesc = TyDesc { drop_glue: Some(2), size: 24, align: 32 };

fn put(arena: &mut AnyArena, desc: TyDesc, bytes: Vec<u8>) -> Slot {
    assert!(arena.can_allocate(&desc));
    arena.allocate(desc, || Ok::<Vec<u8>, ()>(bytes)).unwrap()
}

fn overlap(s: &Slot, t: &Slot) -> bool {
    s.copy == t.copy && s.chunk == t.chunk && s.start < t.start + t.len && t.start < s.start + s.len
}

#[test]
fn every_allocation_is_aligned() {
    let mut arena = AnyArena::new();
    for i in 0..1000usize {
        let small = TyDesc { drop_glue: None, size: i % 7, align: 1 };
        let slot = put(&mut arena, small, vec![0; i % 7]);
        assert_eq!(slot.start % 1, 0);
        let slot = put(&mut arena, WORD, vec![0; 8]);
        assert_eq!(slot.start % 8, 0);
        let slot = put(&mut arena, PAIR, vec![0; 2]);
        assert_eq!(slot.start % 2, 0);
        let slot = put(&mut arena, RC, vec![0; 8]);
        assert_eq!(slot.start % 8, 0);
        assert_eq!(slot.header % 8, 0);
        let slot = put(&mut arena, WIDE, vec![0; 24]);
        assert_eq!(slot.start % 32, 0);
        assert_eq!(slot.header % 8, 0);
        assert!(slot.header + 8 <= slot.start);
    }
}

#[test]
fn allocations_do_not_overlap() {
    let mut arena = AnyArena::new();
    let mut slots: Vec<Slot> = vec![];
    for i in 0..60usize {
        let slot = match i % 3 {
            0 => put(&mut arena, POINT, vec![i as u8; 12]),
            1 => put(&mut arena, RC, vec![i as u8; 8]),
            _ => arena.alloc_bytes(i % 5),
        };
        for earlier in &slots {
            assert!(!overlap(earlier, &slot));
            assert!(arena.contains(*earlier));
        }
        slots.push(slot);
    }
}

#[test]
fn a_slot_reads_back_what_was_written() {
    let mut arena = AnyArena::new();
    let a = put(&mut arena, POINT, vec![1; 12]);
    let b = put(&mut arena, RC, vec![2; 8]);
    let c = arena.alloc_bytes(5);
    arena.write(c, &[3; 5]);
    assert_eq!(arena.get(a), &[1u8; 12][..]);
    assert_eq!(arena.get(b), &[2u8; 8][..]);
    assert_eq!(arena.get(c), &[3u8; 5][..]);
    arena.write(a, &[4; 12]);
    arena.write(b, &[5; 8]);
    assert_eq!(arena.get(a), &[4u8; 12][..]);
    assert_eq!(arena.get(b), &[5u8; 8][..]);
    assert_eq!(arena.get(c), &[3u8; 5][..]);
}

#[test]
fn a_slot_outlives_the_retirement_of_its_chunk() {
    let mut arena = AnyArena::new();
    let a = put(&mut arena, POINT, vec![1; 12]);
    let b = put(&mut arena, RC, vec![2; 8]);
    assert!(arena.grow_within(true, 12, 1, 0));
    assert!(arena.grow_within(false, 16, 1, 0));
    assert_eq!(arena.retired(), 2);
    assert!(arena.contains(a));
    assert!(arena.contains(b));
    assert_eq!(arena.get(a), &[1u8; 12][..]);
    assert_eq!(arena.get(b), &[2u8; 8][..]);
    arena.write(a, &[3; 12]);
    arena.write(b, &[4; 8]);
    assert_eq!(arena.get(a), &[3u8; 12][..]);
    assert_eq!(arena.get(b), &[4u8; 8][..]);
    let c = put(&mut arena, POINT, vec![5; 12]);
    assert_eq!(c.chunk, 1);
    assert_eq!(arena.get(a), &[3u8; 12][..]);
}

#[test]
fn slots_are_void_after_clear() {
    let mut arena = AnyArena::new();
    let a = put(&mut arena, POINT, vec![1; 12]);
    let b = put(&mut arena, RC, vec![2; 8]);
    let c = arena.alloc_bytes(0);
    assert!(arena.contains(a) && arena.contains(b) && arena.contains(c));
    arena.clear();
    assert!(!arena.contains(a));
    assert!(!arena.contains(b));
    assert!(!arena.awaits(b));
}

#[test]
fn slots_that_name_nothing_are_not_held() {
    let mut arena = AnyArena::new();
    let a = put(&mut arena, POINT, vec![1; 12]);
    let b = put(&mut arena, RC, vec![2; 8]);
    assert!(!arena.contains(Slot { chunk: 5, ..a }));
    assert!(!arena.contains(Slot { len: 13, ..a }));
    assert!(!arena.contains(Slot { header: 1, ..a }));
    assert!(!arena.contains(Slot { start: usize::MAX, ..a }));
    assert!(arena.contains(Slot { start: 2, header: 2, len: 4, ..a }));
    assert!(!arena.contains(Slot { chunk: 5, ..b }));
    assert!(!arena.contains(Slot { len: 7, ..b }));
    assert!(!arena.contains(Slot { start: 9, ..b }));
    assert!(!arena.contains(Slot { header: 8, start: 16, ..b }));
    assert!(!arena.contains(Slot { copy: true, ..b }));
}

#[test]
fn bytes_set_aside_keep_what_the_buffer_held() {
    let mut arena = AnyArena::new();
    let fresh = arena.alloc_bytes(8);
    assert_eq!(arena.get(fresh), &[0u8; 8][..]);
    arena.write(fresh, &[9; 8]);
    arena.clear();
    let stale = arena.alloc_bytes(8);
    assert_eq!(stale.start, 0);
    assert_eq!(arena.get(stale), &[9u8; 8][..]);
}
