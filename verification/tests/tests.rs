use any_arena::{AnyArena, Dropped, Slot, TyDesc};

/// Destructor numbers used below.
const RC_GLUE: usize = 1;
const NONCOPY_GLUE: usize = 2;
const COUNTER_GLUE: usize = 3;
const SMALL_GLUE: usize = 4;

const UNIT: TyDesc = TyDesc { drop_glue: None, size: 0, align: 1 };
const POINT: TyDesc = TyDesc { drop_glue: None, size: 12, align: 4 };
const TRIPLE: TyDesc = TyDesc { drop_glue: None, size: 3, align: 1 };
const RC: TyDesc = TyDesc { drop_glue: Some(RC_GLUE), size: 8, align: 8 };
const NONCOPY: TyDesc = TyDesc { drop_glue: Some(NONCOPY_GLUE), size: 48, align: 8 };
const COUNTER: TyDesc = TyDesc { drop_glue: Some(COUNTER_GLUE), size: 8, align: 8 };
const SMALL: TyDesc = TyDesc { drop_glue: Some(SMALL_GLUE), size: 0, align: 1 };

fn point_bytes(x: i32, y: i32, z: i32) -> Vec<u8> {
    let mut v = Vec::new();
    v.extend_from_slice(&x.to_le_bytes());
    v.extend_from_slice(&y.to_le_bytes());
    v.extend_from_slice(&z.to_le_bytes());
    v
}

fn noncopy_bytes(text: &str) -> Vec<u8> {
    let mut v = text.as_bytes().to_vec();
    v.resize(48, 0);
    v
}

fn word_bytes(i: u64) -> Vec<u8> {
    i.to_le_bytes().to_vec()
}

fn put(arena: &mut AnyArena, desc: TyDesc, bytes: Vec<u8>) -> Slot {
    assert!(arena.can_allocate(&desc));
    arena.allocate(desc, || Ok::<Vec<u8>, ()>(bytes)).unwrap()
}

/// Stands for running the destructors: counts the values whose destructor
/// has the given number.
fn run(dropped: &[Dropped], glue: usize) -> u32 {
    dropped.iter().filter(|d| d.drop_glue == glue).count() as u32
}

#[test]
pub fn test_arena_zero_sized() {
    let mut arena = AnyArena::new();
    let mut points = vec![];
    for _ in 0..1000 {
        for _ in 0..100 {
            put(&mut arena, UNIT, vec![]);
        }
        let point = put(&mut arena, POINT, point_bytes(1, 2, 3));
        points.push(point);
    }
    for point in &points {
        assert_eq!(arena.get(*point), &point_bytes(1, 2, 3)[..]);
    }
}

#[test]
pub fn test_arena_clear() {
    let mut arena = AnyArena::new();
    let mut destroyed = 0;
    for _ in 0..10 {
        destroyed += run(&arena.clear(), NONCOPY_GLUE);
        for _ in 0..10000 {
            put(&mut arena, POINT, point_bytes(1, 2, 3));
            put(&mut arena, NONCOPY, noncopy_bytes("hello world"));
        }
    }
    let last = arena.teardown();
    assert!(last.iter().all(|d| d.payload == noncopy_bytes("hello world")));
    destroyed += run(&last, NONCOPY_GLUE);
    assert_eq!(destroyed, 100000);
}

#[test]
pub fn test_arena_alloc_bytes() {
    let mut arena = AnyArena::new();
    let mut slots = vec![];
    for i in 0..10000usize {
        put(&mut arena, POINT, point_bytes(1, 2, 3));
        assert!(arena.can_alloc_bytes(i % 42));
        let slot = arena.alloc_bytes(i % 42);
        assert_eq!(slot.len, i % 42);
        assert_eq!(arena.get(slot).len(), i % 42);
        arena.write(slot, &vec![i as u8; i % 42]);
        slots.push(slot);
    }
    for (i, slot) in slots.iter().enumerate() {
        assert_eq!(arena.get(*slot), &vec![i as u8; i % 42][..]);
    }
}

#[test]
fn test_arena_destructors() {
    let mut arena = AnyArena::new();
    for i in 0..10 {
        // Something with a destructor, to make sure it is not lost.
        put(&mut arena, RC, word_bytes(i));
        // Something with funny size and alignment, to keep things interesting.
        put(&mut arena, TRIPLE, vec![0u8, 1u8, 2u8]);
    }
    let dropped = arena.teardown();
    assert_eq!(run(&dropped, RC_GLUE), 10);
}

#[test]
#[should_panic]
fn test_arena_destructors_fail() {
    let mut arena = AnyArena::new();
    // Put some stuff in the arena.
    for i in 0..10 {
        put(&mut arena, RC, word_bytes(i));
        put(&mut arena, TRIPLE, vec![0u8, 1, 2]);
    }
    // Now, panic while allocating
    let _ = arena.allocate::<(), _>(RC, || {
        panic!();
    });
}

#[test]
fn test_arena_drop_count() {
    let mut counter = 0;
    {
        let mut arena = AnyArena::new();
        for _ in 0..100 {
            put(&mut arena, COUNTER, word_bytes(0));
            put(&mut arena, TRIPLE, vec![0u8, 1u8, 2u8]);
        }
        counter += run(&arena.teardown(), COUNTER_GLUE);
    };
    assert_eq!(counter, 100);
}

#[test]
fn test_arena_drop_on_clear() {
    let mut counter = 0;
    for i in 0..10 {
        let mut arena = AnyArena::new();
        for _ in 0..100 {
            put(&mut arena, COUNTER, word_bytes(0));
            put(&mut arena, TRIPLE, vec![0u8, 1u8, 2u8]);
        }
        counter += run(&arena.clear(), COUNTER_GLUE);
        assert_eq!(counter, i * 100 + 100);
        assert_eq!(run(&arena.teardown(), COUNTER_GLUE), 0);
    }
}

#[test]
fn test_arena_drop_small_count() {
    let mut counter = 0;
    {
        let mut arena = AnyArena::new();
        for _ in 0..10 {
            for _ in 0..10 {
                put(&mut arena, SMALL, vec![]);
            }
            put(&mut arena, TRIPLE, vec![0u8, 1u8, 2u8]);
        }
        counter += run(&arena.teardown(), SMALL_GLUE);
    };
    assert_eq!(counter, 100);
}
