//! What holds of the arena across its operations.

use crate::frames::{
    keeps, lemma_bump_copy_keeps, lemma_commit_keeps, lemma_reserve_keeps, lemma_write_keeps,
    overlap,
};
use crate::invariants::{lemma_bump_copy_wf, lemma_reserve_wf};
use crate::layout::MAX_CHUNK;
use crate::model::{ArenaView, DropView, Slot};
use crate::pending::{
    lemma_bump_copy_pending, lemma_commit_pending, lemma_committed_drops,
    lemma_reserve_order, lemma_reserve_pending, lemma_retired_drops_agree,
    lemma_write_copy_pending,
};
use crate::tydesc::TyDesc;
use vstd::prelude::*;

verus! {

/// A new arena holds no allocation but empty ones, and nothing in it is due
/// for destruction.
pub proof fn law_new_arena_is_empty(initial_size: int, s: Slot)
    requires
        0 <= initial_size <= MAX_CHUNK,
    ensures
        ArenaView::init(initial_size).wf(),
        ArenaView::init(initial_size).pending() == Seq::<DropView>::empty(),
        ArenaView::init(initial_size).holds(s) ==> s.len == 0,
{
    let a = ArenaView::init(initial_size);
    assert(a.pending() =~= Seq::<DropView>::empty());
}

/// Wherever an allocation lands, it starts at a multiple of its type's
/// alignment and has its type's size.
pub proof fn law_allocation_is_aligned(a: ArenaView, desc: TyDesc, room: int)
    requires
        a.wf(),
        a.chunks.len() < usize::MAX,
        a.admits(desc),
    ensures
        a.alloc_slot(desc, room).start % desc.align == 0,
        a.alloc_slot(desc, room).len == desc.size,
{
    if desc.drop_glue is Some {
        lemma_reserve_wf(a, desc, room);
        lemma_reserve_keeps(a, desc, room, a.alloc_slot(desc, room));
    } else {
        lemma_bump_copy_wf(a, desc.size as int, desc.align as int, room);
        lemma_bump_copy_keeps(
            a,
            desc.size as int,
            desc.align as int,
            room,
            a.alloc_slot(desc, room),
        );
    }
}

/// An allocation, whether its initialiser succeeds or fails, leaves every
/// earlier allocation in place with its bytes, and shares no byte with it.
pub proof fn law_allocation_keeps_slots(
    a: ArenaView,
    desc: TyDesc,
    room: int,
    payload: Option<Seq<u8>>,
    s: Slot,
)
    requires
        a.wf(),
        a.chunks.len() < usize::MAX,
        a.admits(desc),
        payload is Some ==> payload.unwrap().len() == desc.size,
    ensures
        a.allocate(desc, room, payload).wf(),
        keeps(a, a.allocate(desc, room, payload), s),
        a.holds(s) ==> !overlap(s, a.alloc_slot(desc, room)),
{
    let t = a.alloc_slot(desc, room);
    if desc.drop_glue is Some {
        let b = a.reserve(desc, room);
        lemma_reserve_wf(a, desc, room);
        lemma_reserve_keeps(a, desc, room, s);
        if payload is Some {
            lemma_commit_keeps(b, t, payload.unwrap(), s);
        }
    } else {
        let b = a.bump_copy(desc.size as int, desc.align as int, room);
        lemma_bump_copy_wf(a, desc.size as int, desc.align as int, room);
        lemma_bump_copy_keeps(a, desc.size as int, desc.align as int, room, s);
        if payload is Some {
            lemma_write_keeps(b, t, payload.unwrap(), s);
        }
    }
}

/// After an allocation whose initialiser gave `data`, the arena holds the
/// slot, and the slot holds `data`.
pub proof fn law_allocation_reads_back(a: ArenaView, desc: TyDesc, room: int, data: Seq<u8>)
    requires
        a.wf(),
        a.chunks.len() < usize::MAX,
        a.admits(desc),
        data.len() == desc.size,
    ensures
        a.allocate(desc, room, Some(data)).holds(a.alloc_slot(desc, room)),
        a.allocate(desc, room, Some(data)).contents(a.alloc_slot(desc, room)) == data,
{
    let t = a.alloc_slot(desc, room);
    if desc.drop_glue is Some {
        lemma_reserve_wf(a, desc, room);
        lemma_reserve_keeps(a, desc, room, t);
        lemma_commit_keeps(a.reserve(desc, room), t, data, t);
    } else {
        lemma_bump_copy_wf(a, desc.size as int, desc.align as int, room);
        lemma_bump_copy_keeps(a, desc.size as int, desc.align as int, room, t);
        lemma_write_keeps(a.bump_copy(desc.size as int, desc.align as int, room), t, data, t);
    }
}

/// Bytes set aside have the length asked for, lie apart from every earlier
/// allocation, and leave it in place with its bytes. Nothing becomes due for
/// destruction.
pub proof fn law_bytes_are_set_aside(a: ArenaView, len: int, room: int, s: Slot)
    requires
        a.wf(),
        a.chunks.len() < usize::MAX,
        a.admits_copy(len, 1),
    ensures
        a.bump_copy(len, 1, room).wf(),
        a.bump_copy(len, 1, room).holds(a.copy_slot(len, 1, room)),
        a.copy_slot(len, 1, room).len == len,
        keeps(a, a.bump_copy(len, 1, room), s),
        a.holds(s) ==> !overlap(s, a.copy_slot(len, 1, room)),
        a.bump_copy(len, 1, room).pending() == a.pending(),
{
    crate::layout::lemma_one_is_align();
    lemma_bump_copy_wf(a, len, 1, room);
    lemma_bump_copy_keeps(a, len, 1, room, s);
    lemma_bump_copy_pending(a, len, 1, room);
}

/// Writing over a slot stores the data there, and every slot that shares no
/// byte with it keeps its bytes.
pub proof fn law_write_reads_back(a: ArenaView, slot: Slot, data: Seq<u8>, s: Slot)
    requires
        a.wf(),
        a.holds(slot),
        data.len() == slot.len,
    ensures
        a.write(slot, data).wf(),
        a.write(slot, data).contents(slot) == data,
        !overlap(s, slot) ==> keeps(a, a.write(slot, data), s),
{
    lemma_write_keeps(a, slot, data, s);
}

/// A value of a type with a destructor whose initialiser succeeded is due
/// for destruction exactly once more than before, with the bytes that the
/// initialiser gave; nothing else that is due changes.
pub proof fn law_success_is_destroyed_once(a: ArenaView, desc: TyDesc, room: int, data: Seq<u8>)
    requires
        a.wf(),
        a.chunks.len() < usize::MAX,
        a.admits(desc),
        desc.drop_glue is Some,
        data.len() == desc.size,
    ensures
        a.allocate(desc, room, Some(data)).pending().to_multiset()
            == a.pending().to_multiset().insert(
            DropView { drop_glue: desc.drop_glue.unwrap(), payload: data },
        ),
        a.allocate(desc, room, Some(data)).pending().len() == a.pending().len() + 1,
{
    let b = a.reserve(desc, room);
    let t = a.reserved_slot(desc, room);
    lemma_reserve_wf(a, desc, room);
    lemma_reserve_keeps(a, desc, room, t);
    lemma_reserve_pending(a, desc, room);
    lemma_commit_pending(b, t, data);
    vstd::seq_lib::to_multiset_len(a.pending());
    vstd::seq_lib::to_multiset_len(a.allocate(desc, room, Some(data)).pending());
}

/// The order of destruction after a successful allocation of a value with a
/// destructor. Where the value lands in the active chunk, it comes after
/// the values of that chunk and before those of the retired chunks. Where
/// it lands in a replacement chunk, it comes first, and the values of the
/// chunk that was active come last, after those of the chunks retired
/// earlier.
pub proof fn law_destruction_order(a: ArenaView, desc: TyDesc, room: int, data: Seq<u8>)
    requires
        a.wf(),
        a.chunks.len() < usize::MAX,
        a.admits(desc),
        desc.drop_glue is Some,
        data.len() == desc.size,
    ensures
        ({
            let value = DropView { drop_glue: desc.drop_glue.unwrap(), payload: data };
            let retired = a.retired_drops_upto(a.chunks.len() as int);
            a.allocate(desc, room, Some(data)).pending() == if a.record_moves(desc, room) {
                seq![value] + retired + a.head.drops()
            } else {
                a.head.drops().push(value) + retired
            }
        }),
{
    let b = a.reserve(desc, room);
    let t = a.reserved_slot(desc, room);
    let f = b.commit(t, data);
    lemma_reserve_wf(a, desc, room);
    lemma_reserve_keeps(a, desc, room, t);
    lemma_reserve_order(a, desc, room);
    lemma_committed_drops(b.head, t, data);
    crate::invariants::lemma_committed_wf(b.head, t, data);
    crate::invariants::lemma_with_chunk_wf(b, t, b.head.committed(t, data));
    assert(f.chunks == b.chunks);
    lemma_retired_drops_agree(b, f, b.chunks.len() as int);
    let value = DropView { drop_glue: desc.drop_glue.unwrap(), payload: data };
    let retired = a.retired_drops_upto(a.chunks.len() as int);
    if a.record_moves(desc, room) {
        assert(f.pending() =~= seq![value] + retired + a.head.drops());
    }
}

/// A value whose initialiser failed is never due for destruction: what is
/// due is what was due before.
pub proof fn law_failure_is_never_destroyed(a: ArenaView, desc: TyDesc, room: int)
    requires
        a.wf(),
        a.admits(desc),
    ensures
        a.allocate(desc, room, None).pending().to_multiset() == a.pending().to_multiset(),
        a.allocate(desc, room, None).pending().len() == a.pending().len(),
{
    if desc.drop_glue is Some {
        lemma_reserve_pending(a, desc, room);
    } else {
        lemma_bump_copy_pending(a, desc.size as int, desc.align as int, room);
    }
    vstd::seq_lib::to_multiset_len(a.pending());
    vstd::seq_lib::to_multiset_len(a.allocate(desc, room, None).pending());
}

/// A value of a type without destructor is never due for destruction.
pub proof fn law_copy_is_never_destroyed(
    a: ArenaView,
    desc: TyDesc,
    room: int,
    payload: Option<Seq<u8>>,
)
    requires
        a.wf(),
        a.chunks.len() < usize::MAX,
        a.admits(desc),
        desc.drop_glue is None,
        payload is Some ==> payload.unwrap().len() == desc.size,
    ensures
        a.allocate(desc, room, payload).pending() == a.pending(),
{
    let b = a.bump_copy(desc.size as int, desc.align as int, room);
    let t = a.copy_slot(desc.size as int, desc.align as int, room);
    lemma_bump_copy_wf(a, desc.size as int, desc.align as int, room);
    lemma_bump_copy_keeps(a, desc.size as int, desc.align as int, room, t);
    lemma_bump_copy_pending(a, desc.size as int, desc.align as int, room);
    if payload is Some {
        lemma_write_copy_pending(b, t, payload.unwrap());
    }
}

/// After `clear` nothing is due for destruction, and the arena holds no
/// allocation but empty ones: every slot handed out before is void.
pub proof fn law_clear_leaves_nothing(a: ArenaView, s: Slot)
    requires
        a.wf(),
    ensures
        a.cleared().wf(),
        a.cleared().pending() == Seq::<DropView>::empty(),
        a.cleared().holds(s) ==> s.len == 0,
        a.cleared().head.capacity() == a.head.capacity(),
        a.cleared().copy_head.capacity() == a.copy_head.capacity(),
{
    assert(a.cleared().pending() =~= Seq::<DropView>::empty());
}

} // verus!
