//! Proofs that the operations of the model leave earlier allocations alone:
//! a slot that the arena holds is still held afterwards, with the bytes it
//! had.

use crate::invariants::{
    lemma_record_bounds,
    lemma_bump_copy_wf, lemma_committed_wf, lemma_extend_keeps_range, lemma_grow_wf,
    lemma_index_of, lemma_interned_wf, lemma_records_ordered, lemma_reserve_wf,
    lemma_retired_unique, lemma_slot_bounds, lemma_splice_keeps_range, lemma_with_chunk_wf,
    lemma_written_wf,
};
use crate::model::{ArenaView, ChunkView, Slot};
use crate::tydesc::TyDesc;
use vstd::bytes::{lemma_auto_spec_u64_to_from_le_bytes, spec_u64_to_le_bytes};
use vstd::prelude::*;

verus! {

/// Whether two slots share a byte.
pub open spec fn overlap(s: Slot, t: Slot) -> bool {
    &&& s.copy == t.copy
    &&& s.chunk == t.chunk
    &&& s.start < t.start + t.len
    &&& t.start < s.start + s.len
}

/// Whether `after` has `slot` with the bytes it has in `before`, if `before`
/// has it.
pub open spec fn keeps(before: ArenaView, after: ArenaView, slot: Slot) -> bool {
    before.holds(slot) ==> after.holds(slot) && after.contents(slot) == before.contents(slot)
}

/// Whether chunk `after` has `slot` with the bytes it has in chunk `before`,
/// if `before` has it.
pub open spec fn chunk_keeps(before: ChunkView, after: ChunkView, slot: Slot) -> bool {
    before.has(slot) ==> after.has(slot) && after.bytes.subrange(
        slot.start as int,
        slot.start + slot.len,
    ) == before.bytes.subrange(slot.start as int, slot.start + slot.len)
}

/// The chunk that a slot lies in is the active chunk of its pool or one of
/// the retired chunks.
pub proof fn lemma_chunk_of(a: ArenaView, s: Slot)
    requires
        a.wf(),
        a.chunk_of(s) is Some,
    ensures
        a.pool(s.copy).ord == s.chunk ==> a.chunk_of(s) == Some(a.pool(s.copy)),
        a.pool(s.copy).ord != s.chunk ==> exists|i: int|
            a.retired_is(i, s) && a.chunk_of(s) == Some(#[trigger] a.chunks[i]),
        a.chunk_of(s).unwrap().wf(),
        a.chunk_of(s).unwrap().is_copy == s.copy,
        a.chunk_of(s).unwrap().ord == s.chunk,
        a.chunk_of(s).unwrap().typed_by(a.tydescs),
{
    if a.pool(s.copy).ord != s.chunk {
        let i = choose|i: int| a.retired_is(i, s);
        lemma_retired_unique(a, i, s);
    }
}

/// If every chunk of `a` is found again in `b` under the same pool and
/// order, changed so that it keeps `s`, then `b` keeps `s`.
pub proof fn lemma_keeps_by_chunk(a: ArenaView, b: ArenaView, s: Slot, c: ChunkView)
    requires
        a.wf(),
        b.wf(),
        a.holds(s),
        c.is_copy == s.copy,
        c.ord == s.chunk,
        chunk_keeps(a.chunk_of(s).unwrap(), c, s),
        b.pool(s.copy) == c || exists|i: int| 0 <= i < b.chunks.len() && b.chunks[i] == c,
    ensures
        keeps(a, b, s),
        b.chunk_of(s) == Some(c),
{
    if b.pool(s.copy) == c {
    } else {
        let i = choose|i: int| 0 <= i < b.chunks.len() && b.chunks[i] == c;
        assert(b.retired_is(i, s));
        lemma_retired_unique(b, i, s);
    }
}

/// Growth keeps every slot.
pub proof fn lemma_grow_keeps(
    a: ArenaView,
    copy: bool,
    used_cap: int,
    n_bytes: int,
    room: int,
    s: Slot,
)
    requires
        a.wf(),
        a.grows_in_place(copy, used_cap, n_bytes, room) || a.can_replace(copy, n_bytes),
    ensures
        keeps(a, a.grow(copy, used_cap, n_bytes, room), s),
{
    let g = a.grow(copy, used_cap, n_bytes, room);
    lemma_grow_wf(a, copy, used_cap, n_bytes, room);
    if a.holds(s) {
        lemma_chunk_of(a, s);
        let c = a.chunk_of(s).unwrap();
        lemma_slot_bounds(c, s);
        if a.pool(s.copy).ord != s.chunk {
            let i = choose|i: int| a.retired_is(i, s) && a.chunk_of(s) == Some(a.chunks[i]);
            assert(g.chunks[i] == c);
            lemma_keeps_by_chunk(a, g, s, c);
        } else if s.copy != copy {
            lemma_keeps_by_chunk(a, g, s, c);
        } else if a.grows_in_place(copy, used_cap, n_bytes, room) {
            let d = g.pool(copy);
            lemma_extend_keeps_range(
                c.bytes,
                crate::model::zeros((room - c.capacity()) as nat),
                s.start as int,
                s.start + s.len,
            );
            if !copy {
                assert(c.record_is(c.index_of(s), s));
                assert(d.record_is(c.index_of(s), s));
            }
            lemma_keeps_by_chunk(a, g, s, d);
        } else if c.fill != 0 {
            assert(g.chunks[a.chunks.len() as int] == c);
            lemma_keeps_by_chunk(a, g, s, c);
        } else {
            let d = g.pool(copy);
            assert(d.bytes.subrange(s.start as int, s.start + s.len) =~= c.bytes.subrange(
                s.start as int,
                s.start + s.len,
            ));
            lemma_keeps_by_chunk(a, g, s, d);
        }
    }
}

/// Setting bytes aside in the copy pool keeps every slot, and the bytes set
/// aside are not among those of a slot that the arena held.
pub proof fn lemma_bump_copy_keeps(a: ArenaView, n_bytes: int, align: int, room: int, s: Slot)
    requires
        a.wf(),
        a.chunks.len() < usize::MAX,
        crate::layout::is_align(align),
        a.admits_copy(n_bytes, align),
    ensures
        keeps(a, a.bump_copy(n_bytes, align, room), s),
        a.holds(s) ==> !overlap(s, a.copy_slot(n_bytes, align, room)),
        a.bump_copy(n_bytes, align, room).holds(a.copy_slot(n_bytes, align, room)),
        a.copy_slot(n_bytes, align, room).start == a.copy_start(n_bytes, align, room),
        a.copy_slot(n_bytes, align, room).len == n_bytes,
        a.copy_slot(n_bytes, align, room).chunk == a.bump_copy(n_bytes, align, room).copy_head.ord,
{
    let end = a.copy_end(n_bytes, align);
    let need = a.copy_need(n_bytes, align);
    let g = a.with_room(true, end, need, room);
    let b = a.bump_copy(n_bytes, align, room);
    let t = a.copy_slot(n_bytes, align, room);
    lemma_bump_copy_wf(a, n_bytes, align, room);
    crate::layout::lemma_align_positive(align);
    crate::layout::lemma_round_up(a.copy_head.fill, align);
    if end > a.copy_head.capacity() {
        lemma_grow_wf(a, true, a.copy_head.fill, need, room);
        lemma_grow_keeps(a, true, a.copy_head.fill, need, room, s);
    }
    assert(g.wf());
    assert(b.chunk_of(t) == Some(b.copy_head));
    if a.holds(s) {
        assert(g.holds(s));
        lemma_chunk_of(g, s);
        let c = g.chunk_of(s).unwrap();
        lemma_slot_bounds(c, s);
        if g.pool(s.copy).ord != s.chunk {
            let i = choose|i: int| g.retired_is(i, s) && g.chunk_of(s) == Some(g.chunks[i]);
            assert(b.chunks[i] == c);
            lemma_keeps_by_chunk(g, b, s, c);
        } else if !s.copy {
            lemma_keeps_by_chunk(g, b, s, c);
        } else {
            lemma_keeps_by_chunk(g, b, s, b.copy_head);
        }
    }
}

/// Setting a record aside keeps every slot, and neither the record's header
/// nor its payload is among the bytes of a slot that the arena held.
pub proof fn lemma_reserve_keeps(a: ArenaView, desc: TyDesc, room: int, s: Slot)
    requires
        a.wf(),
        a.chunks.len() < usize::MAX,
        a.admits_record(desc),
    ensures
        keeps(a, a.reserve(desc, room), s),
        a.holds(s) ==> !overlap(s, a.reserved_slot(desc, room)),
        a.reserve(desc, room).awaits(a.reserved_slot(desc, room)),
        a.reserved_slot(desc, room).start == a.reserved(desc, room).start,
        a.reserved_slot(desc, room).header == a.reserved(desc, room).header,
        a.reserved_slot(desc, room).chunk == a.reserve(desc, room).head.ord,
        a.reserve(desc, room).chunk_of(a.reserved_slot(desc, room)) == Some(
            a.reserve(desc, room).head,
        ),
        a.reserve(desc, room).head.index_of(a.reserved_slot(desc, room)) == a.reserve(
            desc,
            room,
        ).head.records.len() - 1,
{
    let i = a.interned(desc);
    let end = a.record_end(desc);
    let need = a.record_need(desc);
    let g = i.with_room(false, end, need, room);
    let b = a.reserve(desc, room);
    let r = a.reserved(desc, room);
    let t = a.reserved_slot(desc, room);
    lemma_interned_wf(a, desc);
    lemma_reserve_wf(a, desc, room);
    if end > a.head.capacity() {
        lemma_grow_wf(i, false, a.head.fill, need, room);
        lemma_grow_keeps(i, false, a.head.fill, need, room, s);
    }
    assert(g.wf());
    assert(b.chunk_of(t) == Some(b.head));
    assert(b.head.record_is(b.head.records.len() - 1, t));
    lemma_index_of(b.head, b.head.records.len() - 1, t);
    if a.holds(s) {
        lemma_chunk_of(a, s);
        lemma_keeps_by_chunk(a, i, s, a.chunk_of(s).unwrap());
        assert(g.holds(s));
        lemma_chunk_of(g, s);
        let c = g.chunk_of(s).unwrap();
        lemma_slot_bounds(c, s);
        if g.pool(s.copy).ord != s.chunk {
            let j = choose|j: int| g.retired_is(j, s) && g.chunk_of(s) == Some(g.chunks[j]);
            assert(b.chunks[j] == c);
            lemma_keeps_by_chunk(g, b, s, c);
        } else if s.copy {
            lemma_keeps_by_chunk(g, b, s, c);
        } else {
            lemma_auto_spec_u64_to_from_le_bytes();
            lemma_splice_keeps_range(
                c.bytes,
                r.header,
                spec_u64_to_le_bytes(r.word()),
                s.start as int,
                s.start + s.len,
            );
            assert(c.record_is(c.index_of(s), s));
            assert(b.head.record_is(c.index_of(s), s));
            lemma_keeps_by_chunk(g, b, s, b.head);
        }
    }
}

/// Writing over a slot stores the data there and keeps every slot that
/// shares no byte with it.
pub proof fn lemma_write_keeps(a: ArenaView, slot: Slot, data: Seq<u8>, s: Slot)
    requires
        a.wf(),
        a.holds(slot),
        data.len() == slot.len,
    ensures
        a.write(slot, data).wf(),
        a.write(slot, data).holds(slot),
        a.write(slot, data).contents(slot) == data,
        !overlap(s, slot) ==> keeps(a, a.write(slot, data), s),
{
    let b = a.write(slot, data);
    lemma_chunk_of(a, slot);
    let c = a.chunk_of(slot).unwrap();
    let d = c.written(slot, data);
    lemma_written_wf(c, slot, data);
    lemma_with_chunk_wf(a, slot, d);
    lemma_slot_bounds(c, slot);
    assert(b.contents(slot) =~= data);
    if !c.is_copy {
        assert(c.record_is(c.index_of(slot), slot));
        assert(d.record_is(c.index_of(slot), slot));
    }
    if a.holds(s) && !overlap(s, slot) {
        lemma_chunk_of(a, s);
        let e = a.chunk_of(s).unwrap();
        lemma_slot_bounds(e, s);
        if s.copy == slot.copy && s.chunk == slot.chunk {
            assert(e == c);
            assert(d.bytes.subrange(s.start as int, s.start + s.len) =~= c.bytes.subrange(
                s.start as int,
                s.start + s.len,
            ));
            if !c.is_copy {
                assert(c.record_is(c.index_of(s), s));
                assert(d.record_is(c.index_of(s), s));
            }
            lemma_keeps_by_chunk(a, b, s, d);
        } else if a.pool(s.copy).ord != s.chunk {
            let i = choose|i: int| a.retired_is(i, s) && a.chunk_of(s) == Some(a.chunks[i]);
            if a.pool(slot.copy).ord != slot.chunk {
                let j = choose|j: int| a.retired_is(j, slot);
                lemma_retired_unique(a, j, slot);
                assert(i != j);
            }
            assert(b.chunks[i] == e);
            lemma_keeps_by_chunk(a, b, s, e);
        } else {
            lemma_keeps_by_chunk(a, b, s, e);
        }
    }
}

/// Committing a record stores its payload and keeps every slot that shares
/// no byte with it.
pub proof fn lemma_commit_keeps(a: ArenaView, slot: Slot, payload: Seq<u8>, s: Slot)
    requires
        a.wf(),
        !slot.copy,
        a.holds(slot),
        payload.len() == slot.len,
    ensures
        a.commit(slot, payload).wf(),
        a.commit(slot, payload).holds(slot),
        a.commit(slot, payload).contents(slot) == payload,
        !overlap(s, slot) ==> keeps(a, a.commit(slot, payload), s),
{
    let b = a.commit(slot, payload);
    lemma_chunk_of(a, slot);
    let c = a.chunk_of(slot).unwrap();
    let w = c.written(slot, payload);
    let d = c.committed(slot, payload);
    let k = c.index_of(slot);
    lemma_committed_wf(c, slot, payload);
    lemma_with_chunk_wf(a, slot, d);
    lemma_slot_bounds(c, slot);
    lemma_record_bounds(c, k);
    lemma_auto_spec_u64_to_from_le_bytes();
    let word = spec_u64_to_le_bytes(d.records[k].word());
    lemma_splice_keeps_range(
        w.bytes,
        slot.header as int,
        word,
        slot.start as int,
        slot.start + slot.len,
    );
    assert(w.bytes.subrange(slot.start as int, slot.start + slot.len) =~= payload);
    assert(d.record_is(k, slot));
    if a.holds(s) && !overlap(s, slot) {
        lemma_chunk_of(a, s);
        let e = a.chunk_of(s).unwrap();
        lemma_slot_bounds(e, s);
        if s.copy == slot.copy && s.chunk == slot.chunk {
            assert(e == c);
            let j = c.index_of(s);
            lemma_record_bounds(c, j);
            if j < k {
                lemma_records_ordered(c, j, k);
            } else if k < j {
                lemma_records_ordered(c, k, j);
            }
            assert(w.bytes.subrange(s.start as int, s.start + s.len) =~= c.bytes.subrange(
                s.start as int,
                s.start + s.len,
            ));
            assert(d.bytes.subrange(s.start as int, s.start + s.len) =~= w.bytes.subrange(
                s.start as int,
                s.start + s.len,
            ));
            assert(d.record_is(j, s));
            lemma_keeps_by_chunk(a, b, s, d);
        } else if a.pool(s.copy).ord != s.chunk {
            let i = choose|i: int| a.retired_is(i, s) && a.chunk_of(s) == Some(a.chunks[i]);
            if a.pool(slot.copy).ord != slot.chunk {
                let j = choose|j: int| a.retired_is(j, slot);
                lemma_retired_unique(a, j, slot);
                assert(i != j);
            }
            assert(b.chunks[i] == e);
            lemma_keeps_by_chunk(a, b, s, e);
        } else {
            lemma_keeps_by_chunk(a, b, s, e);
        }
    }
}

} // verus!
