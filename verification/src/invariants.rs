//! Proofs that the operations of the model keep an arena well formed.

use crate::layout::{
    is_align, lemma_align_positive, lemma_bitpack_round_trip, lemma_next_power_of_two,
    lemma_round_up, spec_bitpack, spec_un_bitpack, HEADER, MAX_CHUNK,
};
use crate::model::{put_word, splice, word_at, zeros, ArenaView, ChunkView, Record, Slot};
use crate::tydesc::TyDesc;
use vstd::arithmetic::power2::is_pow2;
use vstd::bytes::{lemma_auto_spec_u64_to_from_le_bytes, spec_u64_to_le_bytes};
use vstd::prelude::*;

verus! {

/// 8 is an alignment.
pub proof fn lemma_header_is_align()
    ensures
        is_align(HEADER as int),
{
    reveal_with_fuel(is_pow2, 5);
}

/// In a tiled chunk every record lies within the used bytes: header, then
/// payload, then the next header or the end of the used bytes.
pub proof fn lemma_record_bounds(c: ChunkView, k: int)
    requires
        c.tiled(),
        0 <= k < c.records.len(),
    ensures
        c.record_ok(k),
        0 <= c.records[k].header,
        c.records[k].header + 8 <= c.records[k].start,
        c.records[k].start + c.records[k].desc.size <= c.records[k].end(),
        c.records[k].end() <= c.fill,
        c.records[k].end() % 8 == 0,
        k + 1 < c.records.len() ==> c.records[k + 1].header == c.records[k].end(),
    decreases c.records.len() - k,
{
    let r = c.records[k];
    assert(c.record_ok(k));
    lemma_header_is_align();
    lemma_align_positive(r.desc.align as int);
    lemma_round_up(r.header + 8, r.desc.align as int);
    lemma_round_up(r.start + r.desc.size, 8);
    if k + 1 < c.records.len() {
        lemma_record_bounds(c, k + 1);
        assert(c.record_ok(k + 1));
    }
}

/// What the walk meets at record `k`: a header word that unpacks to the
/// record's descriptor address and flag, and a descriptor in the table.
pub proof fn lemma_walk_step(c: ChunkView, tydescs: Seq<TyDesc>, k: int)
    requires
        c.wf(),
        !c.is_copy,
        c.typed_by(tydescs),
        0 <= k < c.records.len(),
    ensures
        ({
            let r = c.records[k];
            let w = word_at(c.bytes, r.header);
            &&& r.header + 8 <= c.fill
            &&& spec_un_bitpack(w as usize) == (r.ty, r.done)
            &&& 0 <= r.ty / 2 < tydescs.len()
            &&& tydescs[(r.ty / 2) as int] == r.desc
            &&& is_align(r.desc.align as int)
            &&& r.header + 8 + r.desc.align - 1 <= usize::MAX
            &&& r.start + r.desc.size + HEADER - 1 <= usize::MAX
            &&& r.desc.drop_glue is Some
        }),
{
    let r = c.records[k];
    lemma_record_bounds(c, k);
    assert(r.laid_out());
    let x = spec_bitpack(r.ty, r.done);
    assert(x as u64 as usize == x);
    lemma_bitpack_round_trip(r.ty, r.done);
}

/// A header word that was just stored reads back.
pub proof fn lemma_put_word_reads_back(bytes: Seq<u8>, at: int, w: u64)
    requires
        0 <= at,
        at + 8 <= bytes.len(),
    ensures
        word_at(put_word(bytes, at, w), at) == w,
        put_word(bytes, at, w).len() == bytes.len(),
{
    lemma_auto_spec_u64_to_from_le_bytes();
    assert(put_word(bytes, at, w).subrange(at, at + 8) =~= spec_u64_to_le_bytes(w));
}

/// Writing elsewhere leaves a range of bytes as it was.
pub proof fn lemma_splice_keeps_range(bytes: Seq<u8>, at: int, src: Seq<u8>, from: int, to: int)
    requires
        0 <= from <= to <= bytes.len(),
        to <= at || at + src.len() <= from,
    ensures
        splice(bytes, at, src).subrange(from, to) == bytes.subrange(from, to),
        splice(bytes, at, src).len() == bytes.len(),
{
    assert(splice(bytes, at, src).subrange(from, to) =~= bytes.subrange(from, to));
}

/// Extending a buffer leaves a range of its bytes as it was.
pub proof fn lemma_extend_keeps_range(bytes: Seq<u8>, more: Seq<u8>, from: int, to: int)
    requires
        0 <= from <= to <= bytes.len(),
    ensures
        (bytes + more).subrange(from, to) == bytes.subrange(from, to),
{
    assert((bytes + more).subrange(from, to) =~= bytes.subrange(from, to));
}

/// A tiled chunk stays tiled when its buffer is extended.
pub proof fn lemma_extend_keeps_tiled(c: ChunkView, more: Seq<u8>)
    requires
        c.tiled(),
        c.fill <= c.bytes.len(),
    ensures
        (ChunkView { bytes: c.bytes + more, ..c }).tiled(),
{
    let d = ChunkView { bytes: c.bytes + more, ..c };
    assert forall|i: int| 0 <= i < d.records.len() implies #[trigger] d.record_ok(i) by {
        lemma_record_bounds(c, i);
        lemma_extend_keeps_range(c.bytes, more, c.records[i].header, c.records[i].header + 8);
    }
}

/// In a tiled chunk an earlier record ends before a later one begins.
pub proof fn lemma_records_ordered(c: ChunkView, i: int, j: int)
    requires
        c.tiled(),
        0 <= i < j < c.records.len(),
    ensures
        c.records[i].end() <= c.records[j].header,
    decreases j - i,
{
    lemma_record_bounds(c, i);
    if i + 1 < j {
        lemma_record_bounds(c, i + 1);
        lemma_records_ordered(c, i + 1, j);
    }
}

/// In a tiled chunk a slot names at most one record.
pub proof fn lemma_index_of(c: ChunkView, k: int, slot: Slot)
    requires
        c.tiled(),
        0 <= k < c.records.len(),
        c.record_is(k, slot),
    ensures
        c.index_of(slot) == k,
{
    let m = c.index_of(slot);
    lemma_record_bounds(c, k);
    lemma_record_bounds(c, m);
    if m < k {
        lemma_records_ordered(c, m, k);
    } else if k < m {
        lemma_records_ordered(c, k, m);
    }
}

/// The growth policy keeps the arena well formed, and leaves the pool with
/// room for the request.
pub proof fn lemma_grow_wf(a: ArenaView, copy: bool, used_cap: int, n_bytes: int, room: int)
    requires
        a.wf(),
        a.grows_in_place(copy, used_cap, n_bytes, room) || a.can_replace(copy, n_bytes),
    ensures
        a.grow(copy, used_cap, n_bytes, room).wf(),
        a.grow(copy, used_cap, n_bytes, room).tydescs == a.tydescs,
        a.grow(copy, used_cap, n_bytes, room).pool(!copy) == a.pool(!copy),
        a.grows_in_place(copy, used_cap, n_bytes, room) ==> {
            let c = a.grow(copy, used_cap, n_bytes, room).pool(copy);
            &&& c.fill == a.pool(copy).fill
            &&& c.capacity() == room
            &&& c.records == a.pool(copy).records
            &&& c.ord == a.pool(copy).ord
        },
        !a.grows_in_place(copy, used_cap, n_bytes, room) ==> {
            let c = a.grow(copy, used_cap, n_bytes, room).pool(copy);
            &&& c == ChunkView::fresh(a.grown_capacity(copy, n_bytes), copy, c.ord)
            &&& n_bytes < c.capacity() <= MAX_CHUNK
            &&& a.pool(copy).capacity() < c.capacity()
        },
{
    let c = a.pool(copy);
    let g = a.grow(copy, used_cap, n_bytes, room);
    if a.grows_in_place(copy, used_cap, n_bytes, room) {
        if !copy {
            lemma_extend_keeps_tiled(c, zeros((room - c.capacity()) as nat));
        }
        assert(g.wf());
    } else {
        let most = if n_bytes > c.capacity() {
            n_bytes
        } else {
            c.capacity()
        };
        lemma_next_power_of_two((most + 1) as nat);
        let fresh = g.pool(copy);
        assert(fresh.wf());
        assert(fresh.typed_by(a.tydescs));
        if c.fill != 0 {
            assert forall|i: int| 0 <= i < g.chunks.len() implies ({
                let x = #[trigger] g.chunks[i];
                x.wf() && x.typed_by(g.tydescs) && x.ord < g.pool(x.is_copy).ord
            }) by {
                if i < a.chunks.len() {
                    assert(g.chunks[i] == a.chunks[i]);
                }
            }
            assert forall|i: int, j: int|
                0 <= i < j < g.chunks.len() && g.chunks[i].is_copy
                    == g.chunks[j].is_copy implies g.chunks[i].ord < g.chunks[j].ord by {
                assert(g.chunks[i] == a.chunks[i]);
                if j < a.chunks.len() {
                    assert(g.chunks[j] == a.chunks[j]);
                }
            }
        }
        assert(g.wf());
    }
}

/// Setting bytes aside in the copy pool keeps the arena well formed; the
/// bytes set aside are aligned and lie within the active copy chunk, past
/// everything that was in use there.
pub proof fn lemma_bump_copy_wf(a: ArenaView, n_bytes: int, align: int, room: int)
    requires
        a.wf(),
        crate::layout::is_align(align),
        a.admits_copy(n_bytes, align),
    ensures
        a.bump_copy(n_bytes, align, room).wf(),
        a.bump_copy(n_bytes, align, room).tydescs == a.tydescs,
        a.bump_copy(n_bytes, align, room).head == a.head,
        ({
            let start = a.copy_start(n_bytes, align, room);
            let c = a.bump_copy(n_bytes, align, room).copy_head;
            &&& 0 <= start
            &&& start % align == 0
            &&& c.fill == start + n_bytes
            &&& c.fill <= c.capacity()
            &&& !a.copy_moves(n_bytes, align, room) ==> a.copy_head.fill <= start && c.ord
                == a.copy_head.ord
        }),
{
    lemma_align_positive(align);
    lemma_round_up(a.copy_head.fill, align);
    if a.copy_end(n_bytes, align) > a.copy_head.capacity() {
        lemma_grow_wf(a, true, a.copy_head.fill, a.copy_need(n_bytes, align), room);
    }
}

/// Taking a descriptor into the table keeps the arena well formed; the
/// descriptor then stands at the index that was foreseen for it, and twice
/// that index fits in a header word.
pub proof fn lemma_interned_wf(a: ArenaView, desc: TyDesc)
    requires
        a.wf(),
        desc.wf(),
        desc.drop_glue is Some,
        a.knows(desc) || a.tydescs.len() < crate::model::MAX_TYDESCS,
    ensures
        a.interned(desc).wf(),
        a.interned(desc).head == a.head,
        a.interned(desc).copy_head == a.copy_head,
        a.interned(desc).chunks == a.chunks,
        0 <= a.index_of(desc) < a.interned(desc).tydescs.len(),
        a.interned(desc).tydescs[a.index_of(desc)] == desc,
        a.tydesc_ptr(desc) == 2 * a.index_of(desc),
        forall|i: int| 0 <= i < a.tydescs.len() ==> a.interned(desc).tydescs[i] == a.tydescs[i],
{
    let b = a.interned(desc);
    if !a.knows(desc) {
        assert forall|i: int, j: int|
            0 <= i < b.tydescs.len() && 0 <= j < b.tydescs.len() && b.tydescs[i]
                == b.tydescs[j] implies i == j by {
            if i < a.tydescs.len() && j < a.tydescs.len() {
                assert(a.tydescs[i] == a.tydescs[j]);
            }
        }
        assert(b.head.typed_by(b.tydescs));
        assert forall|i: int| 0 <= i < b.chunks.len() implies ({
            let c = #[trigger] b.chunks[i];
            c.wf() && c.typed_by(b.tydescs) && c.ord < b.pool(c.is_copy).ord
        }) by {
            assert(a.chunks[i].typed_by(a.tydescs));
        }
    }
}

/// Appending a record behind the used bytes of a tiled chunk, with its
/// header word written, leaves the chunk tiled.
pub proof fn lemma_push_record_tiled(h: ChunkView, r: Record)
    requires
        h.wf(),
        !h.is_copy,
        r.laid_out(),
        r.header == h.fill,
        r.end() <= h.capacity(),
    ensures
        ({
            let c = ChunkView {
                fill: r.end(),
                bytes: put_word(h.bytes, r.header, r.word()),
                records: h.records.push(r),
                ..h
            };
            &&& c.wf()
            &&& r.header + 8 <= r.start
            &&& r.start + r.desc.size <= r.end()
            &&& r.start % (r.desc.align as int) == 0
        }),
{
    let c = ChunkView {
        fill: r.end(),
        bytes: put_word(h.bytes, r.header, r.word()),
        records: h.records.push(r),
        ..h
    };
    let n = h.records.len() as int;
    lemma_header_is_align();
    lemma_align_positive(r.desc.align as int);
    lemma_round_up(r.header + 8, r.desc.align as int);
    lemma_round_up(r.start + r.desc.size, 8);
    lemma_put_word_reads_back(h.bytes, r.header, r.word());
    assert forall|i: int| 0 <= i < c.records.len() implies #[trigger] c.record_ok(i) by {
        if i < n {
            lemma_record_bounds(h, i);
            assert(h.record_ok(i));
            lemma_splice_keeps_range(
                h.bytes,
                r.header,
                spec_u64_to_le_bytes(r.word()),
                h.records[i].header,
                h.records[i].header + 8,
            );
            lemma_auto_spec_u64_to_from_le_bytes();
            if i > 0 {
                assert(c.records[i - 1] == h.records[i - 1]);
            }
        } else {
            if n > 0 {
                assert(c.records[n - 1] == h.records[n - 1]);
            }
        }
    }
}

/// The record that `reserve` adds, and the chunk it lands in.
pub proof fn lemma_reserve_wf(a: ArenaView, desc: TyDesc, room: int)
    requires
        a.wf(),
        a.admits_record(desc),
    ensures
        a.reserve(desc, room).wf(),
        a.reserve(desc, room).copy_head == a.copy_head,
        a.reserve(desc, room).tydescs == a.interned(desc).tydescs,
        ({
            let r = a.reserved(desc, room);
            let c = a.reserve(desc, room).head;
            &&& r.laid_out()
            &&& r.header + 8 <= r.start
            &&& r.start + desc.size <= r.end()
            &&& r.end() == c.fill
            &&& c.fill <= c.capacity()
            &&& r.start % (desc.align as int) == 0
            &&& c.records.len() > 0
            &&& c.records.last() == r
            &&& !a.record_moves(desc, room) ==> r.header == a.head.fill && c.ord == a.head.ord
                && c.records == a.head.records.push(r)
        }),
{
    let b = a.interned(desc);
    lemma_interned_wf(a, desc);
    let end = a.record_end(desc);
    let need = a.record_need(desc);
    let g = b.with_room(false, end, need, room);
    if end > a.head.capacity() {
        lemma_grow_wf(b, false, a.head.fill, need, room);
    }
    let r = a.reserved(desc, room);
    lemma_header_is_align();
    lemma_align_positive(desc.align as int);
    if a.head.records.len() > 0 {
        lemma_record_bounds(a.head, a.head.records.len() - 1);
    }
    assert(a.head.fill % 8 == 0);
    lemma_round_up(r.header + 8, desc.align as int);
    lemma_round_up(r.start + desc.size, 8);
    assert(r.laid_out());
    assert(r.header == g.head.fill);
    assert(r.end() <= g.head.capacity());
    lemma_push_record_tiled(g.head, r);
    let c = a.reserve(desc, room).head;
    assert(c.typed_by(b.tydescs)) by {
        assert forall|i: int| 0 <= i < c.records.len() implies ({
            let x = #[trigger] c.records[i];
            x.ty / 2 < b.tydescs.len() && b.tydescs[(x.ty / 2) as int] == x.desc
        }) by {
            if i < g.head.records.len() {
                assert(c.records[i] == g.head.records[i]);
            }
        }
    }
    assert(a.reserve(desc, room).chunks == g.chunks);
    assert(a.reserve(desc, room).wf());
}

/// In a well-formed arena a slot lies in at most one retired chunk, and a
/// slot that lies in a retired chunk does not lie in an active one.
pub proof fn lemma_retired_unique(a: ArenaView, i: int, slot: Slot)
    requires
        a.wf(),
        a.retired_is(i, slot),
    ensures
        a.pool(slot.copy).ord != slot.chunk,
        (choose|j: int| a.retired_is(j, slot)) == i,
        a.chunk_of(slot) == Some(a.chunks[i]),
{
    let j = choose|j: int| a.retired_is(j, slot);
    assert(a.retired_is(j, slot));
    let c = a.chunks[i];
    assert(c.ord < a.pool(c.is_copy).ord);
    if i < j {
        assert(a.chunks[i].ord < a.chunks[j].ord);
    } else if j < i {
        assert(a.chunks[j].ord < a.chunks[i].ord);
    }
}

/// The bytes of a slot that a chunk has lie within the chunk's used bytes.
pub proof fn lemma_slot_bounds(c: ChunkView, slot: Slot)
    requires
        c.wf(),
        c.has(slot),
    ensures
        slot.start + slot.len <= c.fill,
        !c.is_copy ==> {
            let k = c.index_of(slot);
            &&& 0 <= k < c.records.len()
            &&& c.record_is(k, slot)
            &&& slot.header + 8 <= slot.start
            &&& slot.start + slot.len <= c.records[k].end()
        },
{
    if !c.is_copy {
        let k = c.index_of(slot);
        lemma_record_bounds(c, k);
    }
}

/// Writing over the bytes of a slot keeps a chunk well formed: no header
/// lies among them.
pub proof fn lemma_written_wf(c: ChunkView, slot: Slot, data: Seq<u8>)
    requires
        c.wf(),
        c.has(slot),
        data.len() == slot.len,
    ensures
        c.written(slot, data).wf(),
        !c.is_copy ==> word_at(c.written(slot, data).bytes, slot.header as int) == word_at(
            c.bytes,
            slot.header as int,
        ),
{
    let d = c.written(slot, data);
    lemma_slot_bounds(c, slot);
    if !c.is_copy {
        let k = c.index_of(slot);
        assert forall|i: int| 0 <= i < d.records.len() implies #[trigger] d.record_ok(i) by {
            lemma_record_bounds(c, i);
            if i < k {
                lemma_records_ordered(c, i, k);
            } else if k < i {
                lemma_records_ordered(c, k, i);
            }
            lemma_splice_keeps_range(
                c.bytes,
                slot.start as int,
                data,
                c.records[i].header,
                c.records[i].header + 8,
            );
        }
        lemma_splice_keeps_range(
            c.bytes,
            slot.start as int,
            data,
            slot.header as int,
            slot.header + 8,
        );
    }
}

/// Giving a record its payload and marking it as initialised keeps a chunk
/// well formed.
pub proof fn lemma_committed_wf(c: ChunkView, slot: Slot, payload: Seq<u8>)
    requires
        c.wf(),
        !c.is_copy,
        c.has(slot),
        payload.len() == slot.len,
    ensures
        c.committed(slot, payload).wf(),
        forall|t: Seq<TyDesc>| c.typed_by(t) ==> c.committed(slot, payload).typed_by(t),
{
    let k = c.index_of(slot);
    let w = c.written(slot, payload);
    let d = c.committed(slot, payload);
    let r = d.records[k];
    lemma_slot_bounds(c, slot);
    lemma_written_wf(c, slot, payload);
    lemma_put_word_reads_back(w.bytes, r.header, r.word());
    assert forall|i: int| 0 <= i < d.records.len() implies #[trigger] d.record_ok(i) by {
        lemma_record_bounds(w, i);
        assert(w.record_ok(i));
        if i < k {
            lemma_records_ordered(w, i, k);
        } else if k < i {
            lemma_records_ordered(w, k, i);
        }
        if i != k {
            lemma_auto_spec_u64_to_from_le_bytes();
            lemma_splice_keeps_range(
                w.bytes,
                r.header,
                spec_u64_to_le_bytes(r.word()),
                w.records[i].header,
                w.records[i].header + 8,
            );
        }
    }
    assert forall|t: Seq<TyDesc>| c.typed_by(t) implies d.typed_by(t) by {
        assert forall|i: int| 0 <= i < d.records.len() implies ({
            let x = #[trigger] d.records[i];
            x.ty / 2 < t.len() && t[(x.ty / 2) as int] == x.desc
        }) by {
            let y = c.records[i];
        }
    }
}

/// Putting a well-formed chunk in the place of the chunk that a slot lies
/// in keeps the arena well formed, if the new chunk has the old one's pool,
/// order and types.
pub proof fn lemma_with_chunk_wf(a: ArenaView, slot: Slot, c: ChunkView)
    requires
        a.wf(),
        a.chunk_of(slot) is Some,
        c.wf(),
        c.typed_by(a.tydescs),
        c.is_copy == a.chunk_of(slot).unwrap().is_copy,
        c.ord == a.chunk_of(slot).unwrap().ord,
    ensures
        a.with_chunk_of(slot, c).wf(),
        a.with_chunk_of(slot, c).chunk_of(slot) == Some(c),
        a.with_chunk_of(slot, c).tydescs == a.tydescs,
{
    let b = a.with_chunk_of(slot, c);
    if a.pool(slot.copy).ord != slot.chunk {
        let i = choose|i: int| a.retired_is(i, slot);
        lemma_retired_unique(a, i, slot);
        assert(b.retired_is(i, slot));
        assert forall|j: int| 0 <= j < b.chunks.len() implies ({
            let x = #[trigger] b.chunks[j];
            x.wf() && x.typed_by(b.tydescs) && x.ord < b.pool(x.is_copy).ord
        }) by {
            let y = a.chunks[j];
        }
        assert forall|x: int, y: int|
            0 <= x < y < b.chunks.len() && b.chunks[x].is_copy
                == b.chunks[y].is_copy implies b.chunks[x].ord < b.chunks[y].ord by {
            assert(a.chunks[x].is_copy == a.chunks[y].is_copy);
        }
        lemma_retired_unique(b, i, slot);
    } else {
        assert forall|j: int| 0 <= j < b.chunks.len() implies ({
            let x = #[trigger] b.chunks[j];
            x.wf() && x.typed_by(b.tydescs) && x.ord < b.pool(x.is_copy).ord
        }) by {
            let y = a.chunks[j];
        }
    }
}

/// Clearing keeps the arena well formed.
pub proof fn lemma_cleared_wf(a: ArenaView)
    requires
        a.wf(),
    ensures
        a.cleared().wf(),
{
}

/// A chunk of the copy pool holds nothing that is due for destruction.
pub proof fn lemma_copy_chunk_drops(c: ChunkView)
    requires
        c.wf(),
        c.is_copy,
    ensures
        c.drops() == Seq::<crate::model::DropView>::empty(),
{
}

} // verus!
