//! Proofs about the values that are due for destruction: which operations
//! leave them as they are, and which add one.

use crate::invariants::{
    lemma_record_bounds,
    lemma_committed_wf, lemma_extend_keeps_range, lemma_grow_wf, lemma_interned_wf,
    lemma_records_ordered, lemma_reserve_wf, lemma_retired_unique, lemma_slot_bounds,
    lemma_splice_keeps_range, lemma_with_chunk_wf, lemma_written_wf,
};
use crate::model::{put_word, ArenaView, ChunkView, DropView, Record, Slot};
use crate::tydesc::TyDesc;
use vstd::bytes::{lemma_auto_spec_u64_to_from_le_bytes, spec_u64_to_le_bytes};
use vstd::prelude::*;
use vstd::seq_lib::{lemma_multiset_commutative, to_multiset_build};

verus! {

/// Two chunks whose first `k` records agree, payloads included, have the
/// same values due among them.
pub proof fn lemma_drops_agree(c: ChunkView, d: ChunkView, k: int)
    requires
        0 <= k <= c.records.len(),
        k <= d.records.len(),
        forall|j: int|
            0 <= j < k ==> d.records[j] == #[trigger] c.records[j] && d.drop_of(c.records[j])
                == c.drop_of(c.records[j]),
    ensures
        d.drops_upto(k) == c.drops_upto(k),
    decreases k,
{
    if k > 0 {
        lemma_drops_agree(c, d, k - 1);
        assert(d.records[k - 1] == c.records[k - 1]);
    }
}

/// Two arenas whose first `k` retired chunks have the same values due have
/// the same values due among them.
pub proof fn lemma_retired_drops_agree(a: ArenaView, b: ArenaView, k: int)
    requires
        0 <= k <= a.chunks.len(),
        k <= b.chunks.len(),
        forall|j: int| 0 <= j < k ==> (#[trigger] b.chunks[j]).drops() == a.chunks[j].drops(),
    ensures
        b.retired_drops_upto(k) == a.retired_drops_upto(k),
    decreases k,
{
    if k > 0 {
        lemma_retired_drops_agree(a, b, k - 1);
        assert(b.chunks[k - 1].drops() == a.chunks[k - 1].drops());
    }
}

/// Extending a chunk's buffer changes nothing of the values due in it.
pub proof fn lemma_extended_drops(c: ChunkView, more: Seq<u8>)
    requires
        c.wf(),
    ensures
        (ChunkView { bytes: c.bytes + more, ..c }).drops() == c.drops(),
{
    let d = ChunkView { bytes: c.bytes + more, ..c };
    if !c.is_copy {
        assert forall|j: int| 0 <= j < c.records.len() implies d.records[j]
            == #[trigger] c.records[j] && d.drop_of(c.records[j]) == c.drop_of(c.records[j]) by {
            lemma_record_bounds(c, j);
            lemma_extend_keeps_range(
                c.bytes,
                more,
                c.records[j].start,
                c.records[j].start + c.records[j].desc.size,
            );
        }
        lemma_drops_agree(c, d, c.records.len() as int);
    }
}

/// Opening a record behind the used bytes adds no value due.
pub proof fn lemma_opened_drops(h: ChunkView, r: Record)
    requires
        h.wf(),
        !h.is_copy,
        r.header == h.fill,
        r.header + 8 <= h.capacity(),
        !r.done,
    ensures
        (ChunkView {
            fill: r.end(),
            bytes: put_word(h.bytes, r.header, r.word()),
            records: h.records.push(r),
            ..h
        }).drops() == h.drops(),
{
    let d = ChunkView {
        fill: r.end(),
        bytes: put_word(h.bytes, r.header, r.word()),
        records: h.records.push(r),
        ..h
    };
    lemma_auto_spec_u64_to_from_le_bytes();
    assert forall|j: int| 0 <= j < h.records.len() implies d.records[j]
        == #[trigger] h.records[j] && d.drop_of(h.records[j]) == h.drop_of(h.records[j]) by {
        lemma_record_bounds(h, j);
        lemma_splice_keeps_range(
            h.bytes,
            r.header,
            spec_u64_to_le_bytes(r.word()),
            h.records[j].start,
            h.records[j].start + h.records[j].desc.size,
        );
    }
    lemma_drops_agree(h, d, h.records.len() as int);
}

/// What the record of `slot` hands to its destructor once it holds `payload`.
pub open spec fn drop_for(c: ChunkView, slot: Slot, payload: Seq<u8>) -> DropView {
    DropView { drop_glue: c.records[c.index_of(slot)].desc.drop_glue.unwrap(), payload }
}

proof fn lemma_committed_drops_upto(c: ChunkView, slot: Slot, payload: Seq<u8>, j: int)
    requires
        c.wf(),
        !c.is_copy,
        c.has(slot),
        !c.records[c.index_of(slot)].done,
        payload.len() == slot.len,
        0 <= j <= c.records.len(),
    ensures
        j <= c.index_of(slot) ==> c.committed(slot, payload).drops_upto(j) == c.drops_upto(j),
        j > c.index_of(slot) ==> c.committed(slot, payload).drops_upto(j).to_multiset()
            == c.drops_upto(j).to_multiset().insert(drop_for(c, slot, payload)),
        j == c.index_of(slot) + 1 ==> c.committed(slot, payload).drops_upto(j) == c.drops_upto(
            j,
        ).push(drop_for(c, slot, payload)),
    decreases j,
{
    let k = c.index_of(slot);
    let d = c.committed(slot, payload);
    let w = c.written(slot, payload);
    lemma_slot_bounds(c, slot);
    lemma_record_bounds(c, k);
    lemma_auto_spec_u64_to_from_le_bytes();
    if j > 0 {
        lemma_committed_drops_upto(c, slot, payload, j - 1);
        let i = j - 1;
        let r = c.records[i];
        lemma_record_bounds(c, i);
        let word = spec_u64_to_le_bytes(d.records[k].word());
        if i < k {
            lemma_records_ordered(c, i, k);
        } else if k < i {
            lemma_records_ordered(c, k, i);
        }
        lemma_splice_keeps_range(w.bytes, slot.header as int, word, r.start, r.start + r.desc.size);
        if i == k {
            assert(w.bytes.subrange(r.start, r.start + r.desc.size) =~= payload);
            assert(d.drop_of(d.records[i]) == drop_for(c, slot, payload));
        } else {
            assert(w.bytes.subrange(r.start, r.start + r.desc.size) =~= c.bytes.subrange(
                r.start,
                r.start + r.desc.size,
            ));
            assert(d.drop_of(d.records[i]) == c.drop_of(r));
            if i > k && r.done {
                to_multiset_build(d.drops_upto(i), c.drop_of(r));
                to_multiset_build(c.drops_upto(i), c.drop_of(r));
                assert(c.drops_upto(i).to_multiset().insert(drop_for(c, slot, payload)).insert(
                    c.drop_of(r),
                ) =~= c.drops_upto(i).to_multiset().insert(c.drop_of(r)).insert(
                    drop_for(c, slot, payload),
                ));
            }
        }
        if i == k {
            to_multiset_build(c.drops_upto(i), drop_for(c, slot, payload));
        }
    }
}

/// Committing a record that was not initialised adds its value to the
/// values due in its chunk, and changes none of the others.
pub proof fn lemma_committed_drops(c: ChunkView, slot: Slot, payload: Seq<u8>)
    requires
        c.wf(),
        !c.is_copy,
        c.has(slot),
        !c.records[c.index_of(slot)].done,
        payload.len() == slot.len,
    ensures
        c.committed(slot, payload).drops().to_multiset() == c.drops().to_multiset().insert(
            drop_for(c, slot, payload),
        ),
        c.index_of(slot) == c.records.len() - 1 ==> c.committed(slot, payload).drops()
            == c.drops().push(drop_for(c, slot, payload)),
{
    lemma_slot_bounds(c, slot);
    lemma_committed_drops_upto(c, slot, payload, c.records.len() as int);
}

/// Growth changes nothing of the values due, but may change their order:
/// those of a retired chunk come after those of its successor.
pub proof fn lemma_grow_pending(a: ArenaView, copy: bool, used_cap: int, n_bytes: int, room: int)
    requires
        a.wf(),
        a.grows_in_place(copy, used_cap, n_bytes, room) || a.can_replace(copy, n_bytes),
    ensures
        a.grow(copy, used_cap, n_bytes, room).pending().to_multiset() == a.pending().to_multiset(),
        copy ==> a.grow(copy, used_cap, n_bytes, room).pending() == a.pending(),
{
    let g = a.grow(copy, used_cap, n_bytes, room);
    let c = a.pool(copy);
    let n = a.chunks.len() as int;
    lemma_grow_wf(a, copy, used_cap, n_bytes, room);
    lemma_retired_drops_agree(a, g, n);
    if a.grows_in_place(copy, used_cap, n_bytes, room) {
        lemma_extended_drops(c, crate::model::zeros((room - c.capacity()) as nat));
        assert(g.chunks == a.chunks);
        assert(g.pending() == a.pending());
    } else if c.fill != 0 {
        assert(g.chunks[n] == c);
        assert(g.retired_drops_upto(n + 1) == a.retired_drops_upto(n) + c.drops());
        if copy {
            assert(a.retired_drops_upto(n) + c.drops() =~= a.retired_drops_upto(n));
            assert(g.pending() == a.pending());
        } else {
            assert(g.head.drops() =~= Seq::<DropView>::empty());
            assert(g.pending() =~= a.retired_drops_upto(n) + c.drops());
            lemma_multiset_commutative(a.retired_drops_upto(n), c.drops());
            lemma_multiset_commutative(c.drops(), a.retired_drops_upto(n));
            assert(a.retired_drops_upto(n).to_multiset().add(c.drops().to_multiset())
                =~= c.drops().to_multiset().add(a.retired_drops_upto(n).to_multiset()));
        }
    } else {
        assert(g.chunks == a.chunks);
        if c.records.len() > 0 {
            lemma_record_bounds(c, c.records.len() - 1);
        }
        assert(g.pool(copy).drops() =~= c.drops());
        assert(g.pending() == a.pending());
    }
}

/// Setting bytes aside in the copy pool changes nothing of the values due.
pub proof fn lemma_bump_copy_pending(a: ArenaView, n_bytes: int, align: int, room: int)
    requires
        a.wf(),
        crate::layout::is_align(align),
        a.admits_copy(n_bytes, align),
    ensures
        a.bump_copy(n_bytes, align, room).pending() == a.pending(),
{
    let end = a.copy_end(n_bytes, align);
    let need = a.copy_need(n_bytes, align);
    let g = a.with_room(true, end, need, room);
    let b = a.bump_copy(n_bytes, align, room);
    if end > a.copy_head.capacity() {
        lemma_grow_pending(a, true, a.copy_head.fill, need, room);
    }
    assert(b.chunks == g.chunks);
    lemma_retired_drops_agree(g, b, g.chunks.len() as int);
}

/// Setting a record aside changes nothing of the values due, but perhaps
/// their order.
pub proof fn lemma_reserve_pending(a: ArenaView, desc: TyDesc, room: int)
    requires
        a.wf(),
        a.admits_record(desc),
    ensures
        a.reserve(desc, room).pending().to_multiset() == a.pending().to_multiset(),
        !a.record_moves(desc, room) ==> a.reserve(desc, room).pending() == a.pending(),
{
    let i = a.interned(desc);
    let end = a.record_end(desc);
    let need = a.record_need(desc);
    let g = i.with_room(false, end, need, room);
    let b = a.reserve(desc, room);
    let r = a.reserved(desc, room);
    lemma_interned_wf(a, desc);
    lemma_reserve_wf(a, desc, room);
    lemma_retired_drops_agree(a, i, a.chunks.len() as int);
    assert(i.pending() == a.pending());
    if end > a.head.capacity() {
        lemma_grow_wf(i, false, a.head.fill, need, room);
        lemma_grow_pending(i, false, a.head.fill, need, room);
        if i.grows_in_place(false, a.head.fill, need, room) {
            lemma_extended_drops(
                a.head,
                crate::model::zeros((room - a.head.capacity()) as nat),
            );
            lemma_retired_drops_agree(i, g, i.chunks.len() as int);
            assert(g.pending() == i.pending());
        }
    }
    assert(g.wf());
    lemma_opened_drops(g.head, r);
    assert(b.chunks == g.chunks);
    lemma_retired_drops_agree(g, b, g.chunks.len() as int);
    assert(b.pending() == g.pending());
}

/// Where the values due stand once a record has been set aside: if the
/// record landed in a replacement chunk, those of the chunk that was active
/// now come last, and the active chunk has none; otherwise all is as before.
pub proof fn lemma_reserve_order(a: ArenaView, desc: TyDesc, room: int)
    requires
        a.wf(),
        a.admits_record(desc),
    ensures
        ({
            let b = a.reserve(desc, room);
            let before = a.retired_drops_upto(a.chunks.len() as int);
            let after = b.retired_drops_upto(b.chunks.len() as int);
            if a.record_moves(desc, room) {
                b.head.drops() == Seq::<DropView>::empty() && after == before + a.head.drops()
            } else {
                b.head.drops() == a.head.drops() && after == before
            }
        }),
{
    let i = a.interned(desc);
    let end = a.record_end(desc);
    let need = a.record_need(desc);
    let g = i.with_room(false, end, need, room);
    let b = a.reserve(desc, room);
    let r = a.reserved(desc, room);
    let n = a.chunks.len() as int;
    lemma_interned_wf(a, desc);
    lemma_reserve_wf(a, desc, room);
    if end > a.head.capacity() {
        lemma_grow_wf(i, false, a.head.fill, need, room);
    }
    assert(g.wf());
    lemma_opened_drops(g.head, r);
    assert(b.chunks == g.chunks);
    lemma_retired_drops_agree(g, b, g.chunks.len() as int);
    lemma_retired_drops_agree(a, g, n);
    if a.record_moves(desc, room) {
        assert(g.head.drops() =~= Seq::<DropView>::empty());
        if a.head.fill != 0 {
            assert(g.chunks[n] == a.head);
            assert(g.retired_drops_upto(n + 1) == g.retired_drops_upto(n) + a.head.drops());
        } else {
            if a.head.records.len() > 0 {
                lemma_record_bounds(a.head, a.head.records.len() - 1);
            }
            assert(a.retired_drops_upto(n) + a.head.drops() =~= a.retired_drops_upto(n));
        }
    } else if end > a.head.capacity() {
        lemma_extended_drops(a.head, crate::model::zeros((room - a.head.capacity()) as nat));
    }
}

proof fn lemma_retired_drops_insert(a: ArenaView, b: ArenaView, i: int, dv: DropView, k: int)
    requires
        0 <= i < a.chunks.len(),
        a.chunks.len() == b.chunks.len(),
        0 <= k <= a.chunks.len(),
        forall|j: int|
            0 <= j < a.chunks.len() && j != i ==> (#[trigger] b.chunks[j]).drops()
                == a.chunks[j].drops(),
        b.chunks[i].drops().to_multiset() == a.chunks[i].drops().to_multiset().insert(dv),
    ensures
        k <= i ==> b.retired_drops_upto(k) == a.retired_drops_upto(k),
        k > i ==> b.retired_drops_upto(k).to_multiset() == a.retired_drops_upto(
            k,
        ).to_multiset().insert(dv),
    decreases k,
{
    if k > 0 {
        lemma_retired_drops_insert(a, b, i, dv, k - 1);
        let x = a.retired_drops_upto(k - 1);
        let y = b.retired_drops_upto(k - 1);
        let p = a.chunks[k - 1].drops();
        let q = b.chunks[k - 1].drops();
        lemma_multiset_commutative(x, p);
        lemma_multiset_commutative(y, q);
        if k - 1 == i {
            assert(y.to_multiset().add(q.to_multiset()) =~= x.to_multiset().add(
                p.to_multiset(),
            ).insert(dv));
        } else {
            assert(q == p);
            if k - 1 > i {
                assert(y.to_multiset().add(q.to_multiset()) =~= x.to_multiset().add(
                    p.to_multiset(),
                ).insert(dv));
            }
        }
    }
}

/// Committing a record that was not initialised adds its value to the
/// values due, and changes none of the others.
pub proof fn lemma_commit_pending(a: ArenaView, slot: Slot, payload: Seq<u8>)
    requires
        a.wf(),
        a.awaits(slot),
        payload.len() == slot.len,
    ensures
        a.commit(slot, payload).pending().to_multiset() == a.pending().to_multiset().insert(
            drop_for(a.chunk_of(slot).unwrap(), slot, payload),
        ),
{
    let b = a.commit(slot, payload);
    let c = a.chunk_of(slot).unwrap();
    let d = c.committed(slot, payload);
    let dv = drop_for(c, slot, payload);
    let n = a.chunks.len() as int;
    crate::frames::lemma_chunk_of(a, slot);
    lemma_committed_wf(c, slot, payload);
    lemma_committed_drops(c, slot, payload);
    lemma_with_chunk_wf(a, slot, d);
    if a.pool(slot.copy).ord == slot.chunk {
        assert(b.chunks == a.chunks);
        lemma_retired_drops_agree(a, b, n);
        lemma_multiset_commutative(a.head.drops(), a.retired_drops_upto(n));
        lemma_multiset_commutative(b.head.drops(), b.retired_drops_upto(n));
        assert(b.head.drops().to_multiset().add(b.retired_drops_upto(n).to_multiset())
            =~= a.head.drops().to_multiset().add(a.retired_drops_upto(n).to_multiset()).insert(
            dv,
        ));
    } else {
        let i = choose|i: int| a.retired_is(i, slot);
        lemma_retired_unique(a, i, slot);
        lemma_retired_drops_insert(a, b, i, dv, n);
        lemma_multiset_commutative(a.head.drops(), a.retired_drops_upto(n));
        lemma_multiset_commutative(b.head.drops(), b.retired_drops_upto(n));
        assert(b.head.drops().to_multiset().add(b.retired_drops_upto(n).to_multiset())
            =~= a.head.drops().to_multiset().add(a.retired_drops_upto(n).to_multiset()).insert(
            dv,
        ));
    }
}

/// Writing over bytes of the copy pool changes nothing of the values due.
pub proof fn lemma_write_copy_pending(a: ArenaView, slot: Slot, data: Seq<u8>)
    requires
        a.wf(),
        slot.copy,
        a.holds(slot),
        data.len() == slot.len,
    ensures
        a.write(slot, data).pending() == a.pending(),
{
    let b = a.write(slot, data);
    let c = a.chunk_of(slot).unwrap();
    crate::frames::lemma_chunk_of(a, slot);
    lemma_written_wf(c, slot, data);
    lemma_with_chunk_wf(a, slot, c.written(slot, data));
    if a.pool(slot.copy).ord != slot.chunk {
        let i = choose|i: int| a.retired_is(i, slot);
        lemma_retired_unique(a, i, slot);
        assert(b.chunks[i].drops() =~= a.chunks[i].drops());
    } else {
        assert(b.chunks == a.chunks);
    }
    lemma_retired_drops_agree(a, b, a.chunks.len() as int);
}

} // verus!
