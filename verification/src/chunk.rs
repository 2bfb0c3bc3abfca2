//! One fixed-capacity buffer with its fill cursor, and the walk that finds
//! the values in it that are due for destruction.

use crate::invariants::{
    lemma_header_is_align, lemma_index_of, lemma_record_bounds, lemma_records_ordered,
    lemma_slot_bounds, lemma_walk_step, lemma_written_wf,
};
use crate::layout::{
    bitpack_tydesc_ptr, lemma_bitpack_round_trip, round_up, spec_bitpack, un_bitpack_tydesc_ptr,
    HEADER, MAX_CHUNK,
};
use crate::model::{put_word, splice, word_at, zeros, ChunkView, DropView, Record, Slot};
use crate::tydesc::TyDesc;
use vstd::bytes::{
    lemma_auto_spec_u64_to_from_le_bytes, u64_from_le_bytes, u64_to_le_bytes,
};
use vstd::prelude::*;
use vstd::slice::{slice_subrange, slice_to_vec};

verus! {

/// A value that is due for destruction: the number of its destructor and a
/// copy of its bytes.
#[derive(Debug)]
pub struct Dropped {
    pub drop_glue: usize,
    pub payload: Vec<u8>,
}

impl View for Dropped {
    type V = DropView;

    open spec fn view(&self) -> DropView {
        DropView { drop_glue: self.drop_glue, payload: self.payload@ }
    }
}

/// The values of a list of `Dropped`, one for one.
pub open spec fn drop_views(s: Seq<Dropped>) -> Seq<DropView> {
    Seq::new(s.len(), |i: int| s[i]@)
}

/// One contiguous buffer of fixed capacity, filled from the front.
pub struct Chunk {
    /// The buffer; its length is the chunk's capacity.
    pub(crate) data: Vec<u8>,
    /// Index of the first unused byte.
    pub(crate) fill: usize,
    /// Whether only values without destructors are stored in this chunk.
    pub(crate) is_copy: bool,
    /// How many chunks of the same pool were retired before this one.
    pub(crate) ord: usize,
    /// The records that the used bytes hold, oldest first.
    pub(crate) records: Ghost<Seq<Record>>,
}

impl View for Chunk {
    type V = ChunkView;

    closed spec fn view(&self) -> ChunkView {
        ChunkView {
            ord: self.ord as int,
            is_copy: self.is_copy,
            fill: self.fill as int,
            bytes: self.data@,
            records: self.records@,
        }
    }
}

/// The room that `data` has for bytes without moving.
///
/// Calls `Vec::capacity`. The number depends on what the allocator handed
/// out; all that is claimed of it is that a vector's capacity is never below
/// its length.
#[verifier::external_body]
fn buffer_room(data: &Vec<u8>) -> (room: usize)
    ensures
        room >= data@.len(),
{
    data.capacity()
}

impl Chunk {
    /// A chunk of `size` zero bytes, none of them used.
    pub fn new(size: usize, is_copy: bool) -> (c: Chunk)
        requires
            size <= MAX_CHUNK,
        ensures
            c@ == ChunkView::fresh(size as int, is_copy, 0),
            c@.wf(),
    {
        let data = vec![0u8; size];
        assert(data@ =~= zeros(size as nat));
        Chunk { data, fill: 0, is_copy, ord: 0, records: Ghost(Seq::empty()) }
    }

    /// The number of bytes the chunk can hold.
    pub fn capacity(&self) -> (n: usize)
        ensures
            n == self@.capacity(),
    {
        self.data.len()
    }

    /// The number of bytes in use.
    pub fn fill(&self) -> (n: usize)
        ensures
            n == self@.fill,
    {
        self.fill
    }

    /// Whether only values without destructors are stored in this chunk.
    pub fn is_copy(&self) -> (b: bool)
        ensures
            b == self@.is_copy,
    {
        self.is_copy
    }

    /// The room that the buffer has for bytes without moving: at least the
    /// chunk's capacity, and beyond that whatever the allocator gave.
    pub(crate) fn room(&self) -> (room: usize)
        ensures
            room >= self@.capacity(),
    {
        buffer_room(&self.data)
    }

    /// Extends the buffer with zero bytes to a capacity of `room`.
    pub(crate) fn extend(&mut self, room: usize)
        requires
            old(self)@.capacity() <= room,
        ensures
            final(self)@ == (ChunkView {
                bytes: old(self)@.bytes + zeros((room - old(self)@.capacity()) as nat),
                ..old(self)@
            }),
    {
        let ghost cap = self.data@.len();
        self.data.resize(room, 0u8);
        assert forall|i: int| cap <= i < room implies self.data@[i] == 0u8 by {
            assert(cloned::<u8>(0u8, self.data@[i]));
        }
        assert forall|i: int| 0 <= i < cap implies self.data@[i] == old(self).data@[i] by {
            assert(self.data@.subrange(0, cap as int)[i] == old(self).data@[i]);
        }
        assert(self.data@ =~= old(self).data@ + zeros((room - cap) as nat));
    }

    /// Sets the chunk's place in the order of its pool.
    pub(crate) fn set_ord(&mut self, ord: usize)
        ensures
            final(self)@ == (ChunkView { ord: ord as int, ..old(self)@ }),
    {
        self.ord = ord;
    }

    /// Moves the fill cursor.
    pub(crate) fn set_fill(&mut self, fill: usize)
        ensures
            final(self)@ == (ChunkView { fill: fill as int, ..old(self)@ }),
    {
        self.fill = fill;
    }

    /// The chunk's place in the order of its pool.
    pub fn ord(&self) -> (n: usize)
        ensures
            n == self@.ord,
    {
        self.ord
    }

    /// The bytes from `start` up to `end`.
    pub fn bytes(&self, start: usize, end: usize) -> (s: &[u8])
        requires
            start <= end <= self@.capacity(),
        ensures
            s@ == self@.bytes.subrange(start as int, end as int),
    {
        slice_subrange(self.data.as_slice(), start, end)
    }

    /// Reads the header word at offset `at`.
    pub(crate) fn read_word(&self, at: usize) -> (w: u64)
        requires
            at + 8 <= self@.capacity(),
        ensures
            w == word_at(self@.bytes, at as int),
    {
        assert(self.data.len() == self.data@.len());
        u64_from_le_bytes(slice_subrange(self.data.as_slice(), at, at + 8))
    }

    /// Writes `src` over the bytes from offset `at`.
    pub(crate) fn write_at(&mut self, at: usize, src: &[u8])
        requires
            at + src@.len() <= old(self)@.capacity(),
        ensures
            final(self)@ == (ChunkView {
                bytes: splice(old(self)@.bytes, at as int, src@),
                ..old(self)@
            }),
    {
        let n = src.len();
        let mut i: usize = 0;
        assert(self.data.len() == self.data@.len());
        while i < n
            invariant
                0 <= i <= n,
                n == src@.len(),
                at + n <= self.data@.len() <= usize::MAX,
                self.data@.len() == old(self).data@.len(),
                self.fill == old(self).fill,
                self.is_copy == old(self).is_copy,
                self.ord == old(self).ord,
                self.records == old(self).records,
                forall|j: int|
                    0 <= j < self.data@.len() ==> self.data@[j] == if at <= j < at + i {
                        src@[j - at]
                    } else {
                        old(self).data@[j]
                    },
            decreases n - i,
        {
            self.data[at + i] = src[i];
            i += 1;
        }
        assert(self.data@ =~= splice(old(self).data@, at as int, src@));
    }

    /// Writes header word `w` at offset `at`.
    pub(crate) fn write_word(&mut self, at: usize, w: u64)
        requires
            at + 8 <= old(self)@.capacity(),
        ensures
            final(self)@ == (ChunkView {
                bytes: put_word(old(self)@.bytes, at as int, w),
                ..old(self)@
            }),
    {
        let b = u64_to_le_bytes(w);
        proof {
            lemma_auto_spec_u64_to_from_le_bytes();
        }
        self.write_at(at, b.as_slice());
    }

    /// Opens a record: stores its header word at offset `header`, moves the
    /// fill cursor to `end`, and notes the record.
    pub(crate) fn open_record(&mut self, header: usize, end: usize, w: u64, r: Ghost<Record>)
        requires
            header + 8 <= old(self)@.capacity(),
        ensures
            final(self)@ == (ChunkView {
                fill: end as int,
                bytes: put_word(old(self)@.bytes, header as int, w),
                records: old(self)@.records.push(r@),
                ..old(self)@
            }),
    {
        self.write_word(header, w);
        self.fill = end;
        self.records = Ghost(self.records@.push(r@));
    }

    /// Writes `data` over the bytes of `slot`.
    pub(crate) fn write_slot(&mut self, slot: Slot, data: &[u8])
        requires
            old(self)@.wf(),
            old(self)@.has(slot),
            data@.len() == slot.len,
        ensures
            final(self)@ == old(self)@.written(slot, data@),
    {
        proof {
            lemma_slot_bounds(self@, slot);
        }
        self.write_at(slot.start, data);
    }

    /// Closes a record: writes `payload` over its bytes and sets the flag in
    /// its header.
    pub(crate) fn close_record(&mut self, slot: Slot, payload: &[u8])
        requires
            old(self)@.wf(),
            !old(self)@.is_copy,
            old(self)@.has(slot),
            payload@.len() == slot.len,
        ensures
            final(self)@ == old(self)@.committed(slot, payload@),
    {
        let ghost c = self@;
        let ghost k = c.index_of(slot);
        proof {
            lemma_slot_bounds(c, slot);
            lemma_written_wf(c, slot, payload@);
            lemma_record_bounds(c, k);
            let x = spec_bitpack(c.records[k].ty, c.records[k].done);
            assert(x as u64 as usize == x);
            lemma_bitpack_round_trip(c.records[k].ty, c.records[k].done);
        }
        self.write_at(slot.start, payload);
        let w = self.read_word(slot.header);
        let (ty, _) = un_bitpack_tydesc_ptr(w as usize);
        let done = bitpack_tydesc_ptr(ty, true);
        self.write_word(slot.header, done as u64);
        self.records = Ghost(self.records@.update(k, Record { done: true, ..self.records@[k] }));
    }

    /// Forgets what the chunk holds: nothing is in use, and it is the first
    /// of its pool.
    pub(crate) fn reset(&mut self)
        ensures
            final(self)@ == old(self)@.emptied(),
    {
        self.fill = 0;
        self.ord = 0;
        self.records = Ghost(Seq::empty());
    }

    /// Looks for the allocation that `slot` names. Returns `None` if the
    /// chunk has none such, else whether it is initialised; bytes of the
    /// copy pool always count as initialised.
    pub fn find(&self, tydescs: &Vec<TyDesc>, slot: Slot) -> (found: Option<bool>)
        requires
            self@.wf(),
            self@.typed_by(tydescs@),
        ensures
            found is Some == self@.has(slot),
            found is Some && !self@.is_copy ==> found.unwrap()
                == self@.records[self@.index_of(slot)].done,
            found is Some && self@.is_copy ==> found.unwrap(),
    {
        if self.is_copy {
            let fits = match slot.start.checked_add(slot.len) {
                Some(end) => end <= self.fill,
                None => false,
            };
            return if slot.header == slot.start && fits {
                Some(true)
            } else {
                None
            };
        }
        let mut idx: usize = 0;
        let ghost mut k: int = 0;
        let ghost c = self@;
        proof {
            if c.records.len() > 0 {
                assert(c.record_ok(0));
            }
        }
        while idx < self.fill && idx < slot.header
            invariant
                c == self@,
                c.wf(),
                !c.is_copy,
                c.typed_by(tydescs@),
                0 <= k <= c.records.len(),
                k < c.records.len() ==> idx == c.records[k].header,
                k == c.records.len() ==> idx == c.fill,
                forall|j: int| 0 <= j < k ==> !c.record_is(j, slot),
            decreases c.records.len() - k,
        {
            proof {
                lemma_walk_step(c, tydescs@, k);
                lemma_record_bounds(c, k);
                lemma_header_is_align();
            }
            let w = self.read_word(idx);
            let (ty, _) = un_bitpack_tydesc_ptr(w as usize);
            let desc = tydescs[ty / 2];
            let start = round_up(idx + HEADER, desc.align);
            idx = round_up(start + desc.size, HEADER);
            proof {
                k = k + 1;
            }
        }
        proof {
            if k < c.records.len() {
                lemma_walk_step(c, tydescs@, k);
                lemma_record_bounds(c, k);
                lemma_header_is_align();
            }
            assert forall|j: int| k < j < c.records.len() implies !c.record_is(j, slot) by {
                lemma_records_ordered(c, k, j);
                lemma_record_bounds(c, j);
            }
        }
        if idx < self.fill && idx == slot.header {
            let w = self.read_word(idx);
            let (ty, is_done) = un_bitpack_tydesc_ptr(w as usize);
            let desc = tydescs[ty / 2];
            let start = round_up(idx + HEADER, desc.align);
            if start == slot.start && desc.size == slot.len {
                proof {
                    assert(c.record_is(k, slot));
                    lemma_index_of(c, k, slot);
                }
                return Some(is_done);
            }
        }
        None
    }

    /// Walks down the chunk and collects, oldest first, the values whose
    /// headers say that they were initialised.
    pub fn destroy(&self, tydescs: &Vec<TyDesc>) -> (dropped: Vec<Dropped>)
        requires
            self@.wf(),
            !self@.is_copy,
            self@.typed_by(tydescs@),
        ensures
            drop_views(dropped@) == self@.drops(),
    {
        let mut dropped: Vec<Dropped> = Vec::new();
        let mut idx: usize = 0;
        let ghost mut k: int = 0;
        let ghost c = self@;
        proof {
            assert(drop_views(dropped@) =~= c.drops_upto(0));
            if c.records.len() > 0 {
                assert(c.record_ok(0));
            }
        }
        while idx < self.fill
            invariant
                c == self@,
                c.wf(),
                !c.is_copy,
                c.typed_by(tydescs@),
                0 <= k <= c.records.len(),
                k < c.records.len() ==> idx == c.records[k].header,
                k == c.records.len() ==> idx == c.fill,
                drop_views(dropped@) == c.drops_upto(k),
            decreases c.records.len() - k,
        {
            let ghost r = c.records[k];
            proof {
                lemma_walk_step(c, tydescs@, k);
                lemma_record_bounds(c, k);
                lemma_header_is_align();
            }
            let w = self.read_word(idx);
            let (ty, is_done) = un_bitpack_tydesc_ptr(w as usize);
            let desc = tydescs[ty / 2];
            let after_tydesc: usize = idx + HEADER;
            let start = round_up(after_tydesc, desc.align);
            let ghost before = drop_views(dropped@);
            if is_done {
                let glue = match desc.drop_glue {
                    Some(g) => g,
                    None => 0,
                };
                let payload = slice_to_vec(self.bytes(start, start + desc.size));
                dropped.push(Dropped { drop_glue: glue, payload });
                assert(drop_views(dropped@) =~= before.push(c.drop_of(r)));
            }
            idx = round_up(start + desc.size, HEADER);
            proof {
                k = k + 1;
            }
        }
        proof {
            if k < c.records.len() {
                lemma_record_bounds(c, k);
            }
        }
        dropped
    }
}

} // verus!
