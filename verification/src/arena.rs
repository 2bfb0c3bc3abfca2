//! The arena: two pools of chunks, the allocation paths, and bulk destruction.

use crate::chunk::{drop_views, Chunk, Dropped};
use crate::invariants::{
    lemma_bump_copy_wf, lemma_cleared_wf, lemma_committed_wf, lemma_copy_chunk_drops,
    lemma_grow_wf, lemma_index_of, lemma_interned_wf, lemma_reserve_wf, lemma_retired_unique,
    lemma_with_chunk_wf, lemma_written_wf,
};
use crate::layout::{
    bitpack_tydesc_ptr, is_align, next_power_of_two, round_up, HEADER, MAX_CHUNK,
};
use crate::model::{ArenaView, ChunkView, Slot, MAX_TYDESCS};
use crate::tydesc::TyDesc;
use vstd::prelude::*;

verus! {

/// A bump arena for values of any type, kept as bytes.
///
/// Values with a destructor and values without one live in separate pools of
/// chunks. A value with a destructor is preceded by a header that names its
/// type and says whether the value was initialised; `clear` and `teardown`
/// walk the headers and report the initialised values, so that their
/// destructors can be run. An arena that is dropped without `teardown`
/// frees its chunks and reports nothing.
pub struct AnyArena {
    head: Chunk,
    copy_head: Chunk,
    chunks: Vec<Chunk>,
    tydescs: Vec<TyDesc>,
}

impl View for AnyArena {
    type V = ArenaView;

    closed spec fn view(&self) -> ArenaView {
        ArenaView {
            tydescs: self.tydescs@,
            head: self.head@,
            copy_head: self.copy_head@,
            chunks: Seq::new(self.chunks@.len(), |i: int| self.chunks@[i]@),
        }
    }
}

impl AnyArena {
    /// The arena's invariant: that of its value.
    pub open spec fn wf(&self) -> bool {
        self@.wf()
    }

    /// An arena with 32 bytes set aside in each pool.
    pub fn new() -> (arena: AnyArena)
        ensures
            arena@ == ArenaView::init(32),
            arena.wf(),
    {
        AnyArena::new_with_size(32)
    }

    /// An arena with `initial_size` bytes set aside in each pool.
    pub fn new_with_size(initial_size: usize) -> (arena: AnyArena)
        requires
            initial_size <= MAX_CHUNK,
        ensures
            arena@ == ArenaView::init(initial_size as int),
            arena.wf(),
    {
        let arena = AnyArena {
            head: Chunk::new(initial_size, false),
            copy_head: Chunk::new(initial_size, true),
            chunks: Vec::new(),
            tydescs: Vec::new(),
        };
        assert(arena@.chunks =~= Seq::empty());
        arena
    }

    /// Runs the growth policy on a pool, given the room that the active
    /// chunk's buffer is said to have: the chunk grows where it is if `room`
    /// holds `n_bytes` more than `used_cap`; otherwise a larger chunk takes
    /// its place and it is retired, unless it was unused. Says whether the
    /// chunk was replaced.
    pub fn grow_within(
        &mut self,
        copy: bool,
        used_cap: usize,
        n_bytes: usize,
        room: usize,
    ) -> (replaced: bool)
        requires
            old(self).wf(),
            old(self)@.grows_in_place(copy, used_cap as int, n_bytes as int, room as int) || old(
                self,
            )@.can_replace(copy, n_bytes as int),
        ensures
            final(self).wf(),
            final(self)@ == old(self)@.grow(copy, used_cap as int, n_bytes as int, room as int),
            replaced == !old(self)@.grows_in_place(
                copy,
                used_cap as int,
                n_bytes as int,
                room as int,
            ),
    {
        proof {
            lemma_grow_wf(self@, copy, used_cap as int, n_bytes as int, room as int);
        }
        let replaced = if copy {
            grow_chunk(&mut self.copy_head, &mut self.chunks, used_cap, n_bytes, room)
        } else {
            grow_chunk(&mut self.head, &mut self.chunks, used_cap, n_bytes, room)
        };
        assert(self@.chunks =~= old(self)@.grow(
            copy,
            used_cap as int,
            n_bytes as int,
            room as int,
        ).chunks);
        replaced
    }

    /// Runs the growth policy on a pool: grows the active chunk where it is
    /// if its buffer has the room, else replaces it. Says whether the chunk
    /// was replaced.
    pub fn alloc_grow(&mut self, copy: bool, used_cap: usize, n_bytes: usize) -> (replaced: bool)
        requires
            old(self).wf(),
            old(self)@.can_replace(copy, n_bytes as int),
        ensures
            final(self).wf(),
            exists|room: int|
                final(self)@ == #[trigger] old(self)@.grow(
                    copy,
                    used_cap as int,
                    n_bytes as int,
                    room,
                ) && replaced == !old(self)@.grows_in_place(
                    copy,
                    used_cap as int,
                    n_bytes as int,
                    room,
                ),
    {
        let room = if copy {
            self.copy_head.room()
        } else {
            self.head.room()
        };
        self.grow_within(copy, used_cap, n_bytes, room)
    }

    /// Sets `n_bytes` aside in the copy pool, aligned to `align`. What the
    /// bytes hold is left as it was.
    pub fn alloc_copy_inner(&mut self, n_bytes: usize, align: usize) -> (slot: Slot)
        requires
            old(self).wf(),
            is_align(align as int),
            old(self)@.admits_copy(n_bytes as int, align as int),
        ensures
            final(self).wf(),
            slot.start % align == 0,
            slot.len == n_bytes,
            final(self)@.holds(slot),
            exists|room: int|
                final(self)@ == #[trigger] old(self)@.bump_copy(n_bytes as int, align as int, room)
                    && slot == old(self)@.copy_slot(n_bytes as int, align as int, room),
    {
        let fill = self.copy_head.fill();
        proof {
            crate::layout::lemma_align_positive(align as int);
            crate::layout::lemma_round_up(fill as int, align as int);
        }
        let mut start = round_up(fill, align);
        let mut end = start + n_bytes;
        let ghost mut room: int = 0;
        if end > self.copy_head.capacity() {
            let replaced = self.alloc_grow(true, fill, end - fill);
            proof {
                room = choose|room: int|
                    self@ == #[trigger] old(self)@.grow(true, fill as int, end - fill, room)
                        && replaced == !old(self)@.grows_in_place(
                        true,
                        fill as int,
                        end - fill,
                        room,
                    );
            }
            if replaced {
                // Continuing with a newly allocated chunk
                start = 0;
                end = n_bytes;
            }
        }
        self.copy_head.set_fill(end);
        proof {
            lemma_bump_copy_wf(old(self)@, n_bytes as int, align as int, room);
            assert(self@ == old(self)@.bump_copy(n_bytes as int, align as int, room));
        }
        Slot { copy: true, chunk: self.copy_head.ord(), header: start, start, len: n_bytes }
    }

    /// The address that stands for `desc` in headers. A descriptor that the
    /// arena has not met before is taken into its table.
    pub fn get_tydesc(&mut self, desc: TyDesc) -> (ty: usize)
        requires
            old(self).wf(),
            desc.wf(),
            desc.drop_glue is Some,
            old(self)@.knows(desc) || old(self)@.tydescs.len() < MAX_TYDESCS,
        ensures
            final(self).wf(),
            final(self)@ == old(self)@.interned(desc),
            ty == old(self)@.tydesc_ptr(desc),
    {
        proof {
            lemma_interned_wf(self@, desc);
        }
        let n = self.tydescs.len();
        let mut i: usize = 0;
        while i < n
            invariant
                0 <= i <= n,
                n == self.tydescs@.len(),
                n <= MAX_TYDESCS,
                *self == *old(self),
                old(self).wf(),
                desc.wf(),
                desc.drop_glue is Some,
                forall|j: int| 0 <= j < i ==> self.tydescs@[j] != desc,
            decreases n - i,
        {
            if self.tydescs[i].same(&desc) {
                proof {
                    assert(self@.tydescs[i as int] == desc);
                    lemma_interned_wf(self@, desc);
                }
                return 2 * i;
            }
            i += 1;
        }
        self.tydescs.push(desc);
        assert(self@.chunks =~= old(self)@.chunks);
        2 * i
    }

    /// Sets a record of type `desc` aside in the pool of values with
    /// destructors: a header that names the type and says that the value is
    /// not initialised, and behind it, aligned, the room for the value.
    pub fn alloc_noncopy_inner(&mut self, desc: TyDesc) -> (slot: Slot)
        requires
            old(self).wf(),
            old(self)@.admits_record(desc),
        ensures
            final(self).wf(),
            slot.start % desc.align == 0,
            slot.len == desc.size,
            final(self)@.awaits(slot),
            exists|room: int|
                final(self)@ == #[trigger] old(self)@.reserve(desc, room) && slot == old(
                    self,
                )@.reserved_slot(desc, room),
    {
        let ghost a = self@;
        let ty = self.get_tydesc(desc);
        let ghost b = self@;
        let fill = self.head.fill();
        proof {
            lemma_interned_wf(a, desc);
            lemma_reserve_wf(a, desc, 0);
            crate::invariants::lemma_header_is_align();
            crate::layout::lemma_align_positive(desc.align as int);
            crate::layout::lemma_round_up(fill + 8, desc.align as int);
            crate::layout::lemma_round_up(8, desc.align as int);
        }
        let mut tydesc_start = fill;
        let after_tydesc = fill + HEADER;
        let mut start = round_up(after_tydesc, desc.align);
        proof {
            crate::layout::lemma_round_up(start + desc.size, 8);
        }
        let mut end = round_up(start + desc.size, HEADER);
        let ghost mut room: int = 0;
        if end > self.head.capacity() {
            let fresh_start = round_up(HEADER, desc.align);
            proof {
                crate::layout::lemma_round_up(fresh_start + desc.size, 8);
            }
            let fresh_end = round_up(fresh_start + desc.size, HEADER);
            let need = if end - fill > fresh_end {
                end - fill
            } else {
                fresh_end
            };
            let replaced = self.alloc_grow(false, fill, need);
            proof {
                room = choose|room: int|
                    self@ == #[trigger] b.grow(false, fill as int, need as int, room) && replaced
                        == !b.grows_in_place(false, fill as int, need as int, room);
            }
            if replaced {
                // Continuing with a newly allocated chunk
                tydesc_start = 0;
                start = fresh_start;
                end = fresh_end;
            }
        }
        proof {
            lemma_reserve_wf(a, desc, room);
        }
        let w = bitpack_tydesc_ptr(ty, false);
        self.head.open_record(tydesc_start, end, w as u64, Ghost(a.reserved(desc, room)));
        let slot = Slot {
            copy: false,
            chunk: self.head.ord(),
            header: tydesc_start,
            start,
            len: desc.size,
        };
        proof {
            assert(self@ == a.reserve(desc, room));
            let c = self@.head;
            assert(self@.chunk_of(slot) == Some(c));
            assert(c.record_is(c.records.len() - 1, slot));
            lemma_index_of(c, c.records.len() - 1, slot);
        }
        slot
    }

    /// Finds the chunk that `slot` lies in.
    fn locate(&self, slot: Slot) -> (place: Place)
        requires
            self.wf(),
        ensures
            match place {
                Place::Active => self@.pool(slot.copy).ord == slot.chunk,
                Place::Retired(i) => self@.retired_is(i as int, slot) && self@.pool(slot.copy).ord
                    != slot.chunk && (choose|j: int| self@.retired_is(j, slot)) == i,
                Place::Nowhere => self@.chunk_of(slot) is None,
            },
    {
        let active = if slot.copy {
            self.copy_head.ord()
        } else {
            self.head.ord()
        };
        if active == slot.chunk {
            return Place::Active;
        }
        let n = self.chunks.len();
        let mut i: usize = 0;
        while i < n
            invariant
                0 <= i <= n,
                n == self.chunks@.len(),
                self.wf(),
                forall|j: int| 0 <= j < i ==> !self@.retired_is(j, slot),
            decreases n - i,
        {
            if self.chunks[i].is_copy() == slot.copy && self.chunks[i].ord() == slot.chunk {
                proof {
                    assert(self@.retired_is(i as int, slot));
                    lemma_retired_unique(self@, i as int, slot);
                }
                return Place::Retired(i);
            }
            i += 1;
        }
        Place::Nowhere
    }

    /// The capacity of the active chunk of a pool.
    pub fn capacity(&self, copy: bool) -> (n: usize)
        ensures
            n == self@.pool(copy).capacity(),
    {
        if copy {
            self.copy_head.capacity()
        } else {
            self.head.capacity()
        }
    }

    /// The number of bytes in use in the active chunk of a pool.
    pub fn fill(&self, copy: bool) -> (n: usize)
        ensures
            n == self@.pool(copy).fill,
    {
        if copy {
            self.copy_head.fill()
        } else {
            self.head.fill()
        }
    }

    /// The number of retired chunks.
    pub fn retired(&self) -> (n: usize)
        ensures
            n == self@.chunks.len(),
    {
        self.chunks.len()
    }

    /// Looks for the allocation that `slot` names: `None` if the arena holds
    /// none such, else whether it is initialised.
    fn find(&self, slot: Slot) -> (found: Option<bool>)
        requires
            self.wf(),
        ensures
            found is Some == self@.holds(slot),
            found == Some(false) <==> self@.awaits(slot),
    {
        match self.locate(slot) {
            Place::Nowhere => None,
            Place::Retired(i) => {
                proof {
                    lemma_retired_unique(self@, i as int, slot);
                }
                self.chunks[i].find(&self.tydescs, slot)
            },
            Place::Active => {
                if slot.copy {
                    self.copy_head.find(&self.tydescs, slot)
                } else {
                    self.head.find(&self.tydescs, slot)
                }
            },
        }
    }

    /// Whether the arena holds the allocation that `slot` names.
    pub fn contains(&self, slot: Slot) -> (b: bool)
        requires
            self.wf(),
        ensures
            b == self@.holds(slot),
    {
        self.find(slot).is_some()
    }

    /// Whether `slot` names a record that is set aside and not initialised.
    pub fn awaits(&self, slot: Slot) -> (b: bool)
        requires
            self.wf(),
        ensures
            b == self@.awaits(slot),
    {
        match self.find(slot) {
            Some(done) => !done,
            None => false,
        }
    }

    /// Whether the copy pool can serve `n_bytes` aligned to `align`.
    fn copy_admits(&self, n_bytes: usize, align: usize) -> (ok: bool)
        requires
            self.wf(),
            is_align(align as int),
        ensures
            ok == self@.admits_copy(n_bytes as int, align as int),
    {
        let fill = self.copy_head.fill();
        let cap = self.copy_head.capacity();
        proof {
            crate::layout::lemma_align_positive(align as int);
            crate::layout::lemma_round_up(fill as int, align as int);
        }
        let start = round_up(fill, align);
        match start.checked_add(n_bytes) {
            Some(end) => end <= cap || replaceable(end - fill, cap),
            None => false,
        }
    }

    /// Whether `alloc_bytes` can serve `len` bytes.
    pub fn can_alloc_bytes(&self, len: usize) -> (ok: bool)
        requires
            self.wf(),
        ensures
            ok == self@.admits_copy(len as int, 1),
    {
        proof {
            crate::layout::lemma_one_is_align();
        }
        self.copy_admits(len, 1)
    }

    /// Whether the arena has met `desc`.
    fn knows(&self, desc: &TyDesc) -> (b: bool)
        ensures
            b == self@.knows(*desc),
    {
        let n = self.tydescs.len();
        let mut i: usize = 0;
        while i < n
            invariant
                0 <= i <= n,
                n == self.tydescs@.len(),
                forall|j: int| 0 <= j < i ==> self.tydescs@[j] != *desc,
            decreases n - i,
        {
            if self.tydescs[i].same(desc) {
                assert(self@.tydescs[i as int] == *desc);
                return true;
            }
            i += 1;
        }
        false
    }

    /// Whether the arena can take a value of type `desc`.
    pub fn can_allocate(&self, desc: &TyDesc) -> (ok: bool)
        requires
            self.wf(),
        ensures
            ok == self@.admits(*desc),
    {
        if !desc.is_valid() {
            return false;
        }
        if !desc.needs_drop() {
            return self.copy_admits(desc.size, desc.align);
        }
        if !self.knows(desc) && self.tydescs.len() >= MAX_TYDESCS {
            return false;
        }
        let fill = self.head.fill();
        let cap = self.head.capacity();
        proof {
            crate::invariants::lemma_header_is_align();
            crate::layout::lemma_align_positive(desc.align as int);
            crate::layout::lemma_round_up(fill + 8, desc.align as int);
            crate::layout::lemma_round_up(8, desc.align as int);
            crate::layout::lemma_round_up_monotone(8, fill + 8, desc.align as int);
        }
        let start = round_up(fill + HEADER, desc.align);
        let fresh_start = round_up(HEADER, desc.align);
        proof {
            crate::layout::lemma_round_up(start + desc.size, 8);
            crate::layout::lemma_round_up(fresh_start + desc.size, 8);
            crate::layout::lemma_round_up_monotone(
                fresh_start + desc.size,
                start + desc.size,
                8,
            );
        }
        if desc.size > usize::MAX - start - (HEADER - 1) {
            return false;
        }
        let end = round_up(start + desc.size, HEADER);
        if end <= cap {
            return true;
        }
        let fresh_end = round_up(fresh_start + desc.size, HEADER);
        let need = if end - fill > fresh_end {
            end - fill
        } else {
            fresh_end
        };
        replaceable(need, cap)
    }

    /// The bytes of `slot`.
    pub fn get(&self, slot: Slot) -> (bytes: &[u8])
        requires
            self.wf(),
            self@.holds(slot),
        ensures
            bytes@ == self@.contents(slot),
    {
        let place = self.locate(slot);
        proof {
            crate::invariants::lemma_slot_bounds(self@.chunk_of(slot).unwrap(), slot);
        }
        match place {
            Place::Retired(i) => {
                proof {
                    lemma_retired_unique(self@, i as int, slot);
                }
                self.chunks[i].bytes(slot.start, slot.start + slot.len)
            },
            _ => {
                if slot.copy {
                    self.copy_head.bytes(slot.start, slot.start + slot.len)
                } else {
                    self.head.bytes(slot.start, slot.start + slot.len)
                }
            },
        }
    }

    /// Writes `data` over the bytes of `slot`.
    pub fn write(&mut self, slot: Slot, data: &[u8])
        requires
            old(self).wf(),
            old(self)@.holds(slot),
            data@.len() == slot.len,
        ensures
            final(self).wf(),
            final(self)@ == old(self)@.write(slot, data@),
    {
        let place = self.locate(slot);
        let ghost c = self@.chunk_of(slot).unwrap();
        proof {
            lemma_written_wf(c, slot, data@);
            lemma_with_chunk_wf(self@, slot, c.written(slot, data@));
        }
        match place {
            Place::Retired(i) => {
                proof {
                    lemma_retired_unique(self@, i as int, slot);
                }
                self.chunks[i].write_slot(slot, data);
                assert(self@.chunks =~= old(self)@.write(slot, data@).chunks);
            },
            _ => {
                if slot.copy {
                    self.copy_head.write_slot(slot, data);
                } else {
                    self.head.write_slot(slot, data);
                }
                assert(self@.chunks =~= old(self)@.write(slot, data@).chunks);
            },
        }
    }

    /// Gives the record of `slot` its value and marks it as initialised.
    pub fn commit(&mut self, slot: Slot, payload: &[u8])
        requires
            old(self).wf(),
            old(self)@.awaits(slot),
            payload@.len() == slot.len,
        ensures
            final(self).wf(),
            final(self)@ == old(self)@.commit(slot, payload@),
    {
        let place = self.locate(slot);
        let ghost c = self@.chunk_of(slot).unwrap();
        proof {
            if place is Retired {
                lemma_retired_unique(self@, place->Retired_0 as int, slot);
            }
            lemma_committed_wf(c, slot, payload@);
            lemma_with_chunk_wf(self@, slot, c.committed(slot, payload@));
        }
        match place {
            Place::Retired(i) => {
                self.chunks[i].close_record(slot, payload);
                assert(self@.chunks =~= old(self)@.commit(slot, payload@).chunks);
            },
            _ => {
                self.head.close_record(slot, payload);
                assert(self@.chunks =~= old(self)@.commit(slot, payload@).chunks);
            },
        }
    }

    /// Walks every chunk that holds values with destructors and collects the
    /// initialised ones: those of the active chunk, then those of the retired
    /// chunks in the order of their retirement.
    fn destroy_all(&self) -> (dropped: Vec<Dropped>)
        requires
            self.wf(),
        ensures
            drop_views(dropped@) == self@.pending(),
    {
        let mut dropped = self.head.destroy(&self.tydescs);
        let n = self.chunks.len();
        let mut i: usize = 0;
        assert(drop_views(dropped@) =~= self@.head.drops() + self@.retired_drops_upto(0));
        while i < n
            invariant
                0 <= i <= n,
                n == self.chunks@.len(),
                self.wf(),
                drop_views(dropped@) == self@.head.drops() + self@.retired_drops_upto(i as int),
            decreases n - i,
        {
            let ghost before = drop_views(dropped@);
            let ghost c = self@.chunks[i as int];
            assert(c.wf() && c.typed_by(self@.tydescs));
            if !self.chunks[i].is_copy() {
                let mut more = self.chunks[i].destroy(&self.tydescs);
                let ghost added = drop_views(more@);
                dropped.append(&mut more);
                assert(drop_views(dropped@) =~= before + added);
            } else {
                proof {
                    lemma_copy_chunk_drops(c);
                }
            }
            assert(drop_views(dropped@) =~= before + c.drops());
            assert(before + c.drops() =~= self@.head.drops() + (self@.retired_drops_upto(i as int)
                + c.drops()));
            i += 1;
        }
        dropped
    }

    /// Clears the arena: reports every value that is due for destruction,
    /// frees the retired chunks and keeps the two active buffers, which
    /// count as unused from now on. Every slot handed out before is void.
    pub fn clear(&mut self) -> (dropped: Vec<Dropped>)
        requires
            old(self).wf(),
        ensures
            final(self).wf(),
            final(self)@ == old(self)@.cleared(),
            drop_views(dropped@) == old(self)@.pending(),
    {
        let dropped = self.destroy_all();
        self.head.reset();
        self.copy_head.reset();
        self.chunks.clear();
        proof {
            lemma_cleared_wf(old(self)@);
            assert(self@.chunks =~= old(self)@.cleared().chunks);
        }
        dropped
    }

    /// Ends the arena's life: reports every value that is due for
    /// destruction and frees all chunks.
    pub fn teardown(self) -> (dropped: Vec<Dropped>)
        requires
            self.wf(),
        ensures
            drop_views(dropped@) == self@.pending(),
    {
        self.destroy_all()
    }

    /// Allocates a value of a type without destructor: sets its bytes aside
    /// in the copy pool, runs `op` and, if it succeeds, stores what it gives.
    /// If `op` fails, its error is handed on and the bytes stay set aside.
    pub fn alloc_copy<E, F: FnOnce() -> Result<Vec<u8>, E>>(
        &mut self,
        desc: TyDesc,
        op: F,
    ) -> (r: Result<Slot, E>)
        requires
            old(self).wf(),
            desc.wf(),
            desc.drop_glue is None,
            old(self)@.admits_copy(desc.size as int, desc.align as int),
            op.requires(()),
            forall|p: Result<Vec<u8>, E>|
                op.ensures((), p) && p is Ok ==> (#[trigger] payload_of(p)).unwrap().len()
                    == desc.size,
        ensures
            final(self).wf(),
            r is Ok ==> final(self)@.holds(r->Ok_0) && r->Ok_0.start % desc.align == 0
                && r->Ok_0.len == desc.size,
            exists|room: int, p: Result<Vec<u8>, E>|
                op.ensures((), p) && final(self)@ == #[trigger] old(self)@.alloc_copy(
                    desc,
                    room,
                    payload_of(p),
                ) && r == slot_of(
                    p,
                    old(self)@.copy_slot(desc.size as int, desc.align as int, room),
                ),
    {
        let slot = self.alloc_copy_inner(desc.size, desc.align);
        let ghost room = choose|room: int|
            self@ == #[trigger] old(self)@.bump_copy(desc.size as int, desc.align as int, room)
                && slot == old(self)@.copy_slot(desc.size as int, desc.align as int, room);
        let p = op();
        let ghost pg = p;
        let r = match p {
            Ok(value) => {
                assert(payload_of(pg).unwrap().len() == desc.size);
                self.write(slot, value.as_slice());
                Ok(slot)
            },
            Err(e) => Err(e),
        };
        proof {
            assert(self@ == old(self)@.alloc_copy(desc, room, payload_of(pg)));
            if r is Ok {
                crate::frames::lemma_write_keeps(
                    old(self)@.bump_copy(desc.size as int, desc.align as int, room),
                    slot,
                    payload_of(pg).unwrap(),
                    slot,
                );
            }
        }
        r
    }

    /// Allocates a value of a type with a destructor: sets a record aside,
    /// with a header that says that the value is not initialised, runs `op`
    /// and, if it succeeds, stores what it gives and marks the record as
    /// initialised. If `op` fails, its error is handed on and the record
    /// stays as it is: its destructor will never be asked for.
    pub fn alloc_noncopy<E, F: FnOnce() -> Result<Vec<u8>, E>>(
        &mut self,
        desc: TyDesc,
        op: F,
    ) -> (r: Result<Slot, E>)
        requires
            old(self).wf(),
            old(self)@.admits_record(desc),
            op.requires(()),
            forall|p: Result<Vec<u8>, E>|
                op.ensures((), p) && p is Ok ==> (#[trigger] payload_of(p)).unwrap().len()
                    == desc.size,
        ensures
            final(self).wf(),
            r is Ok ==> final(self)@.holds(r->Ok_0) && r->Ok_0.start % desc.align == 0
                && r->Ok_0.len == desc.size,
            exists|room: int, p: Result<Vec<u8>, E>|
                op.ensures((), p) && final(self)@ == #[trigger] old(self)@.alloc_noncopy(
                    desc,
                    room,
                    payload_of(p),
                ) && r == slot_of(p, old(self)@.reserved_slot(desc, room)),
    {
        let slot = self.alloc_noncopy_inner(desc);
        let ghost room = choose|room: int|
            self@ == #[trigger] old(self)@.reserve(desc, room) && slot == old(
                self,
            )@.reserved_slot(desc, room);
        let ghost a = self@;
        // Run the initialiser; the header says meanwhile that nothing is there.
        let p = op();
        let ghost pg = p;
        let r = match p {
            Ok(value) => {
                assert(payload_of(pg).unwrap().len() == desc.size);
                // Now that the value exists, mark the record as initialised.
                self.commit(slot, value.as_slice());
                Ok(slot)
            },
            Err(e) => Err(e),
        };
        proof {
            assert(self@ == old(self)@.alloc_noncopy(desc, room, payload_of(pg)));
            if r is Ok {
                let c = a.chunk_of(slot).unwrap();
                lemma_committed_wf(c, slot, payload_of(pg).unwrap());
                lemma_with_chunk_wf(a, slot, c.committed(slot, payload_of(pg).unwrap()));
                crate::invariants::lemma_slot_bounds(c, slot);
                assert(c.committed(slot, payload_of(pg).unwrap()).record_is(c.index_of(slot), slot));
            }
        }
        r
    }

    /// Allocates a value of type `desc`, with `op` to initialise it, and
    /// returns its slot. The type decides the pool.
    pub fn allocate<E, F: FnOnce() -> Result<Vec<u8>, E>>(
        &mut self,
        desc: TyDesc,
        op: F,
    ) -> (r: Result<Slot, E>)
        requires
            old(self).wf(),
            old(self)@.admits(desc),
            op.requires(()),
            forall|p: Result<Vec<u8>, E>|
                op.ensures((), p) && p is Ok ==> (#[trigger] payload_of(p)).unwrap().len()
                    == desc.size,
        ensures
            final(self).wf(),
            r is Ok ==> final(self)@.holds(r->Ok_0) && r->Ok_0.start % desc.align == 0
                && r->Ok_0.len == desc.size,
            exists|room: int, p: Result<Vec<u8>, E>|
                op.ensures((), p) && final(self)@ == #[trigger] old(self)@.allocate(
                    desc,
                    room,
                    payload_of(p),
                ) && r == slot_of(p, old(self)@.alloc_slot(desc, room)),
    {
        if desc.needs_drop() {
            let r = self.alloc_noncopy(desc, op);
            proof {
                let (room, p) = choose|room: int, p: Result<Vec<u8>, E>|
                    op.ensures((), p) && self@ == #[trigger] old(self)@.alloc_noncopy(
                        desc,
                        room,
                        payload_of(p),
                    ) && r == slot_of(p, old(self)@.reserved_slot(desc, room));
                assert(self@ == old(self)@.allocate(desc, room, payload_of(p)));
            }
            r
        } else {
            let r = self.alloc_copy(desc, op);
            proof {
                let (room, p) = choose|room: int, p: Result<Vec<u8>, E>|
                    op.ensures((), p) && self@ == #[trigger] old(self)@.alloc_copy(
                        desc,
                        room,
                        payload_of(p),
                    ) && r == slot_of(
                        p,
                        old(self)@.copy_slot(desc.size as int, desc.align as int, room),
                    );
                assert(self@ == old(self)@.allocate(desc, room, payload_of(p)));
            }
            r
        }
    }

    /// Sets aside `len` bytes, not aligned and of unspecified content.
    pub fn alloc_bytes(&mut self, len: usize) -> (slot: Slot)
        requires
            old(self).wf(),
            old(self)@.admits_copy(len as int, 1),
        ensures
            final(self).wf(),
            slot.len == len,
            final(self)@.holds(slot),
            exists|room: int|
                final(self)@ == #[trigger] old(self)@.bump_copy(len as int, 1, room) && slot == old(
                    self,
                )@.copy_slot(len as int, 1, room),
    {
        proof {
            crate::layout::lemma_one_is_align();
        }
        self.alloc_copy_inner(len, 1)
    }
}

/// What an initialiser's result holds for the arena: the bytes of the value,
/// or nothing.
pub open spec fn payload_of<E>(p: Result<Vec<u8>, E>) -> Option<Seq<u8>> {
    match p {
        Ok(value) => Some(value@),
        Err(_) => None,
    }
}

/// What an allocation returns: the slot if the initialiser succeeded, else
/// the initialiser's error.
pub open spec fn slot_of<E>(p: Result<Vec<u8>, E>, slot: Slot) -> Result<Slot, E> {
    match p {
        Ok(_) => Ok(slot),
        Err(e) => Err(e),
    }
}

/// Whether a chunk of capacity `cap` may be replaced by one that holds
/// `need` bytes.
fn replaceable(need: usize, cap: usize) -> (ok: bool)
    ensures
        ok == (2 * (need + 1) <= MAX_CHUNK && 2 * (cap + 1) <= MAX_CHUNK),
{
    need < MAX_CHUNK / 2 && cap < MAX_CHUNK / 2
}

/// Where a slot's chunk stands in the arena.
enum Place {
    Active,
    Retired(usize),
    Nowhere,
}

/// The growth policy on one active chunk and the list of retired chunks.
fn grow_chunk(
    head: &mut Chunk,
    chunks: &mut Vec<Chunk>,
    used_cap: usize,
    n_bytes: usize,
    room: usize,
) -> (replaced: bool)
    requires
        old(head)@.wf(),
        old(head)@.ord <= old(chunks)@.len(),
        old(head)@.capacity() < used_cap + n_bytes <= room <= MAX_CHUNK || (2 * (n_bytes + 1)
            <= MAX_CHUNK && 2 * (old(head)@.capacity() + 1) <= MAX_CHUNK),
    ensures
        replaced == !(old(head)@.capacity() < used_cap + n_bytes <= room <= MAX_CHUNK),
        !replaced ==> final(chunks)@ == old(chunks)@ && final(head)@ == (ChunkView {
            bytes: old(head)@.bytes + crate::model::zeros((room - old(head)@.capacity()) as nat),
            ..old(head)@
        }),
        replaced ==> {
            let most = if n_bytes > old(head)@.capacity() {
                n_bytes as int
            } else {
                old(head)@.capacity()
            };
            let size = crate::layout::spec_next_power_of_two((most + 1) as nat) as int;
            if old(head)@.fill != 0 {
                &&& final(chunks)@ == old(chunks)@.push(*old(head))
                &&& final(head)@ == ChunkView::fresh(size, old(head)@.is_copy, old(head)@.ord + 1)
            } else {
                &&& final(chunks)@ == old(chunks)@
                &&& final(head)@ == ChunkView::fresh(size, old(head)@.is_copy, old(head)@.ord)
            }
        },
{
    let cap = head.capacity();
    let in_place = match used_cap.checked_add(n_bytes) {
        Some(total) => cap < total && total <= room && room <= MAX_CHUNK,
        None => false,
    };
    if in_place {
        head.extend(room);
        false
    } else {
        let most = if n_bytes > cap {
            n_bytes
        } else {
            cap
        };
        proof {
            crate::layout::lemma_next_power_of_two((most + 1) as nat);
        }
        let mut chunk = Chunk::new(next_power_of_two(most + 1), head.is_copy());
        if head.fill() != 0 {
            let ord = head.ord();
            core::mem::swap(head, &mut chunk);
            chunks.push(chunk);
            assert(chunks.len() == chunks@.len());
            head.set_ord(ord + 1);
        } else {
            chunk.set_ord(head.ord());
            core::mem::swap(head, &mut chunk);
        }
        true
    }
}

} // verus!
