//! The arena as a mathematical value, and its operations as functions on
//! that value. The executable arena is specified against these.

use crate::layout::{spec_bitpack, spec_next_power_of_two, spec_round_up, HEADER, MAX_CHUNK};
use crate::tydesc::TyDesc;
use vstd::bytes::{spec_u64_from_le_bytes, spec_u64_to_le_bytes};
use vstd::prelude::*;

verus! {

/// Most descriptors one arena can tell apart: twice a descriptor's index
/// must fit in a header word.
pub const MAX_TYDESCS: usize = usize::MAX / 2 + 1;

/// `n` zero bytes.
pub open spec fn zeros(n: nat) -> Seq<u8> {
    Seq::new(n, |i: int| 0u8)
}

/// `bytes` with `src` written over it from offset `at`.
pub open spec fn splice(bytes: Seq<u8>, at: int, src: Seq<u8>) -> Seq<u8> {
    Seq::new(
        bytes.len(),
        |i: int|
            if at <= i < at + src.len() {
                src[i - at]
            } else {
                bytes[i]
            },
    )
}

/// The header word stored in the eight bytes from offset `at`.
pub open spec fn word_at(bytes: Seq<u8>, at: int) -> u64 {
    spec_u64_from_le_bytes(bytes.subrange(at, at + 8))
}

/// `bytes` with header word `w` stored from offset `at`.
pub open spec fn put_word(bytes: Seq<u8>, at: int, w: u64) -> Seq<u8> {
    splice(bytes, at, spec_u64_to_le_bytes(w))
}

/// The place of one allocation: the pool and chunk it lies in, and its byte
/// range within that chunk. For a record with a destructor `header` is the
/// offset of its header; otherwise it equals `start`.
#[derive(Clone, Copy, Debug, PartialEq, Eq, Structural)]
pub struct Slot {
    pub copy: bool,
    pub chunk: usize,
    pub header: usize,
    pub start: usize,
    pub len: usize,
}

/// One record of a chunk that stores values with destructors.
pub struct Record {
    /// Address of the descriptor: twice its index in the arena's table.
    pub ty: usize,
    /// The descriptor itself.
    pub desc: TyDesc,
    /// Offset of the header.
    pub header: int,
    /// Offset of the payload.
    pub start: int,
    /// Whether the payload has been initialised.
    pub done: bool,
}

impl Record {
    /// Offset at which the next header would begin.
    pub open spec fn end(self) -> int {
        spec_round_up(self.start + self.desc.size, HEADER as int)
    }

    /// The header word that stands for this record.
    pub open spec fn word(self) -> u64 {
        spec_bitpack(self.ty, self.done) as u64
    }

    /// The header is aligned, the payload follows it at the first offset that
    /// suits the type, and the type has a destructor.
    pub open spec fn laid_out(self) -> bool {
        &&& self.desc.wf()
        &&& self.desc.drop_glue is Some
        &&& self.ty % 2 == 0
        &&& 0 <= self.header
        &&& self.header % 8 == 0
        &&& self.start == spec_round_up(self.header + 8, self.desc.align as int)
    }
}

/// One value that is due for destruction: the destructor's number and the
/// bytes of the value.
pub struct DropView {
    pub drop_glue: usize,
    pub payload: Seq<u8>,
}

/// A chunk as a value.
pub struct ChunkView {
    /// How many chunks of the same pool were retired before this one.
    pub ord: int,
    /// Whether the chunk belongs to the pool of values without destructors.
    pub is_copy: bool,
    /// Offset of the first unused byte.
    pub fill: int,
    /// The whole buffer; its length is the chunk's capacity.
    pub bytes: Seq<u8>,
    /// The records written so far, oldest first. Empty in the copy pool.
    pub records: Seq<Record>,
}

impl ChunkView {
    /// The number of bytes the chunk can hold.
    pub open spec fn capacity(self) -> int {
        self.bytes.len() as int
    }

    /// A fresh chunk: `capacity` zero bytes, nothing used.
    pub open spec fn fresh(capacity: int, is_copy: bool, ord: int) -> ChunkView {
        ChunkView { ord, is_copy, fill: 0, bytes: zeros(capacity as nat), records: Seq::empty() }
    }

    /// Record `i` is laid out for its type, begins where the one before it
    /// ends (the first at offset 0), and its header in the buffer holds its
    /// word.
    pub open spec fn record_ok(self, i: int) -> bool {
        &&& self.records[i].laid_out()
        &&& word_at(self.bytes, self.records[i].header) == self.records[i].word()
        &&& self.records[i].header == if i == 0 {
            0
        } else {
            self.records[i - 1].end()
        }
    }

    /// The records cover the used bytes without gap or overlap, and each is
    /// as `record_ok` says.
    pub open spec fn tiled(self) -> bool {
        let n = self.records.len();
        &&& n == 0 ==> self.fill == 0
        &&& n > 0 ==> self.records[n - 1].end() == self.fill
        &&& forall|i: int| 0 <= i < n ==> #[trigger] self.record_ok(i)
    }

    /// The used bytes lie within the buffer, the buffer within `MAX_CHUNK`;
    /// a chunk of the copy pool has no records, any other is tiled by its
    /// records.
    pub open spec fn wf(self) -> bool {
        &&& 0 <= self.ord
        &&& 0 <= self.fill <= self.bytes.len() <= MAX_CHUNK
        &&& if self.is_copy {
            self.records.len() == 0
        } else {
            self.tiled()
        }
    }

    /// Every record's descriptor stands in `tydescs` at the place its
    /// address names.
    pub open spec fn typed_by(self, tydescs: Seq<TyDesc>) -> bool {
        forall|i: int|
            0 <= i < self.records.len() ==> {
                let r = #[trigger] self.records[i];
                r.ty / 2 < tydescs.len() && tydescs[(r.ty / 2) as int] == r.desc
            }
    }

    /// What record `r` of this chunk hands to its destructor.
    pub open spec fn drop_of(self, r: Record) -> DropView {
        DropView {
            drop_glue: r.desc.drop_glue.unwrap(),
            payload: self.bytes.subrange(r.start, r.start + r.desc.size),
        }
    }

    /// The initialised values among the first `k` records, oldest first.
    pub open spec fn drops_upto(self, k: int) -> Seq<DropView>
        decreases k,
    {
        if k <= 0 {
            Seq::empty()
        } else if self.records[k - 1].done {
            self.drops_upto(k - 1).push(self.drop_of(self.records[k - 1]))
        } else {
            self.drops_upto(k - 1)
        }
    }

    /// The initialised values of the chunk, oldest first.
    pub open spec fn drops(self) -> Seq<DropView> {
        self.drops_upto(self.records.len() as int)
    }

    /// Whether `slot` names an allocation of this chunk: in the copy pool a
    /// range of used bytes, otherwise the payload of one of the records.
    pub open spec fn has(self, slot: Slot) -> bool {
        if self.is_copy {
            slot.header == slot.start && slot.start + slot.len <= self.fill
        } else {
            exists|k: int| 0 <= k < self.records.len() && self.record_is(k, slot)
        }
    }

    /// The chunk after `data` has been written over the bytes of `slot`.
    pub open spec fn written(self, slot: Slot, data: Seq<u8>) -> ChunkView {
        ChunkView { bytes: splice(self.bytes, slot.start as int, data), ..self }
    }

    /// The index of the record that `slot` names.
    pub open spec fn index_of(self, slot: Slot) -> int {
        choose|k: int| 0 <= k < self.records.len() && self.record_is(k, slot)
    }

    /// The chunk after the record of `slot` has received `payload` and its
    /// header has been marked as initialised.
    pub open spec fn committed(self, slot: Slot, payload: Seq<u8>) -> ChunkView {
        let k = self.index_of(slot);
        let r = Record { done: true, ..self.records[k] };
        ChunkView {
            bytes: put_word(splice(self.bytes, slot.start as int, payload), r.header, r.word()),
            records: self.records.update(k, r),
            ..self
        }
    }

    /// The chunk with nothing in use.
    pub open spec fn emptied(self) -> ChunkView {
        ChunkView { ord: 0, fill: 0, records: Seq::empty(), ..self }
    }

    /// Whether record `k` is the one `slot` names.
    pub open spec fn record_is(self, k: int, slot: Slot) -> bool {
        &&& self.records[k].header == slot.header
        &&& self.records[k].start == slot.start
        &&& self.records[k].desc.size == slot.len
    }
}

/// An arena as a value.
pub struct ArenaView {
    /// The descriptors met so far; a descriptor's address is twice its index.
    pub tydescs: Seq<TyDesc>,
    /// The active chunk for values with destructors.
    pub head: ChunkView,
    /// The active chunk for values without.
    pub copy_head: ChunkView,
    /// The retired chunks, in the order in which they were retired.
    pub chunks: Seq<ChunkView>,
}

impl ArenaView {
    /// The active chunk of a pool.
    pub open spec fn pool(self, copy: bool) -> ChunkView {
        if copy {
            self.copy_head
        } else {
            self.head
        }
    }

    /// The arena with `c` as the active chunk of a pool.
    pub open spec fn with_pool(self, copy: bool, c: ChunkView) -> ArenaView {
        if copy {
            ArenaView { copy_head: c, ..self }
        } else {
            ArenaView { head: c, ..self }
        }
    }

    /// The table holds valid descriptors of types with destructors, each once.
    pub open spec fn tydescs_wf(self) -> bool {
        &&& self.tydescs.len() <= MAX_TYDESCS
        &&& forall|i: int|
            0 <= i < self.tydescs.len() ==> (#[trigger] self.tydescs[i]).wf()
                && self.tydescs[i].drop_glue is Some
        &&& forall|i: int, j: int|
            0 <= i < self.tydescs.len() && 0 <= j < self.tydescs.len() && self.tydescs[i]
                == self.tydescs[j] ==> i == j
    }

    /// The table and every chunk are well formed, each active chunk belongs
    /// to its pool, and within a pool the chunks are numbered in the order of
    /// their retirement, the active one last.
    pub open spec fn wf(self) -> bool {
        &&& self.tydescs_wf()
        &&& self.head.wf() && !self.head.is_copy && self.head.typed_by(self.tydescs)
        &&& self.copy_head.wf() && self.copy_head.is_copy
        &&& self.head.ord <= self.chunks.len()
        &&& self.copy_head.ord <= self.chunks.len()
        &&& forall|i: int|
            0 <= i < self.chunks.len() ==> {
                let c = #[trigger] self.chunks[i];
                c.wf() && c.typed_by(self.tydescs) && c.ord < self.pool(c.is_copy).ord
            }
        &&& forall|i: int, j: int|
            0 <= i < j < self.chunks.len() && self.chunks[i].is_copy == self.chunks[j].is_copy
                ==> self.chunks[i].ord < self.chunks[j].ord
    }

    /// A new arena: two fresh chunks of `initial_size` bytes and nothing else.
    pub open spec fn init(initial_size: int) -> ArenaView {
        ArenaView {
            tydescs: Seq::empty(),
            head: ChunkView::fresh(initial_size, false, 0),
            copy_head: ChunkView::fresh(initial_size, true, 0),
            chunks: Seq::empty(),
        }
    }

    // ----- descriptors -----

    /// Whether `desc` stands in the table.
    pub open spec fn knows(self, desc: TyDesc) -> bool {
        exists|i: int| 0 <= i < self.tydescs.len() && self.tydescs[i] == desc
    }

    /// The index of `desc` in the table, or the table's length if it is new.
    pub open spec fn index_of(self, desc: TyDesc) -> int {
        if self.knows(desc) {
            choose|i: int| 0 <= i < self.tydescs.len() && self.tydescs[i] == desc
        } else {
            self.tydescs.len() as int
        }
    }

    /// The address that stands for `desc` in headers.
    pub open spec fn tydesc_ptr(self, desc: TyDesc) -> usize {
        (2 * self.index_of(desc)) as usize
    }

    /// The arena with `desc` in its table.
    pub open spec fn interned(self, desc: TyDesc) -> ArenaView {
        if self.knows(desc) {
            self
        } else {
            ArenaView { tydescs: self.tydescs.push(desc), ..self }
        }
    }

    // ----- growth -----

    /// Whether a buffer with room for `room` bytes lets the active chunk of a
    /// pool grow where it is, to hold `n_bytes` more than `used_cap`.
    pub open spec fn grows_in_place(self, copy: bool, used_cap: int, n_bytes: int, room: int)
        -> bool {
        self.pool(copy).capacity() < used_cap + n_bytes <= room <= MAX_CHUNK
    }

    /// The capacity of the chunk that replaces the active chunk of a pool when
    /// `n_bytes` are asked for: the least power of two above both the request
    /// and the present capacity.
    pub open spec fn grown_capacity(self, copy: bool, n_bytes: int) -> int {
        let most = if n_bytes > self.pool(copy).capacity() {
            n_bytes
        } else {
            self.pool(copy).capacity()
        };
        spec_next_power_of_two((most + 1) as nat) as int
    }

    /// Whether the replacement chunk stays within `MAX_CHUNK`.
    pub open spec fn can_replace(self, copy: bool, n_bytes: int) -> bool {
        &&& 0 <= n_bytes
        &&& 2 * (n_bytes + 1) <= MAX_CHUNK
        &&& 2 * (self.pool(copy).capacity() + 1) <= MAX_CHUNK
    }

    /// The arena after its growth policy has run on a pool: the active chunk
    /// is extended to `room` bytes where that is enough; otherwise it is
    /// replaced by a fresh, larger one and retired, unless it was unused.
    pub open spec fn grow(self, copy: bool, used_cap: int, n_bytes: int, room: int) -> ArenaView {
        let c = self.pool(copy);
        if self.grows_in_place(copy, used_cap, n_bytes, room) {
            self.with_pool(
                copy,
                ChunkView { bytes: c.bytes + zeros((room - c.capacity()) as nat), ..c },
            )
        } else if c.fill != 0 {
            ArenaView {
                chunks: self.chunks.push(c),
                ..self.with_pool(
                    copy,
                    ChunkView::fresh(self.grown_capacity(copy, n_bytes), copy, c.ord + 1),
                )
            }
        } else {
            self.with_pool(copy, ChunkView::fresh(self.grown_capacity(copy, n_bytes), copy, c.ord))
        }
    }

    /// Whether an allocation that would end at `end` in the active chunk of a
    /// pool, and for which the growth policy is asked for `need` bytes, lands
    /// in a replacement chunk.
    pub open spec fn moves(self, copy: bool, end: int, need: int, room: int) -> bool {
        let c = self.pool(copy);
        end > c.capacity() && !self.grows_in_place(copy, c.fill, need, room)
    }

    /// The arena once its pool has room for such an allocation.
    pub open spec fn with_room(self, copy: bool, end: int, need: int, room: int) -> ArenaView {
        let c = self.pool(copy);
        if end <= c.capacity() {
            self
        } else {
            self.grow(copy, c.fill, need, room)
        }
    }

    /// Whether such an allocation can be served: it fits, or the chunk may be
    /// replaced.
    pub open spec fn has_room(self, copy: bool, end: int, need: int) -> bool {
        let c = self.pool(copy);
        end <= c.capacity() || self.can_replace(copy, need)
    }

    // ----- the copy pool -----

    /// Where `n_bytes` aligned to `align` would end in the active copy chunk.
    pub open spec fn copy_end(self, n_bytes: int, align: int) -> int {
        spec_round_up(self.copy_head.fill, align) + n_bytes
    }

    /// The bytes that the copy pool needs for them, padding included.
    pub open spec fn copy_need(self, n_bytes: int, align: int) -> int {
        self.copy_end(n_bytes, align) - self.copy_head.fill
    }

    /// Whether the copy pool can serve `n_bytes` aligned to `align`.
    pub open spec fn admits_copy(self, n_bytes: int, align: int) -> bool {
        0 <= n_bytes && self.has_room(
            true,
            self.copy_end(n_bytes, align),
            self.copy_need(n_bytes, align),
        )
    }

    /// Whether the copy pool places them in a replacement chunk.
    pub open spec fn copy_moves(self, n_bytes: int, align: int, room: int) -> bool {
        self.moves(true, self.copy_end(n_bytes, align), self.copy_need(n_bytes, align), room)
    }

    /// The offset at which the copy pool places `n_bytes` aligned to `align`.
    pub open spec fn copy_start(self, n_bytes: int, align: int, room: int) -> int {
        if self.copy_moves(n_bytes, align, room) {
            0
        } else {
            spec_round_up(self.copy_head.fill, align)
        }
    }

    /// The arena after the copy pool has set `n_bytes` aside.
    pub open spec fn bump_copy(self, n_bytes: int, align: int, room: int) -> ArenaView {
        let a = self.with_room(
            true,
            self.copy_end(n_bytes, align),
            self.copy_need(n_bytes, align),
            room,
        );
        a.with_pool(
            true,
            ChunkView { fill: self.copy_start(n_bytes, align, room) + n_bytes, ..a.copy_head },
        )
    }

    /// The slot that `bump_copy` sets aside.
    pub open spec fn copy_slot(self, n_bytes: int, align: int, room: int) -> Slot {
        let start = self.copy_start(n_bytes, align, room) as usize;
        Slot {
            copy: true,
            chunk: self.bump_copy(n_bytes, align, room).copy_head.ord as usize,
            header: start,
            start,
            len: n_bytes as usize,
        }
    }

    // ----- the pool of values with destructors -----

    /// The record that would hold a value of type `desc` behind a header at
    /// offset `header`, not yet initialised.
    pub open spec fn record_at(self, desc: TyDesc, header: int) -> Record {
        Record {
            ty: self.tydesc_ptr(desc),
            desc,
            header,
            start: spec_round_up(header + 8, desc.align as int),
            done: false,
        }
    }

    /// Where a record of type `desc` would end in the active chunk.
    pub open spec fn record_end(self, desc: TyDesc) -> int {
        self.record_at(desc, self.head.fill).end()
    }

    /// The bytes that the growth policy is asked for on behalf of a record of
    /// type `desc`: enough for the record where the active chunk's used bytes
    /// end, and enough for it at the start of a fresh chunk.
    pub open spec fn record_need(self, desc: TyDesc) -> int {
        let here = self.record_end(desc) - self.head.fill;
        let afresh = self.record_at(desc, 0).end();
        if here > afresh {
            here
        } else {
            afresh
        }
    }

    /// Whether the arena can take a record of type `desc`.
    pub open spec fn admits_record(self, desc: TyDesc) -> bool {
        &&& desc.wf()
        &&& desc.drop_glue is Some
        &&& self.knows(desc) || self.tydescs.len() < MAX_TYDESCS
        &&& self.has_room(false, self.record_end(desc), self.record_need(desc))
    }

    /// Whether the record lands in a replacement chunk.
    pub open spec fn record_moves(self, desc: TyDesc, room: int) -> bool {
        self.moves(false, self.record_end(desc), self.record_need(desc), room)
    }

    /// The record that `reserve` adds.
    pub open spec fn reserved(self, desc: TyDesc, room: int) -> Record {
        if self.record_moves(desc, room) {
            self.record_at(desc, 0)
        } else {
            self.record_at(desc, self.head.fill)
        }
    }

    /// The arena after a record of type `desc` has been set aside: the
    /// descriptor is in the table, the header is written with the flag clear,
    /// and the used bytes reach past the payload.
    pub open spec fn reserve(self, desc: TyDesc, room: int) -> ArenaView {
        let r = self.reserved(desc, room);
        let a = self.interned(desc).with_room(
            false,
            self.record_end(desc),
            self.record_need(desc),
            room,
        );
        a.with_pool(
            false,
            ChunkView {
                fill: r.end(),
                bytes: put_word(a.head.bytes, r.header, r.word()),
                records: a.head.records.push(r),
                ..a.head
            },
        )
    }

    /// The slot of the record that `reserve` adds.
    pub open spec fn reserved_slot(self, desc: TyDesc, room: int) -> Slot {
        let r = self.reserved(desc, room);
        Slot {
            copy: false,
            chunk: self.reserve(desc, room).head.ord as usize,
            header: r.header as usize,
            start: r.start as usize,
            len: desc.size,
        }
    }

    // ----- slots -----

    /// Whether retired chunk `i` is the one that `slot` lies in.
    pub open spec fn retired_is(self, i: int, slot: Slot) -> bool {
        &&& 0 <= i < self.chunks.len()
        &&& self.chunks[i].is_copy == slot.copy
        &&& self.chunks[i].ord == slot.chunk
    }

    /// The chunk that `slot` lies in, if the arena has it.
    pub open spec fn chunk_of(self, slot: Slot) -> Option<ChunkView> {
        if self.pool(slot.copy).ord == slot.chunk {
            Some(self.pool(slot.copy))
        } else if exists|i: int| self.retired_is(i, slot) {
            Some(self.chunks[choose|i: int| self.retired_is(i, slot)])
        } else {
            None
        }
    }

    /// Whether `slot` names an allocation of this arena.
    pub open spec fn holds(self, slot: Slot) -> bool {
        match self.chunk_of(slot) {
            Some(c) => c.has(slot),
            None => false,
        }
    }

    /// The bytes that `slot` names.
    pub open spec fn contents(self, slot: Slot) -> Seq<u8> {
        self.chunk_of(slot).unwrap().bytes.subrange(
            slot.start as int,
            slot.start + slot.len,
        )
    }

    /// The arena with `c` in place of the chunk that `slot` lies in.
    pub open spec fn with_chunk_of(self, slot: Slot, c: ChunkView) -> ArenaView {
        if self.pool(slot.copy).ord == slot.chunk {
            self.with_pool(slot.copy, c)
        } else {
            ArenaView {
                chunks: self.chunks.update(choose|i: int| self.retired_is(i, slot), c),
                ..self
            }
        }
    }

    /// The arena after `data` has been written over the bytes of `slot`.
    pub open spec fn write(self, slot: Slot, data: Seq<u8>) -> ArenaView {
        self.with_chunk_of(slot, self.chunk_of(slot).unwrap().written(slot, data))
    }

    /// Whether `slot` names a record that is not yet initialised.
    pub open spec fn awaits(self, slot: Slot) -> bool {
        &&& !slot.copy
        &&& self.holds(slot)
        &&& !self.chunk_of(slot).unwrap().records[self.chunk_of(slot).unwrap().index_of(slot)].done
    }

    /// The arena after the record of `slot` has received `payload` and its
    /// header has been marked as initialised.
    pub open spec fn commit(self, slot: Slot, payload: Seq<u8>) -> ArenaView {
        self.with_chunk_of(slot, self.chunk_of(slot).unwrap().committed(slot, payload))
    }

    // ----- allocation with an initialiser -----

    /// The arena after an allocation in the copy pool whose initialiser gave
    /// `payload`, or failed.
    pub open spec fn alloc_copy(self, desc: TyDesc, room: int, payload: Option<Seq<u8>>)
        -> ArenaView {
        let a = self.bump_copy(desc.size as int, desc.align as int, room);
        match payload {
            Some(data) => a.write(self.copy_slot(desc.size as int, desc.align as int, room), data),
            None => a,
        }
    }

    /// The arena after an allocation in the pool of values with destructors
    /// whose initialiser gave `payload`, or failed: in that case the record
    /// stays as `reserve` left it.
    pub open spec fn alloc_noncopy(self, desc: TyDesc, room: int, payload: Option<Seq<u8>>)
        -> ArenaView {
        let a = self.reserve(desc, room);
        match payload {
            Some(data) => a.commit(self.reserved_slot(desc, room), data),
            None => a,
        }
    }

    /// Whether the arena can take a value of type `desc`.
    pub open spec fn admits(self, desc: TyDesc) -> bool {
        if desc.drop_glue is Some {
            self.admits_record(desc)
        } else {
            desc.wf() && self.admits_copy(desc.size as int, desc.align as int)
        }
    }

    /// The arena after an allocation of a value of type `desc`.
    pub open spec fn allocate(self, desc: TyDesc, room: int, payload: Option<Seq<u8>>)
        -> ArenaView {
        if desc.drop_glue is Some {
            self.alloc_noncopy(desc, room, payload)
        } else {
            self.alloc_copy(desc, room, payload)
        }
    }

    /// The slot of that allocation.
    pub open spec fn alloc_slot(self, desc: TyDesc, room: int) -> Slot {
        if desc.drop_glue is Some {
            self.reserved_slot(desc, room)
        } else {
            self.copy_slot(desc.size as int, desc.align as int, room)
        }
    }

    // ----- destruction -----

    /// The initialised values of the first `k` retired chunks.
    pub open spec fn retired_drops_upto(self, k: int) -> Seq<DropView>
        decreases k,
    {
        if k <= 0 {
            Seq::empty()
        } else {
            self.retired_drops_upto(k - 1) + self.chunks[k - 1].drops()
        }
    }

    /// Every value that is due for destruction, in the order of destruction:
    /// those of the active chunk, then those of the retired chunks in the
    /// order of their retirement; within a chunk, oldest first.
    pub open spec fn pending(self) -> Seq<DropView> {
        self.head.drops() + self.retired_drops_upto(self.chunks.len() as int)
    }

    /// The arena after `clear`: the two active buffers are kept and count as
    /// unused, the retired chunks are gone.
    pub open spec fn cleared(self) -> ArenaView {
        ArenaView {
            tydescs: self.tydescs,
            head: self.head.emptied(),
            copy_head: self.copy_head.emptied(),
            chunks: Seq::empty(),
        }
    }
}

} // verus!
