//! The mathematical model of the heap: blocks that tile the slot array, the
//! payloads of the objects among them, the root set, and what allocation and
//! collection do to these.

use vstd::prelude::*;

verus! {

/// Slots taken by the header of every block.
pub const OBJECT_HEADER_SLOTS: usize = 1;

/// What a block of the heap currently is.
pub enum BlockKind {
    /// Handed out by the allocator and not reclaimed since.
    Object,
    /// A node of the free list.
    Free,
    /// A free block that a first-fit scan passed over and dropped from the free
    /// list. It is neither usable nor allocated until the next sweep reclaims it.
    Abandoned,
}

/// A contiguous run of slots `[addr, addr + size)`, header included.
pub struct Block {
    pub addr: int,
    pub size: int,
    pub kind: BlockKind,
}

/// The abstract state of a heap.
pub struct HeapView {
    /// Number of slots of the underlying array, slot 0 included.
    pub capacity: int,
    /// Every block of the heap, in address order.
    pub blocks: Seq<Block>,
    /// The payload slots of each object, by object address.
    pub payloads: Map<int, Seq<usize>>,
    /// The root set, in insertion order.
    pub roots: Seq<usize>,
}

/// One past the last usable slot. Blocks have even sizes and start at address
/// 1, so an array of even capacity leaves its last slot unused.
pub open spec fn limit_of(capacity: int) -> int {
    if capacity % 2 == 0 {
        capacity - 1
    } else {
        capacity
    }
}

/// `n` rounded up to the nearest even number.
pub open spec fn round_up_even(n: int) -> int {
    n + n % 2
}

/// Size of the block that holds an object of `slots` payload slots.
pub open spec fn block_size_for(slots: int) -> int {
    round_up_even(slots + OBJECT_HEADER_SLOTS as int)
}

/// The blocks lie side by side and cover exactly `[from, to)`; each has an
/// even size of at least two slots.
pub open spec fn tiles(blocks: Seq<Block>, from: int, to: int) -> bool {
    &&& forall|i: int|
        0 <= i < blocks.len() ==> (#[trigger] blocks[i]).size >= 2 && blocks[i].size % 2 == 0
    &&& forall|i: int, j: int|
        0 <= i && j == i + 1 && j < blocks.len() ==> (#[trigger] blocks[i]).addr + blocks[i].size
            == (#[trigger] blocks[j]).addr
    &&& blocks.len() == 0 ==> from == to
    &&& blocks.len() > 0 ==> blocks[0].addr == from && blocks.last().addr + blocks.last().size
        == to
}

/// Some block of kind `kind` starts at address `a`.
pub open spec fn has_block(blocks: Seq<Block>, a: int, kind: BlockKind) -> bool {
    exists|i: int| 0 <= i < blocks.len() && (#[trigger] blocks[i]).addr == a && blocks[i].kind == kind
}

/// Some block starts at address `a`.
pub open spec fn is_block_start(blocks: Seq<Block>, a: int) -> bool {
    exists|i: int| 0 <= i < blocks.len() && (#[trigger] blocks[i]).addr == a
}

/// Some block starts at address `a` and has `size` slots.
pub open spec fn has_extent(blocks: Seq<Block>, a: int, size: int) -> bool {
    exists|i: int| 0 <= i < blocks.len() && (#[trigger] blocks[i]).addr == a && blocks[i].size == size
}

/// Some object starts at address `a` and has `size` slots.
pub open spec fn has_object(blocks: Seq<Block>, a: int, size: int) -> bool {
    exists|i: int|
        0 <= i < blocks.len() && (#[trigger] blocks[i]).addr == a && blocks[i].size == size
            && blocks[i].kind == BlockKind::Object
}

/// The index of the block that starts at address `a`.
pub open spec fn index_of(blocks: Seq<Block>, a: int) -> int {
    choose|i: int| 0 <= i < blocks.len() && (#[trigger] blocks[i]).addr == a
}

/// Index of the first free block at or after index `from`, or the number of
/// blocks if there is none.
pub open spec fn next_free(blocks: Seq<Block>, from: int) -> int
    decreases blocks.len() - from,
{
    if from < 0 || from >= blocks.len() {
        blocks.len() as int
    } else if blocks[from].kind == BlockKind::Free {
        from
    } else {
        next_free(blocks, from + 1)
    }
}

/// Address of block `i`, or 0 where `i` is not the index of a block.
pub open spec fn addr_or_zero(blocks: Seq<Block>, i: int) -> int {
    if 0 <= i < blocks.len() {
        blocks[i].addr
    } else {
        0
    }
}

/// The block is free and strictly larger than `need` slots.
pub open spec fn fits(b: Block, need: int) -> bool {
    b.kind == BlockKind::Free && b.size > need
}

/// Index of the first block at or after index `from` that fits `need` slots,
/// or the number of blocks if none does.
pub open spec fn first_fit(blocks: Seq<Block>, need: int, from: int) -> int
    decreases blocks.len() - from,
{
    if from < 0 || from >= blocks.len() {
        blocks.len() as int
    } else if fits(blocks[from], need) {
        from
    } else {
        first_fit(blocks, need, from + 1)
    }
}

/// The blocks after `need` slots were taken off the high end of free block
/// `i`: the free blocks before `i` are abandoned, block `i` shrinks, and the
/// new object follows it.
pub open spec fn carve(blocks: Seq<Block>, i: int, need: int) -> Seq<Block> {
    Seq::new(
        blocks.len() + 1,
        |j: int|
            if j < i {
                if blocks[j].kind == BlockKind::Free {
                    Block { kind: BlockKind::Abandoned, ..blocks[j] }
                } else {
                    blocks[j]
                }
            } else if j == i {
                Block { size: blocks[i].size - need, ..blocks[i] }
            } else if j == i + 1 {
                Block {
                    addr: blocks[i].addr + blocks[i].size - need,
                    size: need,
                    kind: BlockKind::Object,
                }
            } else {
                blocks[j - 1]
            },
    )
}

/// Address of the object that `carve` places in block `i`.
pub open spec fn carved_addr(blocks: Seq<Block>, i: int, need: int) -> int {
    blocks[i].addr + blocks[i].size - need
}

/// What the sweep does with one block, given the blocks it has already
/// produced: a live block stays an object; a dead one extends the preceding
/// free block if there is one, and else becomes a free block itself.
pub open spec fn sweep_step(out: Seq<Block>, b: Block, live: bool) -> Seq<Block> {
    if live {
        out.push(Block { kind: BlockKind::Object, ..b })
    } else if out.len() > 0 && out.last().kind == BlockKind::Free {
        out.update(out.len() - 1, Block { size: out.last().size + b.size, ..out.last() })
    } else {
        out.push(Block { kind: BlockKind::Free, ..b })
    }
}

/// The blocks after a sweep that keeps exactly the blocks whose address is in
/// `live`.
pub open spec fn swept(blocks: Seq<Block>, live: Set<int>) -> Seq<Block>
    decreases blocks.len(),
{
    if blocks.len() == 0 {
        Seq::empty()
    } else {
        sweep_step(
            swept(blocks.drop_last(), live),
            blocks.last(),
            live.contains(blocks.last().addr),
        )
    }
}

/// Every object of `out` is a block of `blocks` whose address is in `live`.
pub open spec fn objects_are_live(out: Seq<Block>, blocks: Seq<Block>, live: Set<int>) -> bool {
    forall|j: int|
        0 <= j < out.len() && (#[trigger] out[j]).kind == BlockKind::Object ==> live.contains(
            out[j].addr,
        ) && has_extent(blocks, out[j].addr, out[j].size)
}

/// Every block of `out` that is no object is free and starts where a block
/// of `blocks` started whose address is not in `live`.
pub open spec fn rest_is_free(out: Seq<Block>, blocks: Seq<Block>, live: Set<int>) -> bool {
    forall|j: int|
        0 <= j < out.len() && (#[trigger] out[j]).kind != BlockKind::Object ==> out[j].kind
            == BlockKind::Free && !live.contains(out[j].addr) && is_block_start(
            blocks,
            out[j].addr,
        )
}

/// Every block of `blocks` whose address is in `live` is an object of `out`.
pub open spec fn live_are_objects(out: Seq<Block>, blocks: Seq<Block>, live: Set<int>) -> bool {
    forall|i: int|
        0 <= i < blocks.len() && live.contains((#[trigger] blocks[i]).addr) ==> has_object(
            out,
            blocks[i].addr,
            blocks[i].size,
        )
}

/// How the blocks `out` after a sweep relate to the blocks `blocks` before
/// it: the objects are the live blocks, unchanged; every other block is free,
/// starts where a dead block started, and has no free neighbour.
pub open spec fn is_sweep_of(out: Seq<Block>, blocks: Seq<Block>, live: Set<int>) -> bool {
    &&& objects_are_live(out, blocks, live)
    &&& rest_is_free(out, blocks, live)
    &&& live_are_objects(out, blocks, live)
    &&& no_adjacent_free(out)
}

/// The blocks at index `from` and after that are free (`free` is true) or
/// not free (`free` is false), in address order.
pub open spec fn select_from(blocks: Seq<Block>, free: bool, from: int) -> Seq<Block>
    decreases blocks.len() - from,
{
    if from < 0 || from >= blocks.len() {
        Seq::empty()
    } else if (blocks[from].kind == BlockKind::Free) == free {
        seq![blocks[from]] + select_from(blocks, free, from + 1)
    } else {
        select_from(blocks, free, from + 1)
    }
}

/// Total size of the blocks that are free (`free` is true) or not free
/// (`free` is false).
pub open spec fn slots_of(blocks: Seq<Block>, free: bool) -> int
    decreases blocks.len(),
{
    if blocks.len() == 0 {
        0
    } else if (blocks.last().kind == BlockKind::Free) == free {
        slots_of(blocks.drop_last(), free) + blocks.last().size
    } else {
        slots_of(blocks.drop_last(), free)
    }
}

/// Slot `p` lies in a block of the free list.
pub open spec fn in_free_block(blocks: Seq<Block>, p: int) -> bool {
    exists|i: int|
        0 <= i < blocks.len() && (#[trigger] blocks[i]).kind == BlockKind::Free && blocks[i].addr
            <= p < blocks[i].addr + blocks[i].size
}

/// No two neighbouring blocks are both free.
pub open spec fn no_adjacent_free(blocks: Seq<Block>) -> bool {
    forall|i: int, j: int|
        0 <= i && j == i + 1 && j < blocks.len() ==> !((#[trigger] blocks[i]).kind
            == BlockKind::Free && (#[trigger] blocks[j]).kind == BlockKind::Free)
}

impl HeapView {
    /// One past the last usable slot.
    pub open spec fn limit(self) -> int {
        limit_of(self.capacity)
    }

    /// An allocated object starts at address `a`.
    pub open spec fn is_object(self, a: int) -> bool {
        has_block(self.blocks, a, BlockKind::Object)
    }

    /// `v` is what a traced slot may hold: 0 or the address of an object.
    pub open spec fn is_ref(self, v: usize) -> bool {
        v == 0 || self.is_object(v as int)
    }

    /// Size in slots, header included, of the block that starts at `a`.
    pub open spec fn size_at(self, a: int) -> int {
        self.blocks[index_of(self.blocks, a)].size
    }

    /// Number of slots behind the header of the block that starts at `a`. At
    /// address 0, where the capacity stands in place of a header, this is the
    /// number of slots behind slot 0.
    pub open spec fn element_count(self, a: int) -> int {
        if a == 0 {
            self.capacity - 1
        } else {
            self.size_at(a) - 1
        }
    }

    /// The validity of a heap state: the blocks tile `[1, limit)`, every
    /// object has its payload, and payload slots and roots hold only 0 or
    /// object addresses.
    pub open spec fn wf(self) -> bool {
        &&& self.capacity >= 3
        &&& tiles(self.blocks, 1, self.limit())
        &&& forall|a: int| self.payloads.dom().contains(a) <==> self.is_object(a)
        &&& forall|i: int|
            0 <= i < self.blocks.len() && (#[trigger] self.blocks[i]).kind == BlockKind::Object
                ==> self.payloads[self.blocks[i].addr].len() == self.blocks[i].size - 1
        &&& forall|a: int, j: int|
            self.is_object(a) && 0 <= j < self.payloads[a].len() ==> self.is_ref(
                #[trigger] self.payloads[a][j],
            )
        &&& forall|r: int| 0 <= r < self.roots.len() ==> self.is_ref(#[trigger] self.roots[r])
    }

    /// Some payload slot of object `a` holds the non-zero value `b`.
    pub open spec fn edge(self, a: int, b: int) -> bool {
        &&& self.is_object(a)
        &&& b != 0
        &&& exists|j: int| 0 <= j < self.payloads[a].len() && #[trigger] self.payloads[a][j] == b
    }

    /// `p` starts at a non-zero root and follows payload slots from there.
    pub open spec fn is_path(self, p: Seq<int>) -> bool {
        &&& p.len() > 0
        &&& p[0] != 0
        &&& exists|r: int| 0 <= r < self.roots.len() && #[trigger] self.roots[r] == p[0]
        &&& forall|k: int, l: int|
            0 <= k && l == k + 1 && l < p.len() ==> self.edge(#[trigger] p[k], #[trigger] p[l])
    }

    /// Address `a` can be reached from the root set through payload slots.
    pub open spec fn reachable(self, a: int) -> bool {
        exists|p: Seq<int>| #[trigger] self.is_path(p) && p.last() == a
    }

    /// `p` starts at the non-zero address `from`, follows payload slots
    /// from there, and meets no address of `avoid`.
    pub open spec fn is_trace(self, from: int, p: Seq<int>, avoid: Set<int>) -> bool {
        &&& p.len() > 0
        &&& p[0] == from
        &&& from != 0
        &&& forall|k: int| 0 <= k < p.len() ==> !avoid.contains(#[trigger] p[k])
        &&& forall|k: int, l: int|
            0 <= k && l == k + 1 && l < p.len() ==> self.edge(#[trigger] p[k], #[trigger] p[l])
    }

    /// Address `a` can be reached from the non-zero address `from` through
    /// payload slots, along addresses none of which is in `avoid`. The way
    /// may be of no step at all: `from` reaches itself unless it is in
    /// `avoid`.
    pub open spec fn reachable_avoiding(self, from: int, a: int, avoid: Set<int>) -> bool {
        exists|p: Seq<int>| #[trigger] self.is_trace(from, p, avoid) && p.last() == a
    }

    /// Address `a` can be reached from the non-zero address `from` through
    /// payload slots.
    pub open spec fn reachable_from(self, from: int, a: int) -> bool {
        self.reachable_avoiding(from, a, Set::empty())
    }

    /// The addresses that can be reached from the root set.
    pub open spec fn live_set(self) -> Set<int> {
        Set::new(|a: int| self.reachable(a))
    }

    /// The free list: the free blocks in address order.
    pub open spec fn free_list(self) -> Seq<Block> {
        select_from(self.blocks, true, 0)
    }

    /// The blocks that a walk of the heap reports as live objects: all that
    /// are not in the free list, in address order.
    pub open spec fn live_blocks(self) -> Seq<Block> {
        select_from(self.blocks, false, 0)
    }

    /// Total size of the blocks that are not in the free list.
    pub open spec fn live_slots(self) -> int {
        slots_of(self.blocks, false)
    }

    /// Total size of the blocks of the free list.
    pub open spec fn free_slots(self) -> int {
        slots_of(self.blocks, true)
    }

    /// Index of the block that a first-fit scan picks for an object of
    /// `slots` payload slots, or the number of blocks if none is large enough.
    pub open spec fn fit_index(self, slots: int) -> int {
        first_fit(self.blocks, block_size_for(slots), 0)
    }

    /// The free list holds a block strictly larger than an object of `slots`
    /// payload slots needs.
    pub open spec fn can_allocate(self, slots: int) -> bool {
        self.fit_index(slots) < self.blocks.len()
    }

    /// The address at which an object of `slots` payload slots is placed: the
    /// high end of the first block that fits.
    pub open spec fn allocated_addr(self, slots: int) -> int {
        let b = self.blocks[self.fit_index(slots)];
        b.addr + b.size - block_size_for(slots)
    }

    /// The heap after an object of `slots` payload slots was carved out of
    /// the first block that fits, zero-filled.
    pub open spec fn allocated(self, slots: int) -> HeapView {
        HeapView {
            blocks: carve(self.blocks, self.fit_index(slots), block_size_for(slots)),
            payloads: self.payloads.insert(
                self.allocated_addr(slots),
                Seq::new((block_size_for(slots) - 1) as nat, |j: int| 0usize),
            ),
            ..self
        }
    }

    /// The heap after a collection: the reachable objects stay where they
    /// are with their payloads, and all other blocks are merged into maximal
    /// free blocks.
    pub open spec fn collected(self) -> HeapView {
        HeapView {
            blocks: swept(self.blocks, self.live_set()),
            payloads: self.payloads.restrict(self.live_set()),
            ..self
        }
    }

    /// How slot `p` shows on a map of the heap: `x` if it lies in a block of
    /// the free list, `.` if not.
    pub open spec fn slot_mark(self, p: int) -> char {
        if in_free_block(self.blocks, p) {
            'x'
        } else {
            '.'
        }
    }

    /// The heap that serves a request for an object of `slots` payload
    /// slots: this one if it can, and else what a collection leaves of it.
    pub open spec fn served_from(self, slots: int) -> HeapView {
        if self.can_allocate(slots) {
            self
        } else {
            self.collected()
        }
    }

    /// The heap after payload slot `index` of object `a` was set to `value`.
    pub open spec fn with_slot(self, a: int, index: int, value: usize) -> HeapView {
        HeapView { payloads: self.payloads.insert(a, self.payloads[a].update(index, value)), ..self }
    }
}

/// Index of the first occurrence of `v` in `s` at or after index `from`, or
/// the length of `s` if there is none.
pub open spec fn first_index_of(s: Seq<usize>, v: usize, from: int) -> int
    decreases s.len() - from,
{
    if from < 0 || from >= s.len() {
        s.len() as int
    } else if s[from] == v {
        from
    } else {
        first_index_of(s, v, from + 1)
    }
}

/// `s` without the first occurrence of `v`; `s` itself if `v` does not occur.
pub open spec fn without_first(s: Seq<usize>, v: usize) -> Seq<usize> {
    if first_index_of(s, v, 0) < s.len() {
        s.remove(first_index_of(s, v, 0))
    } else {
        s
    }
}

/// A heap of `capacity` slots that holds one free block and no roots.
pub open spec fn empty_heap(capacity: int) -> HeapView {
    HeapView {
        capacity,
        blocks: seq![Block { addr: 1, size: limit_of(capacity) - 1, kind: BlockKind::Free }],
        payloads: Map::empty(),
        roots: Seq::empty(),
    }
}

} // verus!
