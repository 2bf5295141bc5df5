//! The heap itself: a slot array with its free list, mark bitmap and root set.

use crate::bitmap::Bitmap;
use crate::lemmas::{lemma_block_index, lemma_tiles_bounds};
use crate::model::{
    addr_or_zero, empty_heap, has_block, limit_of, next_free, round_up_even, tiles, Block,
    BlockKind, HeapView,
};
use vstd::prelude::*;

pub use self::collect::AllocError;
pub use self::iter::MemoryIntoIterator;
pub use crate::model::OBJECT_HEADER_SLOTS;

pub mod access;
pub mod allocate;
pub mod collect;
pub mod iter;
pub mod mark;
pub mod sweep;
pub mod walk;

verus! {

/// Counters kept by the heap for diagnostics. Each counter stops at the
/// largest value of its type.
#[derive(Clone, Copy, Debug, PartialEq, Eq)]
pub struct GcStats {
    /// Collection cycles run so far.
    pub cycles: usize,
    /// Allocation requests made so far.
    pub allocations: usize,
    /// Slots found live by the last sweep.
    pub last_cycle_live_slots: usize,
    /// Slots found free by the last sweep.
    pub last_cycle_free_slots: usize,
    /// Duration of the last cycle, in milliseconds.
    pub last_cycle_duration_ms: u128,
    /// Duration of all cycles together, in milliseconds.
    pub lifetime_duration_ms: u128,
}

/// Which diagnostics the heap's user has switched on.
#[derive(Clone, Copy, Debug, PartialEq, Eq)]
pub struct ShowFlags {
    /// A summary after every collection.
    pub gc: bool,
    /// Every allocation.
    pub allocates: bool,
    /// The heap map after every collection.
    pub heap_map: bool,
    /// The free list after every collection.
    pub free_list: bool,
}

/// A fixed-capacity heap of machine words.
///
/// Slot 0 holds the capacity. From address 1 on the array is a row of
/// blocks, each with its size, header included, in its first slot. A free
/// block holds the address of the next free block in its second slot; an
/// object holds its payload behind the header.
pub struct Memory {
    /// Address of the first block of the free list, or 0.
    head: usize,
    /// The slot array.
    mem: Vec<usize>,
    /// One mark bit per slot address; all clear between collections.
    mark_bits: Bitmap,
    /// The root set.
    roots: Vec<usize>,
    gc_count: usize,
    allocates: usize,
    last_gc_ms: u128,
    total_gc_ms: u128,
    lastgc_live_mem: usize,
    lastgc_free_mem: usize,
    show_gc: bool,
    show_allocates: bool,
    show_heap_map: bool,
    show_free_list: bool,
    /// The blocks that the slot array holds, in address order. The array
    /// alone does not tell an object from a block that has left the free
    /// list; this does.
    blocks: Ghost<Seq<Block>>,
}

/// `v` is 0 or the address of an object.
pub(crate) closed spec fn ref_ok(blocks: Seq<Block>, v: usize) -> bool {
    v == 0 || has_block(blocks, v as int, BlockKind::Object)
}

/// The header slot of every block holds the block's size.
#[verifier::opaque]
pub(crate) closed spec fn headers_ok(blocks: Seq<Block>, mem: Seq<usize>) -> bool {
    forall|i: int|
        0 <= i < blocks.len() ==> 0 <= (#[trigger] blocks[i]).addr < mem.len()
            && mem[blocks[i].addr] == blocks[i].size
}

/// Address of the first free block at or after index `from`, or 0.
pub(crate) closed spec fn next_free_addr(blocks: Seq<Block>, from: int) -> int {
    addr_or_zero(blocks, next_free(blocks, from))
}

/// `head` and the link slots chain the free blocks in address order.
#[verifier::opaque]
pub(crate) closed spec fn links_ok(blocks: Seq<Block>, mem: Seq<usize>, head: usize) -> bool {
    &&& head == next_free_addr(blocks, 0)
    &&& forall|i: int|
        0 <= i < blocks.len() && (#[trigger] blocks[i]).kind == BlockKind::Free ==> mem[blocks[i].addr
            + 1] == next_free_addr(blocks, i + 1)
}

/// Every payload slot of every object holds 0 or the address of an object.
#[verifier::opaque]
pub(crate) closed spec fn refs_ok(blocks: Seq<Block>, mem: Seq<usize>) -> bool {
    forall|i: int, p: int|
        0 <= i < blocks.len() && (#[trigger] blocks[i]).kind == BlockKind::Object && blocks[i].addr
            < p < blocks[i].addr + blocks[i].size ==> ref_ok(blocks, #[trigger] mem[p])
}

/// Every root is 0 or the address of an object.
#[verifier::opaque]
pub(crate) closed spec fn roots_ok(blocks: Seq<Block>, roots: Seq<usize>) -> bool {
    forall|r: int| 0 <= r < roots.len() ==> ref_ok(blocks, #[trigger] roots[r])
}

/// The payloads of the objects among `blocks`, read from `mem`.
pub(crate) closed spec fn payloads_of(blocks: Seq<Block>, mem: Seq<usize>) -> Map<int, Seq<usize>> {
    Map::new(
        |a: int| has_block(blocks, a, BlockKind::Object),
        |a: int| mem.subrange(a + 1, a + mem[a] as int),
    )
}

/// The header of block `i` is inside the array and holds the block's size.
proof fn lemma_header(blocks: Seq<Block>, mem: Seq<usize>, i: int)
    requires
        headers_ok(blocks, mem),
        0 <= i < blocks.len(),
    ensures
        0 <= blocks[i].addr < mem.len(),
        mem[blocks[i].addr] == blocks[i].size,
{
    reveal(headers_ok);
}

/// The link slot of free block `i` holds the address of the next free block.
proof fn lemma_link(blocks: Seq<Block>, mem: Seq<usize>, head: usize, i: int)
    requires
        links_ok(blocks, mem, head),
        0 <= i < blocks.len(),
        blocks[i].kind == BlockKind::Free,
    ensures
        mem[blocks[i].addr + 1] == next_free_addr(blocks, i + 1),
        head == next_free_addr(blocks, 0),
{
    reveal(links_ok);
}

/// The blocks, slots and roots of a heap in its invariant make a valid state.
proof fn lemma_view_wf(blocks: Seq<Block>, mem: Seq<usize>, roots: Seq<usize>)
    requires
        mem.len() >= 3,
        tiles(blocks, 1, limit_of(mem.len() as int)),
        headers_ok(blocks, mem),
        refs_ok(blocks, mem),
        roots_ok(blocks, roots),
    ensures
        (HeapView {
            capacity: mem.len() as int,
            blocks,
            payloads: payloads_of(blocks, mem),
            roots,
        }).wf(),
{
    reveal(headers_ok);
    reveal(refs_ok);
    reveal(roots_ok);
    let h = HeapView {
        capacity: mem.len() as int,
        blocks,
        payloads: payloads_of(blocks, mem),
        roots,
    };
    let to = limit_of(mem.len() as int);
    assert forall|i: int|
        0 <= i < blocks.len() && (#[trigger] blocks[i]).kind == BlockKind::Object implies h.payloads[blocks[i].addr].len()
        == blocks[i].size - 1 by {
        lemma_tiles_bounds(blocks, 1, to, i);
        assert(has_block(blocks, blocks[i].addr, BlockKind::Object));
    }
    assert forall|a: int, j: int|
        h.is_object(a) && 0 <= j < h.payloads[a].len() implies h.is_ref(
        #[trigger] h.payloads[a][j],
    ) by {
        let i = lemma_block_index(blocks, a, BlockKind::Object);
        lemma_tiles_bounds(blocks, 1, to, i);
        assert(ref_ok(blocks, mem[a + 1 + j]));
    }
    assert forall|r: int| 0 <= r < roots.len() implies h.is_ref(#[trigger] roots[r]) by {
        assert(ref_ok(blocks, roots[r]));
    }
}

/// A write to what is not the header of a block leaves the headers as they
/// were.
proof fn lemma_headers_kept(out: Seq<Block>, mem: Seq<usize>, w: int, v: usize)
    requires
        headers_ok(out, mem),
        0 <= w < mem.len(),
        forall|j: int| 0 <= j < out.len() ==> (#[trigger] out[j]).addr != w,
    ensures
        headers_ok(out, mem.update(w, v)),
{
    reveal(headers_ok);
}

/// A write to what is not the link slot of a free block leaves the free
/// list as it was.
proof fn lemma_links_kept(
    out: Seq<Block>,
    mem: Seq<usize>,
    head: usize,
    to: int,
    w: int,
    v: usize,
)
    requires
        links_ok(out, mem, head),
        tiles(out, 1, to),
        to <= mem.len(),
        0 <= w < mem.len(),
        forall|j: int|
            0 <= j < out.len() && (#[trigger] out[j]).kind == BlockKind::Free ==> out[j].addr + 1
                != w,
    ensures
        links_ok(out, mem.update(w, v), head),
{
    reveal(links_ok);
    assert forall|i: int|
        0 <= i < out.len() && (#[trigger] out[i]).kind == BlockKind::Free implies mem.update(
        w,
        v,
    )[out[i].addr + 1] == next_free_addr(out, i + 1) by {
        lemma_tiles_bounds(out, 1, to, i);
    }
}

impl View for Memory {
    type V = HeapView;

    closed spec fn view(&self) -> HeapView {
        HeapView {
            capacity: self.mem@.len() as int,
            blocks: self.blocks@,
            payloads: payloads_of(self.blocks@, self.mem@),
            roots: self.roots@,
        }
    }
}

impl Memory {
    /// The slot array and the bitmap have their sizes, and the blocks tile
    /// the array with their sizes in their headers.
    pub(crate) closed spec fn layout_ok(&self) -> bool {
        &&& self.mem@.len() >= 3
        &&& self.mem@[0] == self.mem@.len()
        &&& self.mark_bits.wf()
        &&& self.mark_bits@.len() == self.mem@.len()
        &&& tiles(self.blocks@, 1, limit_of(self.mem@.len() as int))
        &&& headers_ok(self.blocks@, self.mem@)
    }

    /// No mark bit is set.
    pub(crate) closed spec fn marks_clear(&self) -> bool {
        forall|a: int| 0 <= a < self.mark_bits@.len() ==> !(#[trigger] self.mark_bits@[a])
    }

    /// The invariant of the heap but for the mark bits, of which any may
    /// be set.
    pub(crate) closed spec fn trace_ok(&self) -> bool {
        &&& self.layout_ok()
        &&& links_ok(self.blocks@, self.mem@, self.head)
        &&& refs_ok(self.blocks@, self.mem@)
        &&& roots_ok(self.blocks@, self.roots@)
    }

    /// The heap during marking: as between operations, but that mark bits
    /// are set, each at a reachable address.
    pub(crate) closed spec fn mark_ok(&self) -> bool {
        &&& self.trace_ok()
        &&& forall|a: int|
            0 <= a < self.mark_bits@.len() && #[trigger] self.mark_bits@[a] ==> self@.reachable(a)
    }

    /// `pre` and `post` differ at most in what a sweep writes.
    pub(crate) closed spec fn sweep_frame(pre: &Memory, post: &Memory) -> bool {
        *post == (Memory {
            head: post.head,
            mem: post.mem,
            mark_bits: post.mark_bits,
            lastgc_live_mem: post.lastgc_live_mem,
            lastgc_free_mem: post.lastgc_free_mem,
            blocks: post.blocks,
            ..*pre
        })
    }

    /// The mark bits are set at the reachable addresses and nowhere else.
    pub(crate) closed spec fn marks_are_reachable(&self) -> bool {
        forall|a: int|
            0 <= a < self.mark_bits@.len() ==> (#[trigger] self.mark_bits@[a] <==> self@.reachable(
                a,
            ))
    }

    /// The free list is in place: `head` and the link slots chain the free
    /// blocks in address order.
    pub(crate) closed spec fn free_list_ok(&self) -> bool {
        links_ok(self.blocks@, self.mem@, self.head)
    }

    /// The invariant of the heap between operations.
    pub closed spec fn wf(&self) -> bool {
        &&& self.layout_ok()
        &&& links_ok(self.blocks@, self.mem@, self.head)
        &&& refs_ok(self.blocks@, self.mem@)
        &&& roots_ok(self.blocks@, self.roots@)
        &&& self.marks_clear()
    }

    /// The state of a heap in its invariant is valid.
    pub proof fn lemma_wf_view(&self)
        requires
            self.wf(),
        ensures
            self@.wf(),
    {
        lemma_view_wf(self.blocks@, self.mem@, self.roots@);
    }

    /// The diagnostic counters.
    pub closed spec fn stats_view(&self) -> GcStats {
        GcStats {
            cycles: self.gc_count,
            allocations: self.allocates,
            last_cycle_live_slots: self.lastgc_live_mem,
            last_cycle_free_slots: self.lastgc_free_mem,
            last_cycle_duration_ms: self.last_gc_ms,
            lifetime_duration_ms: self.total_gc_ms,
        }
    }

    /// The diagnostics switched on.
    pub closed spec fn flags_view(&self) -> ShowFlags {
        ShowFlags {
            gc: self.show_gc,
            allocates: self.show_allocates,
            heap_map: self.show_heap_map,
            free_list: self.show_free_list,
        }
    }

    /// One past the last usable slot.
    fn limit(&self) -> (l: usize)
        requires
            self.mem@.len() >= 3,
        ensures
            l == limit_of(self.mem@.len() as int),
    {
        let capacity: usize = self.mem.len();
        if capacity % 2 == 0 {
            capacity - 1
        } else {
            capacity
        }
    }

    /// `pre` and `post` differ at most in the slot array.
    pub(crate) closed spec fn only_mem_differs(pre: &Memory, post: &Memory) -> bool {
        *post == (Memory { mem: post.mem, ..*pre })
    }

    /// `pre` and `post` differ at most in the mark bitmap.
    pub(crate) closed spec fn only_marks_differ(pre: &Memory, post: &Memory) -> bool {
        *post == (Memory { mark_bits: post.mark_bits, ..*pre })
    }

    /// `unrounded_size` rounded up to the nearest even number.
    fn rounded_size(unrounded_size: usize) -> (r: usize)
        requires
            unrounded_size < usize::MAX,
        ensures
            r == round_up_even(unrounded_size as int),
    {
        if unrounded_size % 2 == 0 {
            unrounded_size
        } else {
            unrounded_size + 1
        }
    }

    /// The header of the block at `obj`.
    fn get_size(&self, obj: usize) -> (r: usize)
        requires
            obj < self.mem@.len(),
        ensures
            r == self.mem@[obj as int],
    {
        self.mem[obj]
    }

    /// Writes the header of the block at `obj`.
    fn set_size(&mut self, obj: usize, size: usize)
        requires
            obj < old(self).mem@.len(),
        ensures
            final(self).mem@ == old(self).mem@.update(obj as int, size),
            Self::only_mem_differs(old(self), final(self)),
    {
        self.mem[obj] = size;
    }

    /// The address just past the block at `obj`.
    fn next_object_in_heap(&self, obj: usize) -> (r: usize)
        requires
            obj < self.mem@.len(),
            obj + self.mem@[obj as int] <= usize::MAX,
        ensures
            r == obj + self.mem@[obj as int],
    {
        obj + self.get_size(obj)
    }

    /// The link slot of the free block at `obj`.
    fn get_fl_next(&self, obj: usize) -> (r: usize)
        requires
            obj + 1 < self.mem@.len(),
        ensures
            r == self.mem@[obj + 1],
    {
        proof {
            vstd::std_specs::vec::axiom_spec_len(&self.mem);
        }
        self.mem[obj + 1]
    }

    /// Writes the link slot of the free block at `obj`.
    fn set_fl_next(&mut self, obj: usize, next: usize)
        requires
            obj + 1 < old(self).mem@.len(),
        ensures
            final(self).mem@ == old(self).mem@.update(obj + 1, next),
            Self::only_mem_differs(old(self), final(self)),
    {
        proof {
            vstd::std_specs::vec::axiom_spec_len(&self.mem);
        }
        self.mem[obj + 1] = next;
    }

    /// Sets the mark bit of address `obj`.
    fn mark_object(&mut self, obj: usize)
        requires
            old(self).mark_bits.wf(),
            obj < old(self).mark_bits@.len(),
        ensures
            final(self).mark_bits.wf(),
            final(self).mark_bits@ == old(self).mark_bits@.update(obj as int, true),
            Self::only_marks_differ(old(self), final(self)),
    {
        self.mark_bits.set(obj);
    }

    /// Clears the mark bit of address `obj`.
    fn unmark_object(&mut self, obj: usize)
        requires
            old(self).mark_bits.wf(),
            obj < old(self).mark_bits@.len(),
        ensures
            final(self).mark_bits.wf(),
            final(self).mark_bits@ == old(self).mark_bits@.update(obj as int, false),
            Self::only_marks_differ(old(self), final(self)),
    {
        self.mark_bits.clear(obj);
    }

    /// Whether the mark bit of address `obj` is set.
    fn is_marked(&self, obj: usize) -> (r: bool)
        requires
            self.mark_bits.wf(),
            obj < self.mark_bits@.len(),
        ensures
            r == self.mark_bits@[obj as int],
    {
        self.mark_bits.get(obj)
    }

    /// A slot array of `capacity` slots that all hold 0.
    fn im(capacity: usize) -> (mem: Vec<usize>)
        ensures
            mem@.len() == capacity,
            forall|i: int| 0 <= i < capacity ==> mem@[i] == 0,
    {
        let mut mem: Vec<usize> = Vec::new();
        while mem.len() < capacity
            invariant
                mem@.len() <= capacity,
                forall|i: int| 0 <= i < mem@.len() ==> mem@[i] == 0,
            decreases capacity - mem@.len(),
        {
            mem.push(0);
        }
        mem
    }

    /// A heap of `capacity` slots: slot 0 holds the capacity, and one free
    /// block spans the rest, up to the last even number of slots.
    pub fn initialze_memory(capacity: usize) -> (m: Memory)
        requires
            capacity >= 3,
        ensures
            m.wf(),
            m@ == empty_heap(capacity as int),
            m.stats_view() == (GcStats {
                cycles: 0,
                allocations: 0,
                last_cycle_live_slots: 0,
                last_cycle_free_slots: 0,
                last_cycle_duration_ms: 0,
                lifetime_duration_ms: 0,
            }),
            m.flags_view() == (ShowFlags {
                gc: false,
                allocates: false,
                heap_map: false,
                free_list: false,
            }),
            m.walk_from(1) == m@.limit(),
            m@.free_list() == seq![Block {
                addr: 1,
                size: limit_of(capacity as int) - 1,
                kind: BlockKind::Free,
            }],
            m@.live_blocks().len() == 0,
    {
        let mut mem: Vec<usize> = Self::im(capacity);
        let limit: usize = if capacity % 2 == 0 {
            capacity - 1
        } else {
            capacity
        };
        mem[0] = capacity;
        mem[1] = limit - 1;
        mem[2] = 0;
        let ghost blocks = seq![Block { addr: 1, size: limit - 1, kind: BlockKind::Free }];
        let m = Memory {
            head: 1,
            mem,
            mark_bits: Bitmap::new(capacity),
            roots: Vec::new(),
            gc_count: 0,
            allocates: 0,
            last_gc_ms: 0,
            total_gc_ms: 0,
            lastgc_live_mem: 0,
            lastgc_free_mem: 0,
            show_gc: false,
            show_allocates: false,
            show_heap_map: false,
            show_free_list: false,
            blocks: Ghost(blocks),
        };
        proof {
            reveal(headers_ok);
            reveal(links_ok);
            reveal(refs_ok);
            reveal(roots_ok);
            assert(blocks[0].kind == BlockKind::Free);
            assert(next_free(blocks, 0) == 0);
            assert(next_free(blocks, 1) == 1);
            assert(m@.payloads =~= Map::empty());
            assert(m@.roots =~= Seq::empty());
            m.lemma_walk_ends_at_limit();
            assert(m@.free_list() =~= blocks && m@.live_blocks().len() == 0) by {
                reveal_with_fuel(crate::model::select_from, 3);
            }
        }
        m
    }
}

} // verus!
