//! Reading and writing payload slots, the root set, and the diagnostics.

use super::{
    headers_ok, lemma_header, lemma_headers_kept, lemma_links_kept, links_ok, payloads_of, ref_ok,
    refs_ok, roots_ok, GcStats, Memory, ShowFlags,
};
use crate::lemmas::{
    lemma_block_index, lemma_interior, lemma_tiles_bounds, lemma_tiles_disjoint,
    lemma_tiles_ordered,
};
use crate::model::{
    first_index_of, has_block, is_block_start, limit_of, tiles, without_first, Block, BlockKind,
    HeapView, OBJECT_HEADER_SLOTS,
};
use vstd::prelude::*;

verus! {

/// What a store into slot `p` of object `i` leaves of the heap's invariant,
/// and what it does to the payloads.
proof fn lemma_store(
    blocks: Seq<Block>,
    mem: Seq<usize>,
    head: usize,
    to: int,
    i: int,
    p: int,
    v: usize,
)
    requires
        tiles(blocks, 1, to),
        to <= mem.len(),
        headers_ok(blocks, mem),
        links_ok(blocks, mem, head),
        refs_ok(blocks, mem),
        0 <= i < blocks.len(),
        blocks[i].kind == BlockKind::Object,
        blocks[i].addr < p < blocks[i].addr + blocks[i].size,
        ref_ok(blocks, v),
    ensures
        headers_ok(blocks, mem.update(p, v)),
        links_ok(blocks, mem.update(p, v), head),
        refs_ok(blocks, mem.update(p, v)),
        payloads_of(blocks, mem.update(p, v)) == payloads_of(blocks, mem).insert(
            blocks[i].addr,
            payloads_of(blocks, mem)[blocks[i].addr].update(p - blocks[i].addr - 1, v),
        ),
{
    let mem2 = mem.update(p, v);
    let a = blocks[i].addr;
    lemma_tiles_bounds(blocks, 1, to, i);
    lemma_interior(blocks, to, i, p);
    lemma_headers_kept(blocks, mem, p, v);
    assert forall|j: int|
        0 <= j < blocks.len() && (#[trigger] blocks[j]).kind == BlockKind::Free implies blocks[j].addr
        + 1 != p by {
        lemma_tiles_bounds(blocks, 1, to, j);
        if j < i {
            lemma_tiles_ordered(blocks, 1, to, j, i);
        } else {
            lemma_tiles_ordered(blocks, 1, to, i, j);
        }
    }
    lemma_links_kept(blocks, mem, head, to, p, v);
    assert(refs_ok(blocks, mem2)) by {
        reveal(refs_ok);
        assert forall|j: int, q: int|
            0 <= j < blocks.len() && (#[trigger] blocks[j]).kind == BlockKind::Object
                && blocks[j].addr < q < blocks[j].addr + blocks[j].size implies ref_ok(
            blocks,
            #[trigger] mem2[q],
        ) by {
            lemma_tiles_bounds(blocks, 1, to, j);
            if q != p {
                assert(ref_ok(blocks, mem[q]));
            }
        }
    }
    let m1 = payloads_of(blocks, mem2);
    let m0 = payloads_of(blocks, mem);
    let m2 = m0.insert(a, m0[a].update(p - a - 1, v));
    assert(has_block(blocks, a, BlockKind::Object));
    lemma_header(blocks, mem, i);
    assert forall|b: int| m1.dom().contains(b) implies #[trigger] m1[b] == m2[b] by {
        let j = lemma_block_index(blocks, b, BlockKind::Object);
        lemma_tiles_bounds(blocks, 1, to, j);
        lemma_header(blocks, mem, j);
        if j < i {
            lemma_tiles_ordered(blocks, 1, to, j, i);
        } else if i < j {
            lemma_tiles_ordered(blocks, 1, to, i, j);
        }
        assert(m1[b] =~= m2[b]);
    }
    assert(m1 =~= m2);
}

/// What `first_index_of` returns: the least index at or after `from` at
/// which `v` stands, or the length of `s`.
pub proof fn lemma_first_index_of(s: Seq<usize>, v: usize, from: int, r: int)
    requires
        0 <= from <= r <= s.len(),
        r < s.len() ==> s[r] == v,
        forall|j: int| from <= j < r ==> #[trigger] s[j] != v,
    ensures
        first_index_of(s, v, from) == r,
    decreases r - from,
{
    if from < r {
        assert(s[from] != v);
        lemma_first_index_of(s, v, from + 1, r);
    }
}

impl Memory {
    /// The value of payload slot `index` of the object at `obj`.
    pub fn at(&self, obj: usize, index: usize) -> (value: usize)
        requires
            self.wf(),
            self@.is_object(obj as int),
            index < self@.payloads[obj as int].len(),
        ensures
            value == self@.payloads[obj as int][index as int],
    {
        proof {
            let i = lemma_block_index(self.blocks@, obj as int, BlockKind::Object);
            lemma_tiles_bounds(self.blocks@, 1, limit_of(self.mem@.len() as int), i);
            lemma_header(self.blocks@, self.mem@, i);
            vstd::std_specs::vec::axiom_spec_len(&self.mem);
        }
        let base: usize = obj + OBJECT_HEADER_SLOTS;
        self.mem[base + index]
    }

    /// Stores `value` in payload slot `index` of the object at `obj`.
    pub fn at_put(&mut self, obj: usize, index: usize, value: usize)
        requires
            old(self).wf(),
            old(self)@.is_object(obj as int),
            index < old(self)@.payloads[obj as int].len(),
            old(self)@.is_ref(value),
        ensures
            final(self).wf(),
            final(self)@ == old(self)@.with_slot(obj as int, index as int, value),
            final(self).stats_view() == old(self).stats_view(),
            final(self).flags_view() == old(self).flags_view(),
    {
        let ghost i = lemma_block_index(self.blocks@, obj as int, BlockKind::Object);
        proof {
            lemma_tiles_bounds(self.blocks@, 1, limit_of(self.mem@.len() as int), i);
            lemma_header(self.blocks@, self.mem@, i);
            vstd::std_specs::vec::axiom_spec_len(&self.mem);
            lemma_store(
                self.blocks@,
                self.mem@,
                self.head,
                limit_of(self.mem@.len() as int),
                i,
                obj + 1 + index,
                value,
            );
        }
        let base: usize = obj + OBJECT_HEADER_SLOTS;
        self.mem[base + index] = value;
    }

    /// The number of payload slots of the block at `obj`, which is an
    /// object or any other block of the heap. At address 0 this is the
    /// number of slots behind slot 0.
    pub fn element_size(&self, obj: usize) -> (slots: usize)
        requires
            self.wf(),
            obj == 0 || is_block_start(self@.blocks, obj as int),
        ensures
            slots == self@.element_count(obj as int),
            self@.is_object(obj as int) ==> slots == self@.payloads[obj as int].len(),
    {
        proof {
            if obj != 0 {
                let i = crate::model::index_of(self.blocks@, obj as int);
                lemma_tiles_bounds(self.blocks@, 1, limit_of(self.mem@.len() as int), i);
                lemma_header(self.blocks@, self.mem@, i);
                if self@.is_object(obj as int) {
                    let j = lemma_block_index(self.blocks@, obj as int, BlockKind::Object);
                    lemma_tiles_disjoint(
                        self.blocks@,
                        1,
                        limit_of(self.mem@.len() as int),
                        i,
                        j,
                    );
                }
            } else {
                if self@.is_object(0) {
                    let j = lemma_block_index(self.blocks@, 0, BlockKind::Object);
                    lemma_tiles_bounds(self.blocks@, 1, limit_of(self.mem@.len() as int), j);
                }
            }
        }
        self.mem[obj] - OBJECT_HEADER_SLOTS
    }

    /// Adds `obj` at the end of the root set, whether or not it is there
    /// already.
    pub fn add_root(&mut self, obj: usize)
        requires
            old(self).wf(),
            old(self)@.is_ref(obj),
        ensures
            final(self).wf(),
            final(self)@ == (HeapView { roots: old(self)@.roots.push(obj), ..old(self)@ }),
            final(self).stats_view() == old(self).stats_view(),
            final(self).flags_view() == old(self).flags_view(),
    {
        self.roots.push(obj);
        proof {
            reveal(roots_ok);
        }
    }

    /// Removes the first occurrence of `obj` from the root set, if there is
    /// one.
    pub fn remove_root(&mut self, obj: usize)
        requires
            old(self).wf(),
        ensures
            final(self).wf(),
            final(self)@ == (HeapView { roots: without_first(old(self)@.roots, obj), ..old(self)@ }),
            final(self).stats_view() == old(self).stats_view(),
            final(self).flags_view() == old(self).flags_view(),
    {
        let mut i: usize = 0;
        while i < self.roots.len()
            invariant
                *self == *old(self),
                self.wf(),
                0 <= i <= self.roots@.len(),
                forall|j: int| 0 <= j < i ==> #[trigger] self.roots@[j] != obj,
            decreases self.roots@.len() - i,
        {
            if obj == self.roots[i] {
                proof {
                    lemma_first_index_of(self.roots@, obj, 0, i as int);
                }
                let ghost before = self.roots@;
                self.roots.remove(i);
                proof {
                    reveal(roots_ok);
                    assert forall|r: int| 0 <= r < self.roots@.len() implies ref_ok(
                        self.blocks@,
                        #[trigger] self.roots@[r],
                    ) by {
                        if r < i {
                            assert(self.roots@[r] == before[r]);
                        } else {
                            assert(self.roots@[r] == before[r + 1]);
                        }
                    }
                }
                return ;
            }
            i = i + 1;
        }
        proof {
            lemma_first_index_of(self.roots@, obj, 0, self.roots@.len() as int);
        }
    }

    /// Switches the heap map after every collection on or off.
    pub fn enable_show_heap_map(&mut self, enabled: bool)
        ensures
            old(self).wf() ==> final(self).wf(),
            final(self)@ == old(self)@,
            final(self).stats_view() == old(self).stats_view(),
            final(self).flags_view() == (ShowFlags { heap_map: enabled, ..old(self).flags_view() }),
    {
        self.show_heap_map = enabled;
    }

    /// Switches the free list after every collection on or off.
    pub fn enable_show_freelist(&mut self, enabled: bool)
        ensures
            old(self).wf() ==> final(self).wf(),
            final(self)@ == old(self)@,
            final(self).stats_view() == old(self).stats_view(),
            final(self).flags_view() == (ShowFlags { free_list: enabled, ..old(self).flags_view() }),
    {
        self.show_free_list = enabled;
    }

    /// Switches the summary after every collection on or off.
    pub fn enable_show_gc(&mut self, enabled: bool)
        ensures
            old(self).wf() ==> final(self).wf(),
            final(self)@ == old(self)@,
            final(self).stats_view() == old(self).stats_view(),
            final(self).flags_view() == (ShowFlags { gc: enabled, ..old(self).flags_view() }),
    {
        self.show_gc = enabled;
    }

    /// Switches the report of every allocation on or off.
    pub fn enable_show_allocates(&mut self, enabled: bool)
        ensures
            old(self).wf() ==> final(self).wf(),
            final(self)@ == old(self)@,
            final(self).stats_view() == old(self).stats_view(),
            final(self).flags_view() == (ShowFlags { allocates: enabled, ..old(self).flags_view() }),
    {
        self.show_allocates = enabled;
    }

    /// The diagnostics switched on.
    pub fn show_flags(&self) -> (flags: ShowFlags)
        ensures
            flags == self.flags_view(),
    {
        ShowFlags {
            gc: self.show_gc,
            allocates: self.show_allocates,
            heap_map: self.show_heap_map,
            free_list: self.show_free_list,
        }
    }

    /// The diagnostic counters.
    pub fn stats(&self) -> (stats: GcStats)
        ensures
            stats == self.stats_view(),
    {
        GcStats {
            cycles: self.gc_count,
            allocations: self.allocates,
            last_cycle_live_slots: self.lastgc_live_mem,
            last_cycle_free_slots: self.lastgc_free_mem,
            last_cycle_duration_ms: self.last_gc_ms,
            lifetime_duration_ms: self.total_gc_ms,
        }
    }

    /// The number of slots of the heap, slot 0 included.
    pub fn capacity(&self) -> (slots: usize)
        ensures
            slots == self@.capacity,
    {
        self.mem.len()
    }
}

} // verus!
