//! First-fit allocation from the free list.

use super::{
    headers_ok, lemma_header, lemma_link, links_ok, next_free_addr, payloads_of, ref_ok, refs_ok,
    roots_ok, Memory,
};
use crate::lemmas::{
    lemma_block_index, lemma_carve_objects, lemma_carve_tiles, lemma_first_fit_is,
    lemma_next_free, lemma_next_free_is, lemma_tiles_bounds, lemma_tiles_ordered,
};
use crate::model::{
    block_size_for, carve, carved_addr, fits, limit_of, next_free, tiles, Block, BlockKind,
    OBJECT_HEADER_SLOTS,
};
use vstd::prelude::*;

verus! {

/// `mem2` has the length of `mem` and its contents outside `[lo, hi)`.
spec fn same_outside(mem: Seq<usize>, mem2: Seq<usize>, lo: int, hi: int) -> bool {
    &&& mem2.len() == mem.len()
    &&& forall|p: int| 0 <= p < mem.len() && !(lo <= p < hi) ==> #[trigger] mem2[p] == mem[p]
}

proof fn lemma_carve_headers(
    blocks: Seq<Block>,
    mem: Seq<usize>,
    mem2: Seq<usize>,
    to: int,
    i: int,
    need: int,
)
    requires
        tiles(blocks, 1, to),
        to <= mem.len(),
        headers_ok(blocks, mem),
        0 <= i < blocks.len(),
        blocks[i].size > need,
        need >= 2,
        same_outside(mem, mem2, blocks[i].addr, blocks[i].addr + blocks[i].size),
        mem2[blocks[i].addr] == blocks[i].size - need,
        mem2[carved_addr(blocks, i, need)] == need,
    ensures
        headers_ok(carve(blocks, i, need), mem2),
{
    reveal(headers_ok);
    let b2 = carve(blocks, i, need);
    lemma_tiles_bounds(blocks, 1, to, i);
    assert forall|x: int| 0 <= x < b2.len() implies 0 <= (#[trigger] b2[x]).addr < mem2.len()
        && mem2[b2[x].addr] == b2[x].size by {
        if x < i {
            lemma_tiles_ordered(blocks, 1, to, x, i);
            lemma_tiles_bounds(blocks, 1, to, x);
            assert(mem2[blocks[x].addr] == mem[blocks[x].addr]);
        } else if x > i + 1 {
            lemma_tiles_ordered(blocks, 1, to, i, x - 1);
            lemma_tiles_bounds(blocks, 1, to, x - 1);
            assert(mem2[blocks[x - 1].addr] == mem[blocks[x - 1].addr]);
        }
    }
}

/// Behind the carved block, the free list is what it was.
proof fn lemma_carve_next_free(blocks: Seq<Block>, i: int, need: int, from: int)
    requires
        0 <= i < from <= blocks.len(),
    ensures
        next_free_addr(carve(blocks, i, need), from + 1) == next_free_addr(blocks, from),
{
    let b2 = carve(blocks, i, need);
    let r = next_free(blocks, from);
    lemma_next_free(blocks, from);
    assert forall|y: int| from + 1 <= y < r + 1 implies (#[trigger] b2[y]).kind
        != BlockKind::Free by {
        assert(blocks[y - 1].kind != BlockKind::Free);
    }
    lemma_next_free_is(b2, from + 1, r + 1);
}

proof fn lemma_carve_links(
    blocks: Seq<Block>,
    mem: Seq<usize>,
    mem2: Seq<usize>,
    head: usize,
    to: int,
    i: int,
    need: int,
)
    requires
        tiles(blocks, 1, to),
        to <= mem.len() <= usize::MAX,
        links_ok(blocks, mem, head),
        0 <= i < blocks.len(),
        blocks[i].kind == BlockKind::Free,
        blocks[i].size > need,
        need >= 2,
        same_outside(mem, mem2, blocks[i].addr, blocks[i].addr + blocks[i].size),
        mem2[blocks[i].addr + 1] == mem[blocks[i].addr + 1],
    ensures
        links_ok(carve(blocks, i, need), mem2, blocks[i].addr as usize),
{
    reveal(links_ok);
    let b2 = carve(blocks, i, need);
    lemma_tiles_bounds(blocks, 1, to, i);
    assert forall|y: int| 0 <= y < i implies (#[trigger] b2[y]).kind != BlockKind::Free by {}
    lemma_next_free_is(b2, 0, i);
    assert forall|x: int| 0 <= x < b2.len() && (#[trigger] b2[x]).kind
        == BlockKind::Free implies mem2[b2[x].addr + 1] == next_free_addr(b2, x + 1) by {
        if x == i {
            lemma_carve_next_free(blocks, i, need, i + 1);
            assert(b2[i + 1].kind == BlockKind::Object);
            assert(next_free(b2, i + 1) == next_free(b2, i + 2));
        } else {
            assert(x > i + 1);
            assert(blocks[x - 1].kind == BlockKind::Free);
            lemma_tiles_ordered(blocks, 1, to, i, x - 1);
            lemma_tiles_bounds(blocks, 1, to, x - 1);
            assert(mem2[blocks[x - 1].addr + 1] == mem[blocks[x - 1].addr + 1]);
            lemma_carve_next_free(blocks, i, need, x);
        }
    }
}

proof fn lemma_carve_refs(
    blocks: Seq<Block>,
    mem: Seq<usize>,
    mem2: Seq<usize>,
    roots: Seq<usize>,
    to: int,
    i: int,
    need: int,
)
    requires
        tiles(blocks, 1, to),
        to <= mem.len(),
        refs_ok(blocks, mem),
        roots_ok(blocks, roots),
        0 <= i < blocks.len(),
        blocks[i].kind == BlockKind::Free,
        blocks[i].size > need,
        need >= 2,
        same_outside(mem, mem2, blocks[i].addr, blocks[i].addr + blocks[i].size),
        forall|p: int|
            carved_addr(blocks, i, need) < p < carved_addr(blocks, i, need) + need ==> #[trigger] mem2[p]
                == 0,
    ensures
        refs_ok(carve(blocks, i, need), mem2),
        roots_ok(carve(blocks, i, need), roots),
{
    reveal(refs_ok);
    reveal(roots_ok);
    let b2 = carve(blocks, i, need);
    assert forall|x: int, p: int|
        0 <= x < b2.len() && (#[trigger] b2[x]).kind == BlockKind::Object && b2[x].addr < p
            < b2[x].addr + b2[x].size implies ref_ok(b2, #[trigger] mem2[p]) by {
        if x != i + 1 {
            let j = if x < i {
                x
            } else {
                x - 1
            };
            assert(blocks[j].kind == BlockKind::Object);
            lemma_tiles_bounds(blocks, 1, to, j);
            if j < i {
                lemma_tiles_ordered(blocks, 1, to, j, i);
            } else {
                lemma_tiles_ordered(blocks, 1, to, i, j);
            }
            assert(mem2[p] == mem[p]);
            assert(ref_ok(blocks, mem[p]));
            lemma_carve_objects(blocks, to, i, need, mem[p] as int);
        }
    }
    assert forall|r: int| 0 <= r < roots.len() implies ref_ok(b2, #[trigger] roots[r]) by {
        assert(ref_ok(blocks, roots[r]));
        lemma_carve_objects(blocks, to, i, need, roots[r] as int);
    }
}

proof fn lemma_carve_payloads(
    blocks: Seq<Block>,
    mem: Seq<usize>,
    mem2: Seq<usize>,
    to: int,
    i: int,
    need: int,
)
    requires
        tiles(blocks, 1, to),
        to <= mem.len(),
        headers_ok(blocks, mem),
        0 <= i < blocks.len(),
        blocks[i].kind == BlockKind::Free,
        blocks[i].size > need,
        need >= 2,
        same_outside(mem, mem2, blocks[i].addr, blocks[i].addr + blocks[i].size),
        mem2[carved_addr(blocks, i, need)] == need,
        forall|p: int|
            carved_addr(blocks, i, need) < p < carved_addr(blocks, i, need) + need ==> #[trigger] mem2[p]
                == 0,
    ensures
        payloads_of(carve(blocks, i, need), mem2) == payloads_of(blocks, mem).insert(
            carved_addr(blocks, i, need),
            Seq::new((need - 1) as nat, |j: int| 0usize),
        ),
{
    let b2 = carve(blocks, i, need);
    let new_addr = carved_addr(blocks, i, need);
    let zeros = Seq::new((need - 1) as nat, |j: int| 0usize);
    let m1 = payloads_of(b2, mem2);
    let m2 = payloads_of(blocks, mem).insert(new_addr, zeros);
    reveal(headers_ok);
    lemma_tiles_bounds(blocks, 1, to, i);
    assert forall|a: int| m1.dom().contains(a) <==> m2.dom().contains(a) by {
        lemma_carve_objects(blocks, to, i, need, a);
    }
    assert forall|a: int| m1.dom().contains(a) implies #[trigger] m1[a] == m2[a] by {
        lemma_carve_objects(blocks, to, i, need, a);
        if a == new_addr {
            assert(m1[a] =~= zeros);
        } else {
            let j = lemma_block_index(blocks, a, BlockKind::Object);
            lemma_tiles_bounds(blocks, 1, to, j);
            if j < i {
                lemma_tiles_ordered(blocks, 1, to, j, i);
            } else {
                lemma_tiles_ordered(blocks, 1, to, i, j);
            }
            assert(mem2[a] == mem[a]);
            assert(m1[a] =~= m2[a]);
        }
    }
    assert(m1 =~= m2);
}

impl Memory {
    /// Writes 0 to the slots `[from, to)`.
    fn zero_fill(&mut self, from: usize, to: usize)
        requires
            from <= to <= old(self).mem@.len(),
        ensures
            final(self).mem@.len() == old(self).mem@.len(),
            forall|p: int|
                0 <= p < old(self).mem@.len() ==> #[trigger] final(self).mem@[p] == (if from <= p
                    < to {
                    0
                } else {
                    old(self).mem@[p]
                }),
            Self::only_mem_differs(old(self), final(self)),
    {
        let mut p: usize = from;
        while p < to
            invariant
                from <= p <= to <= self.mem@.len(),
                self.mem@.len() == old(self).mem@.len(),
                forall|q: int|
                    0 <= q < old(self).mem@.len() ==> #[trigger] self.mem@[q] == (if from <= q < p {
                        0
                    } else {
                        old(self).mem@[q]
                    }),
                Self::only_mem_differs(old(self), self),
            decreases to - p,
        {
            self.mem[p] = 0;
            p = p + 1;
        }
    }

    /// Takes `size` slots off the high end of free block `idx`, which starts
    /// at `free`, for a zero-filled object, and makes that block the head of
    /// the free list.
    fn carve_block(&mut self, free: usize, size: usize, Ghost(idx): Ghost<int>) -> (r: usize)
        requires
            old(self).wf(),
            0 <= idx < old(self).blocks@.len(),
            old(self).blocks@[idx].addr == free,
            fits(old(self).blocks@[idx], size as int),
            size >= 2,
            size % 2 == 0,
        ensures
            final(self).wf(),
            final(self).stats_view() == old(self).stats_view(),
            final(self).flags_view() == old(self).flags_view(),
            r == carved_addr(old(self).blocks@, idx, size as int),
            final(self).blocks@ == carve(old(self).blocks@, idx, size as int),
            final(self).roots@ == old(self).roots@,
            final(self).mem@.len() == old(self).mem@.len(),
            payloads_of(final(self).blocks@, final(self).mem@) == payloads_of(
                old(self).blocks@,
                old(self).mem@,
            ).insert(r as int, Seq::new((size - 1) as nat, |j: int| 0usize)),
    {
        let ghost blocks = self.blocks@;
        let ghost mem = self.mem@;
        let ghost to = limit_of(mem.len() as int);
        let ghost need = size as int;
        proof {
            vstd::std_specs::vec::axiom_spec_len(&self.mem);
            lemma_tiles_bounds(blocks, 1, to, idx);
            lemma_header(blocks, mem, idx);
        }
        let avail: usize = self.get_size(free);
        let newsize: usize = avail - size;
        // Both sizes are even, so what is left of the block is a block itself.
        assert(newsize >= 2);
        self.set_size(free, newsize);
        let new_object: usize = free + newsize;
        self.set_size(new_object, size);
        self.zero_fill(new_object + 1, new_object + size);
        self.head = free;
        proof {
            self.blocks@ = carve(blocks, idx, need);
            let mem2 = self.mem@;
            assert(same_outside(mem, mem2, blocks[idx].addr, blocks[idx].addr + blocks[idx].size));
            lemma_carve_tiles(blocks, to, idx, need);
            lemma_carve_headers(blocks, mem, mem2, to, idx, need);
            lemma_carve_links(blocks, mem, mem2, old(self).head, to, idx, need);
            lemma_carve_refs(blocks, mem, mem2, self.roots@, to, idx, need);
            lemma_carve_payloads(blocks, mem, mem2, to, idx, need);
        }
        new_object
    }

    /// Takes an object of `unrounded_size` payload slots off the high end of
    /// the first free block that is strictly larger than the object, and
    /// returns its address; returns 0 and changes nothing if no block is.
    /// Free blocks that the scan passed over leave the free list.
    pub fn allocate_object_nocompress(&mut self, unrounded_size: usize) -> (r: usize)
        requires
            old(self).wf(),
        ensures
            final(self).wf(),
            final(self).stats_view() == old(self).stats_view(),
            final(self).flags_view() == old(self).flags_view(),
            r != 0 <==> old(self)@.can_allocate(unrounded_size as int),
            old(self)@.can_allocate(unrounded_size as int) ==> r == old(self)@.allocated_addr(
                unrounded_size as int,
            ) && final(self)@ == old(self)@.allocated(unrounded_size as int),
            !old(self)@.can_allocate(unrounded_size as int) ==> final(self)@ == old(self)@,
    {
        let ghost blocks = self.blocks@;
        let ghost mem = self.mem@;
        let ghost to = limit_of(mem.len() as int);
        let ghost need = block_size_for(unrounded_size as int);
        if unrounded_size >= self.mem.len() - 1 {
            proof {
                assert forall|j: int| 0 <= j < blocks.len() implies !fits(
                    #[trigger] blocks[j],
                    need,
                ) by {
                    lemma_tiles_bounds(blocks, 1, to, j);
                }
                lemma_first_fit_is(blocks, need, 0, blocks.len() as int);
            }
            return 0;
        }
        let size: usize = Self::rounded_size(unrounded_size + OBJECT_HEADER_SLOTS);
        let mut free: usize = self.head;
        let ghost mut idx: int = next_free(blocks, 0);
        proof {
            lemma_next_free(blocks, 0);
            reveal(links_ok);
            if idx < blocks.len() {
                lemma_tiles_bounds(blocks, 1, to, idx);
            }
        }
        while free != 0
            invariant
                *self == *old(self),
                tiles(blocks, 1, to),
                to <= mem.len(),
                headers_ok(blocks, mem),
                links_ok(blocks, mem, self.head),
                blocks == self.blocks@,
                mem == self.mem@,
                size == need,
                0 <= idx <= blocks.len(),
                idx < blocks.len() ==> blocks[idx].kind == BlockKind::Free && blocks[idx].addr >= 1,
                free == crate::model::addr_or_zero(blocks, idx),
                forall|j: int| 0 <= j < idx ==> !fits(#[trigger] blocks[j], need),
            ensures
                free == 0 ==> idx == blocks.len(),
                free != 0 ==> 0 <= idx < blocks.len() && blocks[idx].addr == free && fits(
                    blocks[idx],
                    need,
                ),
                forall|j: int| 0 <= j < idx ==> !fits(#[trigger] blocks[j], need),
            decreases blocks.len() - idx,
        {
            assert(idx < blocks.len());
            proof {
                lemma_tiles_bounds(blocks, 1, to, idx);
                lemma_header(blocks, mem, idx);
                lemma_link(blocks, mem, self.head, idx);
            }
            let avail: usize = self.get_size(free);
            if avail > size {
                break ;
            }
            free = self.get_fl_next(free);
            proof {
                lemma_next_free(blocks, idx + 1);
                idx = next_free(blocks, idx + 1);
                if idx < blocks.len() {
                    lemma_tiles_bounds(blocks, 1, to, idx);
                }
            }
        }
        proof {
            lemma_first_fit_is(blocks, need, 0, idx);
        }
        if free == 0 {
            0
        } else {
            self.carve_block(free, size, Ghost(idx))
        }
    }
}

} // verus!
