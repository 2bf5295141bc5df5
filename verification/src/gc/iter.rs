//! Walking the heap: the blocks that are not in the free list, and the free
//! list itself.

use super::{lemma_header, lemma_link, next_free_addr, Memory};
use crate::lemmas::{lemma_next_free, lemma_tiles_bounds};
use crate::model::{limit_of, next_free, select_from, Block, BlockKind, HeapView};
use vstd::prelude::*;

verus! {

/// A walk over the blocks of a heap that are not in the free list, in
/// address order. It reads the heap and changes nothing.
pub struct MemoryIntoIterator<'a> {
    mem: &'a Memory,
    scan: usize,
    free: usize,
    pos: Ghost<int>,
}

/// Selecting the free blocks from index `from` on is selecting them from
/// the next free block on.
proof fn lemma_select_free_skips(blocks: Seq<Block>, from: int)
    requires
        0 <= from <= blocks.len(),
    ensures
        select_from(blocks, true, from) == select_from(blocks, true, next_free(blocks, from)),
    decreases blocks.len() - from,
{
    if from < blocks.len() && blocks[from].kind != BlockKind::Free {
        lemma_select_free_skips(blocks, from + 1);
    }
}

impl<'a> MemoryIntoIterator<'a> {
    /// The invariant of the walk: it stands on the heap's block structure.
    pub closed spec fn wf(&self) -> bool {
        let blocks = self.mem.blocks@;
        let to = limit_of(self.mem.mem@.len() as int);
        &&& self.mem.wf()
        &&& 0 <= self.pos@ <= blocks.len()
        &&& self.free == next_free_addr(blocks, self.pos@)
        &&& {
            ||| self.scan == 0 && self.pos@ == 0
            ||| self.pos@ >= 1 && self.scan == blocks[self.pos@ - 1].addr && blocks[self.pos@
                - 1].kind != BlockKind::Free
            ||| self.scan == to && self.pos@ == blocks.len()
        }
    }

    /// The heap that is walked.
    pub closed spec fn heap(&self) -> HeapView {
        self.mem@
    }

    /// The blocks that the walk has yet to yield.
    pub closed spec fn remaining(&self) -> Seq<Block> {
        select_from(self.mem.blocks@, false, self.pos@)
    }

    /// Yields the address of the next block that is not in the free list,
    /// or `None` when the heap has been walked to its end.
    pub fn next(&mut self) -> (r: Option<usize>)
        requires
            old(self).wf(),
        ensures
            final(self).wf(),
            final(self).heap() == old(self).heap(),
            match r {
                Some(addr) => old(self).remaining().len() > 0 && addr
                    == old(self).remaining()[0].addr && final(self).remaining()
                    == old(self).remaining().drop_first(),
                None => old(self).remaining().len() == 0 && final(self).remaining()
                    == old(self).remaining(),
            },
    {
        let ghost blocks = self.mem.blocks@;
        let ghost to = limit_of(self.mem.mem@.len() as int);
        let limit: usize = self.mem.limit();
        proof {
            if self.pos@ >= 1 {
                lemma_tiles_bounds(blocks, 1, to, self.pos@ - 1);
                lemma_header(blocks, self.mem.mem@, self.pos@ - 1);
                if self.pos@ < blocks.len() {
                    assert(blocks[self.pos@ - 1].addr + blocks[self.pos@ - 1].size
                        == blocks[self.pos@ as int].addr);
                }
            }
        }
        if self.scan >= limit {
            return None;
        }
        if self.scan == 0 {
            self.scan = 1;
        } else {
            self.scan = self.mem.next_object_in_heap(self.scan);
        }
        while self.scan < limit && self.scan == self.free
            invariant
                self.mem == old(self).mem,
                self.mem.wf(),
                blocks == self.mem.blocks@,
                to == limit_of(self.mem.mem@.len() as int),
                limit == to,
                0 <= self.pos@ <= blocks.len(),
                self.free == next_free_addr(blocks, self.pos@),
                self.scan == (if self.pos@ < blocks.len() {
                    blocks[self.pos@ as int].addr
                } else {
                    to
                }),
                select_from(blocks, false, self.pos@) == old(self).remaining(),
            decreases blocks.len() - self.pos@,
        {
            proof {
                let k = self.pos@;
                assert(k < blocks.len()) by {
                    if k >= blocks.len() {
                        assert(self.scan == to);
                    }
                }
                lemma_next_free(blocks, k);
                lemma_tiles_bounds(blocks, 1, to, k);
                let nf = next_free(blocks, k);
                if nf != k {
                    if nf < blocks.len() {
                        crate::lemmas::lemma_tiles_ordered(blocks, 1, to, k, nf);
                    }
                }
                assert(blocks[k].kind == BlockKind::Free);
                lemma_header(blocks, self.mem.mem@, k);
                lemma_link(blocks, self.mem.mem@, self.mem.head, k);
                if k + 1 < blocks.len() {
                    assert(blocks[k].addr + blocks[k].size == blocks[k + 1].addr);
                }
            }
            self.scan = self.mem.next_object_in_heap(self.free);
            self.free = self.mem.get_fl_next(self.free);
            proof {
                self.pos@ = self.pos@ + 1;
            }
        }
        if self.scan >= limit {
            proof {
                if self.pos@ < blocks.len() {
                    lemma_tiles_bounds(blocks, 1, to, self.pos@);
                }
            }
            None
        } else {
            proof {
                let k = self.pos@;
                assert(k < blocks.len());
                lemma_next_free(blocks, k);
                assert(blocks[k].kind != BlockKind::Free);
                assert(next_free(blocks, k) == next_free(blocks, k + 1));
                assert(select_from(blocks, false, k + 1) =~= select_from(
                    blocks,
                    false,
                    k,
                ).drop_first());
                self.pos@ = k + 1;
            }
            Some(self.scan)
        }
    }
}

impl Memory {
    /// A walk over the blocks that are not in the free list: the objects,
    /// and the blocks that allocation has dropped from the free list since
    /// the last collection.
    pub fn live_objects(&self) -> (walk: MemoryIntoIterator<'_>)
        requires
            self.wf(),
        ensures
            walk.wf(),
            walk.heap() == self@,
            walk.remaining() == self@.live_blocks(),
    {
        proof {
            lemma_link_head(self);
        }
        MemoryIntoIterator { mem: self, scan: 0, free: self.head, pos: Ghost(0) }
    }

    /// The free list: address and size of each free block, in list order.
    pub fn free_list(&self) -> (list: Vec<(usize, usize)>)
        requires
            self.wf(),
        ensures
            list@.len() == self@.free_list().len(),
            forall|j: int|
                0 <= j < list@.len() ==> (#[trigger] list@[j]).0 == self@.free_list()[j].addr
                    && list@[j].1 == self@.free_list()[j].size,
    {
        let ghost blocks = self.blocks@;
        let ghost to = limit_of(self.mem@.len() as int);
        let mut list: Vec<(usize, usize)> = Vec::new();
        let mut free: usize = self.head;
        let ghost mut idx: int = next_free(blocks, 0);
        let ghost mut done: Seq<Block> = Seq::empty();
        proof {
            lemma_link_head(self);
            lemma_next_free(blocks, 0);
            lemma_select_free_skips(blocks, 0);
            if idx < blocks.len() {
                lemma_tiles_bounds(blocks, 1, to, idx);
            }
        }
        while free != 0
            invariant
                self.wf(),
                blocks == self.blocks@,
                to == limit_of(self.mem@.len() as int),
                0 <= idx <= blocks.len(),
                idx < blocks.len() ==> blocks[idx].kind == BlockKind::Free && blocks[idx].addr >= 1,
                free == crate::model::addr_or_zero(blocks, idx),
                done + select_from(blocks, true, idx) == select_from(blocks, true, 0),
                list@.len() == done.len(),
                forall|j: int|
                    0 <= j < list@.len() ==> (#[trigger] list@[j]).0 == done[j].addr && list@[j].1
                        == done[j].size,
            decreases blocks.len() - idx,
        {
            proof {
                lemma_tiles_bounds(blocks, 1, to, idx);
                lemma_header(blocks, self.mem@, idx);
                lemma_link(blocks, self.mem@, self.head, idx);
            }
            let size: usize = self.get_size(free);
            list.push((free, size));
            free = self.get_fl_next(free);
            proof {
                let next = next_free(blocks, idx + 1);
                lemma_next_free(blocks, idx + 1);
                lemma_select_free_skips(blocks, idx + 1);
                assert(done.push(blocks[idx]) + select_from(blocks, true, next) =~= done
                    + select_from(blocks, true, idx));
                done = done.push(blocks[idx]);
                idx = next;
                if idx < blocks.len() {
                    lemma_tiles_bounds(blocks, 1, to, idx);
                }
            }
        }
        proof {
            assert(done =~= done + select_from(blocks, true, idx));
        }
        list
    }
}

/// The head of the free list is the address of the first free block.
proof fn lemma_link_head(m: &Memory)
    requires
        m.wf(),
    ensures
        m.head == next_free_addr(m.blocks@, 0),
{
    reveal(super::links_ok);
}

} // verus!
