//! Walking the heap by its headers alone: where such a walk ends, and the
//! map of the heap that it draws.

use super::{lemma_header, lemma_link, links_ok, next_free_addr, Memory};
use crate::lemmas::{lemma_next_free, lemma_tiles_bounds, lemma_tiles_ordered};
use crate::model::{in_free_block, limit_of, next_free, Block, BlockKind};
use vstd::prelude::*;

verus! {

/// A slot of block `k` lies in a block of the free list if and only if
/// block `k` is in the free list.
proof fn lemma_slot_of_block(blocks: Seq<Block>, to: int, k: int, p: int)
    requires
        crate::model::tiles(blocks, 1, to),
        0 <= k < blocks.len(),
        blocks[k].addr <= p < blocks[k].addr + blocks[k].size,
    ensures
        in_free_block(blocks, p) == (blocks[k].kind == BlockKind::Free),
{
    if in_free_block(blocks, p) {
        let i = choose|i: int|
            0 <= i < blocks.len() && (#[trigger] blocks[i]).kind == BlockKind::Free
                && blocks[i].addr <= p < blocks[i].addr + blocks[i].size;
        if i < k {
            lemma_tiles_ordered(blocks, 1, to, i, k);
        } else if k < i {
            lemma_tiles_ordered(blocks, 1, to, k, i);
        }
    }
}

impl Memory {
    /// The word that slot `a` holds.
    pub closed spec fn slot(&self, a: int) -> usize {
        self.mem@[a]
    }

    /// The address at which a walk ends that starts at address `a` and goes
    /// on by the size in each header, until it reaches or passes the heap's
    /// limit or meets a header that holds 0.
    pub open spec fn walk_from(&self, a: int) -> int
        decreases self@.limit() - a,
    {
        if a >= self@.limit() || self.slot(a) as int <= 0 {
            a
        } else if a + self.slot(a) as int >= self@.limit() {
            a + self.slot(a) as int
        } else {
            self.walk_from(a + self.slot(a) as int)
        }
    }

    /// A walk from the start of any block ends at the heap's limit.
    proof fn lemma_walk_from_block(&self, k: int)
        requires
            self.layout_ok(),
            0 <= k < self.blocks@.len(),
        ensures
            self.walk_from(self.blocks@[k].addr) == self@.limit(),
        decreases self.blocks@.len() - k,
    {
        let blocks = self.blocks@;
        let to = limit_of(self.mem@.len() as int);
        lemma_tiles_bounds(blocks, 1, to, k);
        lemma_header(blocks, self.mem@, k);
        if k + 1 < blocks.len() {
            assert(blocks[k].addr + blocks[k].size == blocks[k + 1].addr);
            self.lemma_walk_from_block(k + 1);
        }
    }

    /// Walking the heap from address 1 by successive block sizes ends
    /// exactly at the heap's limit: the blocks leave no gap and do not
    /// overlap.
    pub proof fn lemma_walk_ends_at_limit(&self)
        requires
            self.wf(),
        ensures
            self.walk_from(1) == self@.limit(),
    {
        self.lemma_walk_from_block(0);
    }

    /// The same of a heap whose blocks are in place, whatever its free list
    /// and mark bits are.
    pub(super) proof fn lemma_layout_walk(&self)
        requires
            self.layout_ok(),
        ensures
            self.walk_from(1) == self@.limit(),
    {
        self.lemma_walk_from_block(0);
    }

    /// A map of the heap with one mark for each slot from address 1 up to
    /// the limit: `x` for a slot of the free list, `.` for any other.
    pub fn heap_map(&self) -> (map: Vec<char>)
        requires
            self.wf(),
        ensures
            map@.len() == self@.limit() - 1,
            forall|p: int| 1 <= p < self@.limit() ==> #[trigger] map@[p - 1] == self@.slot_mark(p),
    {
        let ghost blocks = self.blocks@;
        let ghost to = limit_of(self.mem@.len() as int);
        let limit: usize = self.limit();
        let mut map: Vec<char> = Vec::new();
        let mut scan: usize = 1;
        let mut free: usize = self.head;
        let ghost mut k: int = 0;
        proof {
            reveal(links_ok);
        }
        while scan < limit
            invariant
                self.wf(),
                blocks == self.blocks@,
                to == limit_of(self.mem@.len() as int),
                limit == to,
                0 <= k <= blocks.len(),
                scan == (if k < blocks.len() {
                    blocks[k].addr
                } else {
                    to
                }),
                free == next_free_addr(blocks, k),
                1 <= scan <= limit,
                map@.len() == scan - 1,
                forall|p: int| 1 <= p < scan ==> #[trigger] map@[p - 1] == self@.slot_mark(p),
            decreases limit - scan,
        {
            proof {
                lemma_tiles_bounds(blocks, 1, to, k);
                lemma_header(blocks, self.mem@, k);
                lemma_next_free(blocks, k);
                let nf = next_free(blocks, k);
                if nf != k && nf < blocks.len() {
                    lemma_tiles_ordered(blocks, 1, to, k, nf);
                    lemma_tiles_bounds(blocks, 1, to, nf);
                }
                if blocks[k].kind == BlockKind::Free {
                    lemma_link(blocks, self.mem@, self.head, k);
                } else {
                    assert(next_free(blocks, k) == next_free(blocks, k + 1));
                }
                if k + 1 < blocks.len() {
                    assert(blocks[k].addr + blocks[k].size == blocks[k + 1].addr);
                }
            }
            let size: usize = self.get_size(scan);
            let mark: char = if scan == free {
                free = self.get_fl_next(free);
                'x'
            } else {
                '.'
            };
            let mut i: usize = 0;
            while i < size
                invariant
                    i <= size,
                    0 <= k < blocks.len(),
                    scan == blocks[k].addr,
                    size == blocks[k].size,
                    crate::model::tiles(blocks, 1, to),
                    blocks == self.blocks@,
                    mark == (if blocks[k].kind == BlockKind::Free {
                        'x'
                    } else {
                        '.'
                    }),
                    map@.len() == scan - 1 + i,
                    forall|p: int|
                        1 <= p < scan + i ==> #[trigger] map@[p - 1] == self@.slot_mark(p),
                decreases size - i,
            {
                proof {
                    lemma_slot_of_block(blocks, to, k, scan + i);
                }
                map.push(mark);
                i = i + 1;
            }
            scan = scan + size;
            proof {
                k = k + 1;
            }
        }
        map
    }
}

} // verus!
