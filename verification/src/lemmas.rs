//! Facts about tilings, the free-list order and first-fit search.

use crate::model::{
    carve, carved_addr, first_fit, first_index_of, fits, has_block, has_extent, has_object, is_block_start, is_sweep_of,
    live_are_objects, next_free, no_adjacent_free, objects_are_live, rest_is_free, slots_of,
    sweep_step, swept, tiles, Block, BlockKind,
};
use vstd::prelude::*;

verus! {

/// In a tiling, an earlier block ends at or before the start of a later one.
pub proof fn lemma_tiles_ordered(blocks: Seq<Block>, from: int, to: int, i: int, j: int)
    requires
        tiles(blocks, from, to),
        0 <= i < j < blocks.len(),
    ensures
        blocks[i].addr + blocks[i].size <= blocks[j].addr,
    decreases j - i,
{
    if j > i + 1 {
        lemma_tiles_ordered(blocks, from, to, i, j - 1);
        assert(blocks[j - 1].addr + blocks[j - 1].size == blocks[j].addr);
    }
}

/// In a tiling of `[from, to)`, every block lies inside `[from, to)`.
pub proof fn lemma_tiles_bounds(blocks: Seq<Block>, from: int, to: int, i: int)
    requires
        tiles(blocks, from, to),
        0 <= i < blocks.len(),
    ensures
        from <= blocks[i].addr,
        blocks[i].addr + blocks[i].size <= to,
        blocks[i].size >= 2,
{
    if i > 0 {
        lemma_tiles_ordered(blocks, from, to, 0, i);
    }
    if i < blocks.len() - 1 {
        lemma_tiles_ordered(blocks, from, to, i, blocks.len() - 1);
    }
}

/// In a tiling, an address that lies inside block `i` and at which block `j`
/// starts is the start of block `i`.
pub proof fn lemma_tiles_disjoint(blocks: Seq<Block>, from: int, to: int, i: int, j: int)
    requires
        tiles(blocks, from, to),
        0 <= i < blocks.len(),
        0 <= j < blocks.len(),
        blocks[i].addr <= blocks[j].addr < blocks[i].addr + blocks[i].size,
    ensures
        i == j,
{
    if i < j {
        lemma_tiles_ordered(blocks, from, to, i, j);
    } else if j < i {
        lemma_tiles_ordered(blocks, from, to, j, i);
    }
}

/// A sequence of blocks that tiles a range still tiles the front of that
/// range when cut after its first `k` blocks.
pub proof fn lemma_tiles_take(blocks: Seq<Block>, from: int, to: int, k: int)
    requires
        tiles(blocks, from, to),
        0 <= k <= blocks.len(),
    ensures
        tiles(
            blocks.take(k),
            from,
            if k < blocks.len() {
                blocks[k].addr
            } else {
                to
            },
        ),
{
    let front = blocks.take(k);
    assert forall|i: int, j: int| 0 <= i && j == i + 1 && j < front.len() implies (
    #[trigger] front[i]).addr + front[i].size == (#[trigger] front[j]).addr by {
        assert(blocks[i].addr + blocks[i].size == blocks[j].addr);
    }
    if k > 0 && k < blocks.len() {
        assert(blocks[k - 1].addr + blocks[k - 1].size == blocks[k].addr);
    }
}

/// In a tiling, no block starts strictly inside block `t`.
pub proof fn lemma_interior(out: Seq<Block>, to: int, t: int, w: int)
    requires
        tiles(out, 1, to),
        0 <= t < out.len(),
        out[t].addr < w < out[t].addr + out[t].size,
    ensures
        forall|j: int| 0 <= j < out.len() ==> (#[trigger] out[j]).addr != w,
{
    assert forall|j: int| 0 <= j < out.len() implies (#[trigger] out[j]).addr != w by {
        if out[j].addr == w {
            lemma_tiles_disjoint(out, 1, to, t, j);
        }
    }
}

/// In a tiling of `[1, to)`, every block starts two slots or more below `to`.
pub proof fn lemma_starts_below(out: Seq<Block>, to: int)
    requires
        tiles(out, 1, to),
    ensures
        forall|j: int| 0 <= j < out.len() ==> 1 <= (#[trigger] out[j]).addr && out[j].addr + 2 <= to,
{
    assert forall|j: int| 0 <= j < out.len() implies 1 <= (#[trigger] out[j]).addr && out[j].addr
        + 2 <= to by {
        lemma_tiles_bounds(out, 1, to, j);
    }
}

/// In a tiling, two blocks are different blocks only if they start at
/// different addresses.
pub proof fn lemma_distinct_starts(out: Seq<Block>, to: int, t: int)
    requires
        tiles(out, 1, to),
        0 <= t < out.len(),
    ensures
        forall|j: int| 0 <= j < out.len() && j != t ==> (#[trigger] out[j]).addr != out[t].addr,
{
    assert forall|j: int| 0 <= j < out.len() && j != t implies (#[trigger] out[j]).addr
        != out[t].addr by {
        lemma_tiles_bounds(out, 1, to, t);
        if out[j].addr == out[t].addr {
            lemma_tiles_disjoint(out, 1, to, t, j);
        }
    }
}

/// What `next_free` returns: the least index at or after `from` of a free
/// block, or the number of blocks.
pub proof fn lemma_next_free(blocks: Seq<Block>, from: int)
    requires
        0 <= from <= blocks.len(),
    ensures
        from <= next_free(blocks, from) <= blocks.len(),
        next_free(blocks, from) < blocks.len() ==> blocks[next_free(blocks, from)].kind
            == BlockKind::Free,
        forall|j: int|
            from <= j < next_free(blocks, from) ==> (#[trigger] blocks[j]).kind != BlockKind::Free,
    decreases blocks.len() - from,
{
    if from < blocks.len() && blocks[from].kind != BlockKind::Free {
        lemma_next_free(blocks, from + 1);
    }
}

/// An index with the properties of `next_free` is what `next_free` returns.
pub proof fn lemma_next_free_is(blocks: Seq<Block>, from: int, r: int)
    requires
        0 <= from <= r <= blocks.len(),
        r < blocks.len() ==> blocks[r].kind == BlockKind::Free,
        forall|j: int| from <= j < r ==> (#[trigger] blocks[j]).kind != BlockKind::Free,
    ensures
        next_free(blocks, from) == r,
    decreases r - from,
{
    if from < r {
        assert(blocks[from].kind != BlockKind::Free);
        lemma_next_free_is(blocks, from + 1, r);
    }
}

/// What `first_fit` returns: the least index at or after `from` of a block
/// that fits, or the number of blocks.
pub proof fn lemma_first_fit(blocks: Seq<Block>, need: int, from: int)
    requires
        0 <= from <= blocks.len(),
    ensures
        from <= first_fit(blocks, need, from) <= blocks.len(),
        first_fit(blocks, need, from) < blocks.len() ==> fits(
            blocks[first_fit(blocks, need, from)],
            need,
        ),
        forall|j: int|
            from <= j < first_fit(blocks, need, from) ==> !fits(#[trigger] blocks[j], need),
    decreases blocks.len() - from,
{
    if from < blocks.len() && !fits(blocks[from], need) {
        lemma_first_fit(blocks, need, from + 1);
    }
}

/// An index with the properties of `first_fit` is what `first_fit` returns.
pub proof fn lemma_first_fit_is(blocks: Seq<Block>, need: int, from: int, r: int)
    requires
        0 <= from <= r <= blocks.len(),
        r < blocks.len() ==> fits(blocks[r], need),
        forall|j: int| from <= j < r ==> !fits(#[trigger] blocks[j], need),
    ensures
        first_fit(blocks, need, from) == r,
    decreases r - from,
{
    if from < r {
        assert(!fits(blocks[from], need));
        lemma_first_fit_is(blocks, need, from + 1, r);
    }
}

/// `first_index_of` returns an index at or after `from`, or the length.
pub proof fn lemma_first_index_bounds(s: Seq<usize>, v: usize, from: int)
    requires
        0 <= from <= s.len(),
    ensures
        from <= first_index_of(s, v, from) <= s.len(),
        first_index_of(s, v, from) < s.len() ==> s[first_index_of(s, v, from)] == v,
    decreases s.len() - from,
{
    if from < s.len() && s[from] != v {
        lemma_first_index_bounds(s, v, from + 1);
    }
}

/// The index of a block of kind `kind` that starts at `a`.
pub proof fn lemma_block_index(blocks: Seq<Block>, a: int, kind: BlockKind) -> (i: int)
    requires
        has_block(blocks, a, kind),
    ensures
        0 <= i < blocks.len(),
        blocks[i].addr == a,
        blocks[i].kind == kind,
{
    choose|i: int| 0 <= i < blocks.len() && (#[trigger] blocks[i]).addr == a && blocks[i].kind == kind
}

/// Carving an object out of a block of a tiling leaves a tiling.
pub proof fn lemma_carve_tiles(blocks: Seq<Block>, to: int, i: int, need: int)
    requires
        tiles(blocks, 1, to),
        0 <= i < blocks.len(),
        blocks[i].size > need,
        need >= 2,
        need % 2 == 0,
    ensures
        tiles(carve(blocks, i, need), 1, to),
{
    let b2 = carve(blocks, i, need);
    assert forall|x: int| 0 <= x < b2.len() implies (#[trigger] b2[x]).size >= 2 && b2[x].size % 2
        == 0 by {
        if x < i {
            assert(blocks[x].size >= 2);
        } else if x == i {
            assert(blocks[i].size % 2 == 0);
        } else if x > i + 1 {
            assert(blocks[x - 1].size >= 2);
        }
    }
    assert forall|x: int, y: int| 0 <= x && y == x + 1 && y < b2.len() implies (#[trigger] b2[x]).addr
        + b2[x].size == (#[trigger] b2[y]).addr by {
        if y <= i {
            assert(blocks[x].addr + blocks[x].size == blocks[y].addr);
        } else if y == i + 2 {
            assert(blocks[i].addr + blocks[i].size == blocks[i + 1].addr);
        } else if y > i + 2 {
            assert(blocks[x - 1].addr + blocks[x - 1].size == blocks[y - 1].addr);
        }
    }
    if i == 0 {
        assert(b2[0].addr == blocks[0].addr);
    } else {
        assert(b2[0].addr == blocks[0].addr);
    }
    if i == blocks.len() - 1 {
        assert(b2.last().addr + b2.last().size == blocks[i].addr + blocks[i].size);
    } else {
        assert(b2.last() == blocks.last());
    }
}

/// The objects after a carve are those before it and the new one.
pub proof fn lemma_carve_objects(blocks: Seq<Block>, to: int, i: int, need: int, a: int)
    requires
        tiles(blocks, 1, to),
        0 <= i < blocks.len(),
        blocks[i].kind == BlockKind::Free,
        blocks[i].size > need,
        need >= 2,
    ensures
        has_block(carve(blocks, i, need), a, BlockKind::Object) <==> (has_block(
            blocks,
            a,
            BlockKind::Object,
        ) || a == carved_addr(blocks, i, need)),
        !has_block(blocks, carved_addr(blocks, i, need), BlockKind::Object),
{
    let b2 = carve(blocks, i, need);
    if has_block(blocks, a, BlockKind::Object) {
        let j = lemma_block_index(blocks, a, BlockKind::Object);
        if j < i {
            assert(b2[j].addr == a && b2[j].kind == BlockKind::Object);
        } else {
            assert(b2[j + 1].addr == a && b2[j + 1].kind == BlockKind::Object);
        }
    }
    if a == carved_addr(blocks, i, need) {
        assert(b2[i + 1].addr == a && b2[i + 1].kind == BlockKind::Object);
    }
    if has_block(b2, a, BlockKind::Object) {
        let x = lemma_block_index(b2, a, BlockKind::Object);
        if x < i {
            assert(blocks[x].addr == a && blocks[x].kind == BlockKind::Object);
        } else if x > i + 1 {
            assert(blocks[x - 1].addr == a && blocks[x - 1].kind == BlockKind::Object);
        }
    }
    if has_block(blocks, carved_addr(blocks, i, need), BlockKind::Object) {
        let j = lemma_block_index(blocks, carved_addr(blocks, i, need), BlockKind::Object);
        lemma_tiles_disjoint(blocks, 1, to, i, j);
    }
}

/// Two sequences of blocks of one length that agree on the kinds from index
/// `from` on have their next free block at the same index.
pub proof fn lemma_next_free_agree(b1: Seq<Block>, b2: Seq<Block>, from: int)
    requires
        b1.len() == b2.len(),
        0 <= from <= b1.len(),
        forall|j: int| from <= j < b1.len() ==> (#[trigger] b1[j]).kind == b2[j].kind,
    ensures
        next_free(b1, from) == next_free(b2, from),
    decreases b1.len() - from,
{
    if from < b1.len() {
        assert(b1[from].kind == b2[from].kind);
        if b1[from].kind != BlockKind::Free {
            lemma_next_free_agree(b1, b2, from + 1);
        }
    }
}

/// How a block added at the end changes the next free block: not at all
/// where one was found before; else the new block is it if it is free.
pub proof fn lemma_next_free_push(blocks: Seq<Block>, b: Block, from: int)
    requires
        0 <= from <= blocks.len(),
    ensures
        next_free(blocks, from) < blocks.len() ==> next_free(blocks.push(b), from) == next_free(
            blocks,
            from,
        ),
        next_free(blocks, from) == blocks.len() && b.kind == BlockKind::Free ==> next_free(
            blocks.push(b),
            from,
        ) == blocks.len(),
        next_free(blocks, from) == blocks.len() && b.kind != BlockKind::Free ==> next_free(
            blocks.push(b),
            from,
        ) == blocks.len() + 1,
{
    let r = next_free(blocks, from);
    let b2 = blocks.push(b);
    lemma_next_free(blocks, from);
    assert forall|j: int| from <= j < r implies (#[trigger] b2[j]).kind != BlockKind::Free by {
        assert(blocks[j].kind != BlockKind::Free);
    }
    if r < blocks.len() {
        assert(b2[r] == blocks[r]);
        lemma_next_free_is(b2, from, r);
    } else if b.kind == BlockKind::Free {
        lemma_next_free_is(b2, from, r);
    } else {
        lemma_next_free_is(b2, from, r + 1);
    }
}

proof fn lemma_step_tiles(prev: Seq<Block>, b: Block, live: bool, from: int)
    requires
        tiles(prev, from, b.addr),
        b.size >= 2,
        b.size % 2 == 0,
    ensures
        tiles(sweep_step(prev, b, live), from, b.addr + b.size),
{
    let out = sweep_step(prev, b, live);
    let merge = !live && prev.len() > 0 && prev.last().kind == BlockKind::Free;
    assert forall|x: int| 0 <= x < out.len() implies (#[trigger] out[x]).size >= 2 && out[x].size
        % 2 == 0 by {
        if x < prev.len() {
            assert(prev[x].size >= 2);
        }
    }
    assert forall|x: int, y: int| 0 <= x && y == x + 1 && y < out.len() implies (
    #[trigger] out[x]).addr + out[x].size == (#[trigger] out[y]).addr by {
        if y < prev.len() {
            assert(prev[x].addr + prev[x].size == prev[y].addr);
        }
    }
}

proof fn lemma_step_objects_are_live(prev: Seq<Block>, front: Seq<Block>, b: Block, live: Set<int>)
    requires
        objects_are_live(prev, front, live),
    ensures
        objects_are_live(sweep_step(prev, b, live.contains(b.addr)), front.push(b), live),
{
    let out = sweep_step(prev, b, live.contains(b.addr));
    let blocks = front.push(b);
    assert forall|j: int|
        0 <= j < out.len() && (#[trigger] out[j]).kind == BlockKind::Object implies live.contains(
        out[j].addr,
    ) && has_extent(blocks, out[j].addr, out[j].size) by {
        if j < prev.len() {
            assert(prev[j].kind == BlockKind::Object);
            let i = choose|i: int|
                0 <= i < front.len() && (#[trigger] front[i]).addr == prev[j].addr && front[i].size
                    == prev[j].size;
            assert(blocks[i] == front[i]);
        } else {
            assert(blocks[front.len() as int] == b);
        }
    }
}

proof fn lemma_step_rest_is_free(prev: Seq<Block>, front: Seq<Block>, b: Block, live: Set<int>)
    requires
        rest_is_free(prev, front, live),
    ensures
        rest_is_free(sweep_step(prev, b, live.contains(b.addr)), front.push(b), live),
{
    let out = sweep_step(prev, b, live.contains(b.addr));
    let blocks = front.push(b);
    assert forall|j: int|
        0 <= j < out.len() && (#[trigger] out[j]).kind != BlockKind::Object implies out[j].kind
        == BlockKind::Free && !live.contains(out[j].addr) && is_block_start(
        blocks,
        out[j].addr,
    ) by {
        if j < prev.len() {
            assert(prev[j].kind != BlockKind::Object);
            let i = choose|i: int| 0 <= i < front.len() && (#[trigger] front[i]).addr == prev[j].addr;
            assert(blocks[i] == front[i]);
        } else {
            assert(blocks[front.len() as int] == b);
        }
    }
}

proof fn lemma_step_live_are_objects(prev: Seq<Block>, front: Seq<Block>, b: Block, live: Set<int>)
    requires
        live_are_objects(prev, front, live),
    ensures
        live_are_objects(sweep_step(prev, b, live.contains(b.addr)), front.push(b), live),
{
    let out = sweep_step(prev, b, live.contains(b.addr));
    let blocks = front.push(b);
    assert forall|i: int|
        0 <= i < blocks.len() && live.contains((#[trigger] blocks[i]).addr) implies has_object(
        out,
        blocks[i].addr,
        blocks[i].size,
    ) by {
        if i < front.len() {
            assert(front[i] == blocks[i]);
            let j = choose|j: int|
                0 <= j < prev.len() && (#[trigger] prev[j]).addr == front[i].addr && prev[j].size
                    == front[i].size && prev[j].kind == BlockKind::Object;
            assert(out[j] == prev[j]);
        } else {
            assert(out[prev.len() as int].kind == BlockKind::Object);
        }
    }
}

proof fn lemma_step_no_adjacent_free(prev: Seq<Block>, b: Block, live: bool)
    requires
        no_adjacent_free(prev),
    ensures
        no_adjacent_free(sweep_step(prev, b, live)),
{
    let out = sweep_step(prev, b, live);
    assert forall|x: int, y: int| 0 <= x && y == x + 1 && y < out.len() implies !((
    #[trigger] out[x]).kind == BlockKind::Free && (#[trigger] out[y]).kind
        == BlockKind::Free) by {
        if y < prev.len() {
            assert(!(prev[x].kind == BlockKind::Free && prev[y].kind == BlockKind::Free));
        }
    }
}

/// What a sweep makes of a tiling: a tiling of the same range that relates
/// to the blocks before as `is_sweep_of` says.
pub proof fn lemma_swept(blocks: Seq<Block>, live: Set<int>, from: int, to: int)
    requires
        tiles(blocks, from, to),
    ensures
        tiles(swept(blocks, live), from, to),
        is_sweep_of(swept(blocks, live), blocks, live),
    decreases blocks.len(),
{
    if blocks.len() > 0 {
        let front = blocks.drop_last();
        let b = blocks.last();
        let prev = swept(front, live);
        assert(front =~= blocks.take(blocks.len() - 1));
        assert(blocks =~= front.push(b));
        lemma_tiles_take(blocks, from, to, blocks.len() - 1);
        lemma_swept(front, live, from, b.addr);
        assert(blocks[blocks.len() - 1] == b);
        lemma_step_tiles(prev, b, live.contains(b.addr), from);
        lemma_step_objects_are_live(prev, front, b, live);
        lemma_step_rest_is_free(prev, front, b, live);
        lemma_step_live_are_objects(prev, front, b, live);
        lemma_step_no_adjacent_free(prev, b, live.contains(b.addr));
    }
}

/// What one step of the sweep adds to the tallies: the block's size, to the
/// slots that are not free if the block is live, and to the free ones if not.
pub proof fn lemma_slots_step(out: Seq<Block>, b: Block, live: bool)
    ensures
        slots_of(sweep_step(out, b, live), false) == slots_of(out, false) + if live {
            b.size
        } else {
            0
        },
        slots_of(sweep_step(out, b, live), true) == slots_of(out, true) + if live {
            0
        } else {
            b.size
        },
{
    let next = sweep_step(out, b, live);
    if live || !(out.len() > 0 && out.last().kind == BlockKind::Free) {
        assert(next.drop_last() =~= out);
    } else {
        assert(next.drop_last() =~= out.drop_last());
    }
}

/// The free and the other blocks of a tiling fill its range.
pub proof fn lemma_slots_total(blocks: Seq<Block>, from: int, to: int)
    requires
        tiles(blocks, from, to),
    ensures
        slots_of(blocks, false) + slots_of(blocks, true) == to - from,
    decreases blocks.len(),
{
    if blocks.len() > 0 {
        let front = blocks.drop_last();
        assert(front =~= blocks.take(blocks.len() - 1));
        lemma_tiles_take(blocks, from, to, blocks.len() - 1);
        lemma_slots_total(front, from, blocks.last().addr);
    }
}

} // verus!
