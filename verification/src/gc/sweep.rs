//! The sweep phase: one pass over the heap that reclaims the unmarked blocks,
//! merges neighbouring ones and rebuilds the free list.

use super::{
    headers_ok, lemma_header, lemma_headers_kept, links_ok, next_free_addr, payloads_of, ref_ok,
    refs_ok, roots_ok, Memory,
};
use crate::bitmap::set_bits;
use crate::lemmas::{
    lemma_block_index, lemma_distinct_starts, lemma_interior, lemma_next_free,
    lemma_next_free_agree, lemma_next_free_push, lemma_slots_step, lemma_slots_total,
    lemma_starts_below, lemma_swept, lemma_tiles_bounds, lemma_tiles_disjoint,
    lemma_tiles_ordered, lemma_tiles_take,
};
use crate::model::{
    addr_or_zero, has_block, is_block_start, is_sweep_of, limit_of, next_free, no_adjacent_free,
    slots_of, sweep_step, swept, tiles, Block, BlockKind,
};
use crate::reach::lemma_root_reachable;
use vstd::prelude::*;

verus! {

/// The state of a sweep that has handled the first `k` blocks.
struct SweepState {
    k: int,
    out: Seq<Block>,
    mem: Seq<usize>,
    marks: Seq<bool>,
    head: usize,
    tail: usize,
}

/// The address that a sweep has reached when it has handled `k` blocks.
spec fn scan_of(old_blocks: Seq<Block>, to: int, k: int) -> int {
    if k < old_blocks.len() {
        old_blocks[k].addr
    } else {
        to
    }
}

/// Index of the last free block, or -1.
spec fn last_free(out: Seq<Block>) -> int
    decreases out.len(),
{
    if out.len() == 0 {
        -1
    } else if out.last().kind == BlockKind::Free {
        out.len() - 1
    } else {
        last_free(out.drop_last())
    }
}

proof fn lemma_last_free(out: Seq<Block>)
    ensures
        -1 <= last_free(out) < out.len(),
        last_free(out) >= 0 ==> out[last_free(out)].kind == BlockKind::Free,
        forall|j: int| last_free(out) < j < out.len() ==> (#[trigger] out[j]).kind != BlockKind::Free,
    decreases out.len(),
{
    if out.len() > 0 && out.last().kind != BlockKind::Free {
        lemma_last_free(out.drop_last());
        assert forall|j: int| last_free(out) < j < out.len() implies (#[trigger] out[j]).kind
            != BlockKind::Free by {
            if j < out.len() - 1 {
                assert(out.drop_last()[j] == out[j]);
            }
        }
    }
}

/// What every sweep relies on: the blocks tile the heap with their sizes in
/// their headers, and every address in `live` is the start of a block.
spec fn sweep_pre(old_blocks: Seq<Block>, old_mem: Seq<usize>, live: Set<int>) -> bool {
    &&& 3 <= old_mem.len() <= usize::MAX
    &&& tiles(old_blocks, 1, limit_of(old_mem.len() as int))
    &&& headers_ok(old_blocks, old_mem)
    &&& live_starts(old_blocks, live)
}

/// Every address in `live` is the start of a block.
#[verifier::opaque]
spec fn live_starts(old_blocks: Seq<Block>, live: Set<int>) -> bool {
    forall|a: int| #[trigger] live.contains(a) ==> is_block_start(old_blocks, a)
}

/// The index of the block that starts at an address in `live`.
proof fn lemma_live_index(old_blocks: Seq<Block>, live: Set<int>, a: int) -> (i: int)
    requires
        live_starts(old_blocks, live),
        live.contains(a),
    ensures
        0 <= i < old_blocks.len(),
        old_blocks[i].addr == a,
{
    reveal(live_starts);
    choose|i: int| 0 <= i < old_blocks.len() && (#[trigger] old_blocks[i]).addr == a
}

/// What a sweep after a trace relies on besides: the addresses in `live`
/// are objects, and what their payload slots and the roots refer to is in
/// `live` too.
spec fn trace_pre(
    old_blocks: Seq<Block>,
    old_mem: Seq<usize>,
    roots: Seq<usize>,
    live: Set<int>,
) -> bool {
    &&& refs_ok(old_blocks, old_mem)
    &&& roots_ok(old_blocks, roots)
    &&& live_are_blocks(old_blocks, live)
    &&& live_closed(old_blocks, old_mem, roots, live)
}

/// Every address in `live` is the start of an object.
#[verifier::opaque]
spec fn live_are_blocks(old_blocks: Seq<Block>, live: Set<int>) -> bool {
    forall|a: int| #[trigger] live.contains(a) ==> has_block(old_blocks, a, BlockKind::Object)
}

/// What the roots and the payload slots of the blocks in `live` refer to is
/// in `live`.
#[verifier::opaque]
spec fn live_closed(
    old_blocks: Seq<Block>,
    old_mem: Seq<usize>,
    roots: Seq<usize>,
    live: Set<int>,
) -> bool {
    &&& forall|i: int, p: int|
        0 <= i < old_blocks.len() && live.contains((#[trigger] old_blocks[i]).addr)
            && old_blocks[i].addr < p < old_blocks[i].addr + old_blocks[i].size
            && #[trigger] old_mem[p] != 0 ==> live.contains(old_mem[p] as int)
    &&& forall|r: int| 0 <= r < roots.len() && #[trigger] roots[r] != 0 ==> live.contains(roots[r] as int)
}

/// `is_sweep_of`, folded away until it is needed.
#[verifier::opaque]
spec fn sweep_rel(out: Seq<Block>, blocks: Seq<Block>, live: Set<int>) -> bool {
    is_sweep_of(out, blocks, live)
}

/// The headers of the blocks not handled yet are as they were.
#[verifier::opaque]
spec fn rest_intact(old_blocks: Seq<Block>, mem: Seq<usize>, k: int) -> bool {
    forall|i: int|
        k <= i < old_blocks.len() ==> mem[(#[trigger] old_blocks[i]).addr] == old_blocks[i].size
}

/// The slots of the live blocks are as they were.
#[verifier::opaque]
spec fn live_intact(
    old_blocks: Seq<Block>,
    old_mem: Seq<usize>,
    mem: Seq<usize>,
    live: Set<int>,
) -> bool {
    forall|i: int, p: int|
        0 <= i < old_blocks.len() && live.contains((#[trigger] old_blocks[i]).addr)
            && old_blocks[i].addr <= p < old_blocks[i].addr + old_blocks[i].size
            ==> #[trigger] mem[p] == old_mem[p]
}

/// The mark bits still set are those of the live blocks not handled yet.
#[verifier::opaque]
spec fn marks_ahead(
    old_blocks: Seq<Block>,
    live: Set<int>,
    marks: Seq<bool>,
    k: int,
    scan: int,
) -> bool {
    &&& forall|a: int| 0 <= a < marks.len() && #[trigger] marks[a] ==> live.contains(a) && a >= scan
    &&& forall|i: int|
        k <= i < old_blocks.len() && live.contains((#[trigger] old_blocks[i]).addr)
            ==> marks[old_blocks[i].addr]
}

/// What holds of a sweep between two blocks.
spec fn sweep_inv(
    old_blocks: Seq<Block>,
    old_mem: Seq<usize>,
    live: Set<int>,
    s: SweepState,
) -> bool {
    let to = limit_of(old_mem.len() as int);
    let scan = scan_of(old_blocks, to, s.k);
    &&& s.mem.len() == old_mem.len()
    &&& s.mem[0] == old_mem[0]
    &&& s.marks.len() == old_mem.len()
    &&& 0 <= s.k <= old_blocks.len()
    &&& s.out == swept(old_blocks.take(s.k), live)
    &&& tiles(s.out, 1, scan)
    &&& sweep_rel(s.out, old_blocks.take(s.k), live)
    &&& headers_ok(s.out, s.mem)
    &&& links_ok(s.out, s.mem, s.head)
    &&& s.tail == addr_or_zero(s.out, last_free(s.out))
    &&& rest_intact(old_blocks, s.mem, s.k)
    &&& live_intact(old_blocks, old_mem, s.mem, live)
    &&& marks_ahead(old_blocks, live, s.marks, s.k, scan)
}

/// Handling block `k` takes the blocks produced so far one sweep step on.
proof fn lemma_sweep_out(old_blocks: Seq<Block>, live: Set<int>, to: int, k: int)
    requires
        tiles(old_blocks, 1, to),
        0 <= k < old_blocks.len(),
    ensures
        swept(old_blocks.take(k + 1), live) == sweep_step(
            swept(old_blocks.take(k), live),
            old_blocks[k],
            live.contains(old_blocks[k].addr),
        ),
        tiles(swept(old_blocks.take(k + 1), live), 1, scan_of(old_blocks, to, k + 1)),
        sweep_rel(swept(old_blocks.take(k + 1), live), old_blocks.take(k + 1), live),
        scan_of(old_blocks, to, k + 1) == old_blocks[k].addr + old_blocks[k].size,
        1 <= old_blocks[k].addr,
        old_blocks[k].addr + old_blocks[k].size <= to,
        old_blocks[k].size >= 2,
{
    reveal(sweep_rel);
    let next = old_blocks.take(k + 1);
    assert(next.drop_last() =~= old_blocks.take(k));
    assert(next.last() == old_blocks[k]);
    lemma_tiles_take(old_blocks, 1, to, k + 1);
    lemma_swept(next, live, 1, scan_of(old_blocks, to, k + 1));
    lemma_tiles_bounds(old_blocks, 1, to, k);
    if k + 1 < old_blocks.len() {
        assert(old_blocks[k].addr + old_blocks[k].size == old_blocks[k + 1].addr);
    }
}

/// A slot of a dead block is no slot of a live block.
proof fn lemma_dead_slot(
    old_blocks: Seq<Block>,
    old_mem: Seq<usize>,
    mem: Seq<usize>,
    live: Set<int>,
    d: int,
    w: int,
    v: usize,
)
    requires
        tiles(old_blocks, 1, limit_of(old_mem.len() as int)),
        live_intact(old_blocks, old_mem, mem, live),
        mem.len() == old_mem.len(),
        0 <= d < old_blocks.len(),
        !live.contains(old_blocks[d].addr),
        old_blocks[d].addr <= w < old_blocks[d].addr + old_blocks[d].size,
        0 <= w < mem.len(),
    ensures
        live_intact(old_blocks, old_mem, mem.update(w, v), live),
{
    reveal(live_intact);
    let to = limit_of(old_mem.len() as int);
    assert forall|i: int, p: int|
        0 <= i < old_blocks.len() && live.contains((#[trigger] old_blocks[i]).addr)
            && old_blocks[i].addr <= p < old_blocks[i].addr + old_blocks[i].size implies #[trigger] mem.update(
        w,
        v,
    )[p] == old_mem[p] by {
        lemma_tiles_bounds(old_blocks, 1, to, i);
        if i < d {
            lemma_tiles_ordered(old_blocks, 1, to, i, d);
        } else if d < i {
            lemma_tiles_ordered(old_blocks, 1, to, d, i);
        }
        assert(mem[p] == old_mem[p]);
    }
}

/// A write below the start of block `k + 1` and off the start of block `k`
/// leaves the headers of the blocks from `k` on as they were.
proof fn lemma_rest_kept(old_blocks: Seq<Block>, to: int, mem: Seq<usize>, k: int, w: int, v: usize)
    requires
        tiles(old_blocks, 1, to),
        to <= mem.len(),
        rest_intact(old_blocks, mem, k),
        0 <= k < old_blocks.len(),
        0 <= w < old_blocks[k].addr + old_blocks[k].size,
        w != old_blocks[k].addr,
        w < mem.len(),
    ensures
        rest_intact(old_blocks, mem.update(w, v), k),
{
    reveal(rest_intact);
    assert forall|i: int| k <= i < old_blocks.len() implies mem.update(w, v)[(
    #[trigger] old_blocks[i]).addr] == old_blocks[i].size by {
        lemma_tiles_bounds(old_blocks, 1, to, i);
        if k < i {
            lemma_tiles_ordered(old_blocks, 1, to, k, i);
        }
    }
}

/// The headers after a block was added whose header slot holds its size.
proof fn lemma_headers_push(out: Seq<Block>, mem: Seq<usize>, b: Block)
    requires
        headers_ok(out, mem),
        0 <= b.addr < mem.len(),
        mem[b.addr] == b.size,
    ensures
        headers_ok(out.push(b), mem),
{
    reveal(headers_ok);
    let out2 = out.push(b);
    assert forall|i: int| 0 <= i < out2.len() implies 0 <= (#[trigger] out2[i]).addr < mem.len()
        && mem[out2[i].addr] == out2[i].size by {
        if i < out.len() {
            assert(out[i] == out2[i]);
        }
    }
}

/// The free list after a block was added that is not free.
proof fn lemma_links_push_other(out: Seq<Block>, mem: Seq<usize>, head: usize, b: Block)
    requires
        links_ok(out, mem, head),
        b.kind != BlockKind::Free,
    ensures
        links_ok(out.push(b), mem, head),
        last_free(out.push(b)) == last_free(out),
{
    reveal(links_ok);
    let out2 = out.push(b);
    assert(out2.drop_last() =~= out);
    lemma_next_free_push(out, b, 0);
    lemma_next_free(out, 0);
    assert forall|i: int|
        0 <= i < out2.len() && (#[trigger] out2[i]).kind == BlockKind::Free implies mem[out2[i].addr
        + 1] == next_free_addr(out2, i + 1) by {
        assert(out[i] == out2[i]);
        lemma_next_free_push(out, b, i + 1);
        lemma_next_free(out, i + 1);
    }
}

/// The free list after a free block was added behind the last free block,
/// or as the first one, with the link slots written.
proof fn lemma_links_push_free(
    out: Seq<Block>,
    mem: Seq<usize>,
    mem2: Seq<usize>,
    head: usize,
    b: Block,
    head2: usize,
)
    requires
        links_ok(out, mem, head),
        tiles(out, 1, b.addr),
        b.kind == BlockKind::Free,
        1 <= b.addr,
        mem2.len() == mem.len(),
        b.addr + 1 < mem.len() <= usize::MAX,
        mem2[b.addr + 1] == 0,
        forall|i: int|
            0 <= i < out.len() && (#[trigger] out[i]).kind == BlockKind::Free && i != last_free(
                out,
            ) ==> mem2[out[i].addr + 1] == mem[out[i].addr + 1],
        last_free(out) >= 0 ==> mem2[out[last_free(out)].addr + 1] == b.addr && head2 == head,
        last_free(out) < 0 ==> head2 == b.addr,
    ensures
        links_ok(out.push(b), mem2, head2),
        last_free(out.push(b)) == out.len(),
{
    reveal(links_ok);
    let out2 = out.push(b);
    let t = last_free(out);
    lemma_last_free(out);
    assert(out2.drop_last() =~= out);
    lemma_next_free_push(out, b, 0);
    lemma_next_free(out, 0);
    if t >= 0 {
        assert(out[t].kind == BlockKind::Free);
    }
    assert forall|i: int|
        0 <= i < out2.len() && (#[trigger] out2[i]).kind == BlockKind::Free implies mem2[out2[i].addr
        + 1] == next_free_addr(out2, i + 1) by {
        if i < out.len() {
            assert(out[i] == out2[i]);
            lemma_next_free_push(out, b, i + 1);
            lemma_next_free(out, i + 1);
            if i < t {
                assert(out[t].kind == BlockKind::Free);
            }
        }
    }
}

/// The free list and the headers after the last block, a free one, grew by
/// `more` slots.
proof fn lemma_merge(out: Seq<Block>, mem: Seq<usize>, head: usize, to: int, more: int)
    requires
        headers_ok(out, mem),
        links_ok(out, mem, head),
        tiles(out, 1, to),
        to <= mem.len(),
        out.len() > 0,
        out.last().kind == BlockKind::Free,
        0 <= out.last().size + more <= usize::MAX,
    ensures
        headers_ok(
            out.update(out.len() - 1, Block { size: out.last().size + more, ..out.last() }),
            mem.update(out.last().addr, (out.last().size + more) as usize),
        ),
        links_ok(
            out.update(out.len() - 1, Block { size: out.last().size + more, ..out.last() }),
            mem.update(out.last().addr, (out.last().size + more) as usize),
            head,
        ),
        last_free(out.update(out.len() - 1, Block { size: out.last().size + more, ..out.last() }))
            == last_free(out),
{
    reveal(headers_ok);
    reveal(links_ok);
    let n = out.len() - 1;
    let out2 = out.update(n, Block { size: out.last().size + more, ..out.last() });
    let mem2 = mem.update(out.last().addr, (out.last().size + more) as usize);
    assert forall|i: int| 0 <= i < out2.len() implies 0 <= (#[trigger] out2[i]).addr < mem2.len()
        && mem2[out2[i].addr] == out2[i].size by {
        if i < n {
            assert(out[i] == out2[i]);
            lemma_tiles_ordered(out, 1, to, i, n);
            lemma_tiles_bounds(out, 1, to, i);
        }
    }
    lemma_next_free_agree(out2, out, 0);
    assert forall|i: int|
        0 <= i < out2.len() && (#[trigger] out2[i]).kind == BlockKind::Free implies mem2[out2[i].addr
        + 1] == next_free_addr(out2, i + 1) by {
        assert(out[i].kind == BlockKind::Free);
        lemma_next_free_agree(out2, out, i + 1);
        lemma_next_free(out, i + 1);
        lemma_tiles_bounds(out, 1, to, i);
        if i < n {
            lemma_tiles_ordered(out, 1, to, i, n);
        }
    }
}

/// The mark bits after block `k` was handled and its own bit, if it was
/// set, cleared.
proof fn lemma_marks_step(
    old_blocks: Seq<Block>,
    old_mem: Seq<usize>,
    live: Set<int>,
    marks: Seq<bool>,
    k: int,
)
    requires
        sweep_pre(old_blocks, old_mem, live),
        marks.len() == old_mem.len(),
        0 <= k < old_blocks.len(),
        marks_ahead(old_blocks, live, marks, k, old_blocks[k].addr),
    ensures
        marks[old_blocks[k].addr] == live.contains(old_blocks[k].addr),
        marks_ahead(
            old_blocks,
            live,
            marks.update(old_blocks[k].addr, false),
            k + 1,
            old_blocks[k].addr + old_blocks[k].size,
        ),
{
    reveal(marks_ahead);
    let to = limit_of(old_mem.len() as int);
    let b = old_blocks[k];
    let marks2 = marks.update(b.addr, false);
    lemma_tiles_bounds(old_blocks, 1, to, k);
    assert forall|a: int| 0 <= a < marks2.len() && #[trigger] marks2[a] implies live.contains(a)
        && a >= b.addr + b.size by {
        assert(marks[a]);
        let i = lemma_live_index(old_blocks, live, a);
        if i < k {
            lemma_tiles_ordered(old_blocks, 1, to, i, k);
        } else if k < i {
            lemma_tiles_ordered(old_blocks, 1, to, k, i);
        }
    }
    assert forall|i: int|
        k + 1 <= i < old_blocks.len() && live.contains(
            (#[trigger] old_blocks[i]).addr,
        ) implies marks2[old_blocks[i].addr] by {
        lemma_tiles_ordered(old_blocks, 1, to, k, i);
        lemma_tiles_bounds(old_blocks, 1, to, i);
    }
}

/// The sweep keeps a marked block as an object.
proof fn lemma_sweep_keep(
    old_blocks: Seq<Block>,
    old_mem: Seq<usize>,
    live: Set<int>,
    s: SweepState,
)
    requires
        sweep_pre(old_blocks, old_mem, live),
        sweep_inv(old_blocks, old_mem, live, s),
        s.k < old_blocks.len(),
        s.marks[old_blocks[s.k].addr],
    ensures
        sweep_inv(
            old_blocks,
            old_mem,
            live,
            SweepState {
                k: s.k + 1,
                out: sweep_step(s.out, old_blocks[s.k], true),
                marks: s.marks.update(old_blocks[s.k].addr, false),
                ..s
            },
        ),
{
    let to = limit_of(old_mem.len() as int);
    let b = old_blocks[s.k];
    let kept = Block { kind: BlockKind::Object, ..b };
    lemma_marks_step(old_blocks, old_mem, live, s.marks, s.k);
    lemma_sweep_out(old_blocks, live, to, s.k);
    assert(s.mem[b.addr] == b.size) by {
        reveal(rest_intact);
    }
    lemma_headers_push(s.out, s.mem, kept);
    lemma_links_push_other(s.out, s.mem, s.head, kept);
    lemma_last_free(s.out);
    assert(rest_intact(old_blocks, s.mem, s.k + 1)) by {
        reveal(rest_intact);
    }
}

/// What the sweep knows of a block whose mark bit is clear, and of the
/// last free block before it.
proof fn lemma_sweep_dead(
    old_blocks: Seq<Block>,
    old_mem: Seq<usize>,
    live: Set<int>,
    s: SweepState,
) -> (d: int)
    requires
        sweep_pre(old_blocks, old_mem, live),
        sweep_inv(old_blocks, old_mem, live, s),
        s.k < old_blocks.len(),
        !s.marks[old_blocks[s.k].addr],
    ensures
        !live.contains(old_blocks[s.k].addr),
        s.mem[old_blocks[s.k].addr] == old_blocks[s.k].size,
        marks_ahead(
            old_blocks,
            live,
            s.marks,
            s.k + 1,
            old_blocks[s.k].addr + old_blocks[s.k].size,
        ),
        rest_intact(old_blocks, s.mem, s.k + 1),
        (s.tail == 0) == (last_free(s.out) < 0),
        s.tail != 0 ==> {
            &&& 0 <= d < s.k
            &&& old_blocks[d].addr == s.tail
            &&& !live.contains(s.tail as int)
            &&& s.out[last_free(s.out)].addr == s.tail
            &&& s.mem[s.tail as int] == s.out[last_free(s.out)].size
            &&& s.tail + 2 <= old_blocks[s.k].addr
            &&& s.tail + s.mem[s.tail as int] <= old_blocks[s.k].addr
            &&& (s.tail + s.mem[s.tail as int] == old_blocks[s.k].addr) == (s.out.last().kind
                == BlockKind::Free)
        },
        s.tail == 0 ==> (s.out.len() > 0 ==> s.out.last().kind != BlockKind::Free),
{
    let to = limit_of(old_mem.len() as int);
    let b = old_blocks[s.k];
    let t = last_free(s.out);
    lemma_tiles_bounds(old_blocks, 1, to, s.k);
    lemma_marks_step(old_blocks, old_mem, live, s.marks, s.k);
    assert(s.marks.update(b.addr, false) =~= s.marks);
    assert(s.mem[b.addr] == b.size && rest_intact(old_blocks, s.mem, s.k + 1)) by {
        reveal(rest_intact);
    }
    lemma_last_free(s.out);
    if t >= 0 {
        lemma_tiles_bounds(s.out, 1, b.addr, t);
        lemma_header(s.out, s.mem, t);
        assert(s.out[t].kind != BlockKind::Object);
        reveal(sweep_rel);
        let front = old_blocks.take(s.k);
        let d = choose|d: int| 0 <= d < front.len() && (#[trigger] front[d]).addr == s.out[t].addr;
        assert(front[d] == old_blocks[d]);
        if t < s.out.len() - 1 {
            lemma_tiles_ordered(s.out, 1, b.addr, t, s.out.len() - 1);
            lemma_tiles_bounds(s.out, 1, b.addr, s.out.len() - 1);
        }
        d
    } else {
        0
    }
}

/// The sweep makes an unmarked block the first block of the free list.
proof fn lemma_sweep_first(
    old_blocks: Seq<Block>,
    old_mem: Seq<usize>,
    live: Set<int>,
    s: SweepState,
)
    requires
        sweep_pre(old_blocks, old_mem, live),
        sweep_inv(old_blocks, old_mem, live, s),
        s.k < old_blocks.len(),
        !s.marks[old_blocks[s.k].addr],
        s.tail == 0,
    ensures
        sweep_inv(
            old_blocks,
            old_mem,
            live,
            SweepState {
                k: s.k + 1,
                out: sweep_step(s.out, old_blocks[s.k], false),
                mem: s.mem.update(old_blocks[s.k].addr + 1, 0),
                head: old_blocks[s.k].addr as usize,
                tail: old_blocks[s.k].addr as usize,
                ..s
            },
        ),
{
    let to = limit_of(old_mem.len() as int);
    let b = old_blocks[s.k];
    let freed = Block { kind: BlockKind::Free, ..b };
    let mem2 = s.mem.update(b.addr + 1, 0);
    lemma_sweep_dead(old_blocks, old_mem, live, s);
    lemma_sweep_out(old_blocks, live, to, s.k);
    lemma_starts_below(s.out, b.addr);
    lemma_headers_kept(s.out, s.mem, b.addr + 1, 0);
    lemma_headers_push(s.out, mem2, freed);
    lemma_links_push_free(s.out, s.mem, mem2, s.head, freed, b.addr as usize);
    lemma_rest_kept(old_blocks, to, s.mem, s.k, b.addr + 1, 0);
    assert(rest_intact(old_blocks, mem2, s.k + 1)) by {
        reveal(rest_intact);
    }
    lemma_dead_slot(old_blocks, old_mem, s.mem, live, s.k, b.addr + 1, 0);
}

/// The sweep merges an unmarked block into the free block that ends where
/// it starts.
proof fn lemma_sweep_merge(
    old_blocks: Seq<Block>,
    old_mem: Seq<usize>,
    live: Set<int>,
    s: SweepState,
)
    requires
        sweep_pre(old_blocks, old_mem, live),
        sweep_inv(old_blocks, old_mem, live, s),
        s.k < old_blocks.len(),
        !s.marks[old_blocks[s.k].addr],
        s.tail != 0,
        s.tail + s.mem[s.tail as int] == old_blocks[s.k].addr,
    ensures
        s.mem[s.tail as int] + old_blocks[s.k].size <= usize::MAX,
        sweep_inv(
            old_blocks,
            old_mem,
            live,
            SweepState {
                k: s.k + 1,
                out: sweep_step(s.out, old_blocks[s.k], false),
                mem: s.mem.update(
                    s.tail as int,
                    (s.mem[s.tail as int] + old_blocks[s.k].size) as usize,
                ),
                ..s
            },
        ),
{
    let to = limit_of(old_mem.len() as int);
    let b = old_blocks[s.k];
    let grown = (s.mem[s.tail as int] + b.size) as usize;
    let mem2 = s.mem.update(s.tail as int, grown);
    let d = lemma_sweep_dead(old_blocks, old_mem, live, s);
    lemma_sweep_out(old_blocks, live, to, s.k);
    lemma_last_free(s.out);
    lemma_merge(s.out, s.mem, s.head, b.addr, b.size);
    lemma_rest_kept(old_blocks, to, s.mem, s.k, s.tail as int, grown);
    assert(rest_intact(old_blocks, mem2, s.k + 1)) by {
        reveal(rest_intact);
    }
    lemma_tiles_bounds(old_blocks, 1, to, d);
    lemma_dead_slot(old_blocks, old_mem, s.mem, live, d, s.tail as int, grown);
}

/// The sweep links an unmarked block behind the last free block, which
/// ends before it starts.
proof fn lemma_sweep_link(
    old_blocks: Seq<Block>,
    old_mem: Seq<usize>,
    live: Set<int>,
    s: SweepState,
)
    requires
        sweep_pre(old_blocks, old_mem, live),
        sweep_inv(old_blocks, old_mem, live, s),
        s.k < old_blocks.len(),
        !s.marks[old_blocks[s.k].addr],
        s.tail != 0,
        s.tail + s.mem[s.tail as int] != old_blocks[s.k].addr,
    ensures
        sweep_inv(
            old_blocks,
            old_mem,
            live,
            SweepState {
                k: s.k + 1,
                out: sweep_step(s.out, old_blocks[s.k], false),
                mem: s.mem.update(s.tail + 1, old_blocks[s.k].addr as usize).update(
                    old_blocks[s.k].addr + 1,
                    0,
                ),
                tail: old_blocks[s.k].addr as usize,
                ..s
            },
        ),
{
    let to = limit_of(old_mem.len() as int);
    let b = old_blocks[s.k];
    let freed = Block { kind: BlockKind::Free, ..b };
    let t = last_free(s.out);
    let mem1 = s.mem.update(s.tail + 1, b.addr as usize);
    let mem2 = mem1.update(b.addr + 1, 0);
    let d = lemma_sweep_dead(old_blocks, old_mem, live, s);
    lemma_sweep_out(old_blocks, live, to, s.k);
    lemma_last_free(s.out);
    lemma_starts_below(s.out, b.addr);
    lemma_interior(s.out, b.addr, t, s.tail + 1);
    lemma_distinct_starts(s.out, b.addr, t);
    lemma_headers_kept(s.out, s.mem, s.tail + 1, b.addr as usize);
    lemma_headers_kept(s.out, mem1, b.addr + 1, 0);
    lemma_headers_push(s.out, mem2, freed);
    lemma_links_push_free(s.out, s.mem, mem2, s.head, freed, s.head);
    lemma_rest_kept(old_blocks, to, s.mem, s.k, s.tail + 1, b.addr as usize);
    lemma_rest_kept(old_blocks, to, mem1, s.k, b.addr + 1, 0);
    assert(rest_intact(old_blocks, mem2, s.k + 1)) by {
        reveal(rest_intact);
    }
    lemma_tiles_bounds(old_blocks, 1, to, d);
    lemma_dead_slot(old_blocks, old_mem, s.mem, live, d, s.tail + 1, b.addr as usize);
    lemma_dead_slot(old_blocks, old_mem, mem1, live, s.k, b.addr + 1, 0);
}

/// What holds when a sweep begins.
proof fn lemma_sweep_start(
    old_blocks: Seq<Block>,
    old_mem: Seq<usize>,
    live: Set<int>,
    marks: Seq<bool>,
)
    requires
        sweep_pre(old_blocks, old_mem, live),
        marks.len() == old_mem.len(),
        forall|a: int| 0 <= a < marks.len() ==> (#[trigger] marks[a] <==> live.contains(a)),
    ensures
        sweep_inv(
            old_blocks,
            old_mem,
            live,
            SweepState { k: 0, out: Seq::empty(), mem: old_mem, marks, head: 0, tail: 0 },
        ),
        old_blocks.len() > 0,
        old_blocks[0].addr == 1,
{
    let to = limit_of(old_mem.len() as int);
    let front = old_blocks.take(0);
    assert(front =~= Seq::empty());
    assert(swept(front, live) =~= Seq::empty());
    reveal(sweep_rel);
    reveal(headers_ok);
    reveal(links_ok);
    reveal(rest_intact);
    reveal(live_intact);
    reveal(marks_ahead);
    let out = Seq::<Block>::empty();
    assert(next_free(out, 0) == 0);
    assert forall|a: int| 0 <= a < marks.len() && #[trigger] marks[a] implies live.contains(a) && a
        >= 1 by {
        let i = lemma_live_index(old_blocks, live, a);
        lemma_tiles_bounds(old_blocks, 1, to, i);
    }
    assert forall|i: int|
        0 <= i < old_blocks.len() && live.contains(
            (#[trigger] old_blocks[i]).addr,
        ) implies marks[old_blocks[i].addr] by {
        lemma_tiles_bounds(old_blocks, 1, to, i);
    }
}

/// After a sweep that follows a trace, payload slots and roots refer to
/// objects.
proof fn lemma_sweep_refs(
    old_blocks: Seq<Block>,
    old_mem: Seq<usize>,
    roots: Seq<usize>,
    live: Set<int>,
    out: Seq<Block>,
    mem: Seq<usize>,
)
    requires
        sweep_pre(old_blocks, old_mem, live),
        trace_pre(old_blocks, old_mem, roots, live),
        mem.len() == old_mem.len(),
        is_sweep_of(out, old_blocks, live),
        live_intact(old_blocks, old_mem, mem, live),
    ensures
        refs_ok(out, mem),
        roots_ok(out, roots),
{
    reveal(refs_ok);
    reveal(roots_ok);
    reveal(live_intact);
    reveal(live_closed);
    reveal(live_are_blocks);
    let to = limit_of(old_mem.len() as int);
    assert forall|v: usize| v != 0 && live.contains(v as int) implies ref_ok(out, v) by {
        let i = lemma_block_index(old_blocks, v as int, BlockKind::Object);
        let j = choose|j: int|
            0 <= j < out.len() && (#[trigger] out[j]).addr == old_blocks[i].addr && out[j].size
                == old_blocks[i].size && out[j].kind == BlockKind::Object;
        assert(out[j].addr == v);
    }
    assert forall|j: int, p: int|
        0 <= j < out.len() && (#[trigger] out[j]).kind == BlockKind::Object && out[j].addr < p
            < out[j].addr + out[j].size implies ref_ok(out, #[trigger] mem[p]) by {
        let i = choose|i: int|
            0 <= i < old_blocks.len() && (#[trigger] old_blocks[i]).addr == out[j].addr
                && old_blocks[i].size == out[j].size;
        let i2 = lemma_block_index(old_blocks, out[j].addr, BlockKind::Object);
        lemma_tiles_bounds(old_blocks, 1, to, i);
        lemma_tiles_disjoint(old_blocks, 1, to, i, i2);
        assert(mem[p] == old_mem[p]);
        if old_mem[p] != 0 {
            assert(live.contains(old_mem[p] as int));
        }
    }
    assert forall|r: int| 0 <= r < roots.len() implies ref_ok(out, #[trigger] roots[r]) by {
        if roots[r] != 0 {
            assert(live.contains(roots[r] as int));
        }
    }
}

/// After a sweep that follows a trace, the payloads are those of the live
/// objects before it.
proof fn lemma_sweep_payloads(
    old_blocks: Seq<Block>,
    old_mem: Seq<usize>,
    roots: Seq<usize>,
    live: Set<int>,
    out: Seq<Block>,
    mem: Seq<usize>,
)
    requires
        sweep_pre(old_blocks, old_mem, live),
        trace_pre(old_blocks, old_mem, roots, live),
        mem.len() == old_mem.len(),
        is_sweep_of(out, old_blocks, live),
        live_intact(old_blocks, old_mem, mem, live),
    ensures
        payloads_of(out, mem) == payloads_of(old_blocks, old_mem).restrict(live),
{
    reveal(live_intact);
    reveal(live_are_blocks);
    reveal(headers_ok);
    let to = limit_of(old_mem.len() as int);
    let m1 = payloads_of(out, mem);
    let m2 = payloads_of(old_blocks, old_mem).restrict(live);
    assert forall|a: int| m1.dom().contains(a) <==> m2.dom().contains(a) by {
        if has_block(out, a, BlockKind::Object) {
            let j = lemma_block_index(out, a, BlockKind::Object);
            assert(live.contains(out[j].addr));
        }
        if has_block(old_blocks, a, BlockKind::Object) && live.contains(a) {
            let i = lemma_block_index(old_blocks, a, BlockKind::Object);
            let j = choose|j: int|
                0 <= j < out.len() && (#[trigger] out[j]).addr == old_blocks[i].addr && out[j].size
                    == old_blocks[i].size && out[j].kind == BlockKind::Object;
        }
    }
    assert forall|a: int| m1.dom().contains(a) implies #[trigger] m1[a] == m2[a] by {
        let i = lemma_block_index(old_blocks, a, BlockKind::Object);
        lemma_tiles_bounds(old_blocks, 1, to, i);
        assert(mem[a] == old_mem[a]);
        assert(m1[a] =~= m2[a]);
    }
    assert(m1 =~= m2);
}

/// What every finished sweep has established: the blocks are the swept
/// blocks, with their headers and links in place; no mark bit is set; the
/// slots of the marked blocks are as they were.
proof fn lemma_sweep_done(old_blocks: Seq<Block>, old_mem: Seq<usize>, live: Set<int>, s: SweepState)
    requires
        sweep_pre(old_blocks, old_mem, live),
        sweep_inv(old_blocks, old_mem, live, s),
        s.k == old_blocks.len(),
    ensures
        s.out == swept(old_blocks, live),
        tiles(s.out, 1, limit_of(old_mem.len() as int)),
        is_sweep_of(s.out, old_blocks, live),
        forall|a: int| 0 <= a < s.marks.len() ==> !(#[trigger] s.marks[a]),
        kept_intact(old_blocks, old_mem, s.mem, live),
{
    let to = limit_of(old_mem.len() as int);
    assert(old_blocks.take(s.k) =~= old_blocks);
    reveal(sweep_rel);
    assert forall|a: int| 0 <= a < s.marks.len() implies !(#[trigger] s.marks[a]) by {
        reveal(marks_ahead);
        if s.marks[a] {
            let i = lemma_live_index(old_blocks, live, a);
            lemma_tiles_bounds(old_blocks, 1, to, i);
        }
    }
    reveal(live_intact);
}

/// The slots of every block whose address is in `live`, header included,
/// are in `mem` what they were in `old_mem`.
pub(super) closed spec fn kept_intact(
    old_blocks: Seq<Block>,
    old_mem: Seq<usize>,
    mem: Seq<usize>,
    live: Set<int>,
) -> bool {
    forall|i: int, p: int|
        0 <= i < old_blocks.len() && live.contains((#[trigger] old_blocks[i]).addr)
            && old_blocks[i].addr <= p < old_blocks[i].addr + old_blocks[i].size
            ==> #[trigger] mem[p] == old_mem[p]
}

impl Memory {
    /// What the sweep may rely on after the mark phase.
    proof fn lemma_trace_pre(&self)
        requires
            self.mark_ok(),
            self.marks_are_reachable(),
        ensures
            trace_pre(self.blocks@, self.mem@, self.roots@, set_bits(self.mark_bits@)),
            set_bits(self.mark_bits@) == self@.live_set(),
    {
        let live = set_bits(self.mark_bits@);
        assert(live =~= self@.live_set()) by {
            assert forall|a: int| self@.reachable(a) implies live.contains(a) by {
                self.lemma_reachable_block(a);
            }
        }
        assert(live_are_blocks(self.blocks@, live)) by {
            reveal(live_are_blocks);
            assert forall|a: int| #[trigger] live.contains(a) implies has_block(
                self.blocks@,
                a,
                BlockKind::Object,
            ) by {
                self.lemma_reachable_block(a);
            }
        }
        assert(live_closed(self.blocks@, self.mem@, self.roots@, live)) by {
            reveal(live_closed);
            assert forall|i: int, p: int|
                0 <= i < self.blocks@.len() && live.contains((#[trigger] self.blocks@[i]).addr)
                    && self.blocks@[i].addr < p < self.blocks@[i].addr + self.blocks@[i].size
                    && #[trigger] self.mem@[p] != 0 implies live.contains(self.mem@[p] as int) by {
                lemma_header(self.blocks@, self.mem@, i);
                self.lemma_child_reachable(self.blocks@[i].addr, p);
                self.lemma_reachable_block(self.mem@[p] as int);
            }
            assert forall|r: int|
                0 <= r < self.roots@.len() && #[trigger] self.roots@[r] != 0 implies live.contains(
                self.roots@[r] as int,
            ) by {
                lemma_root_reachable(self@, r);
                self.lemma_reachable_block(self.roots@[r] as int);
            }
        }
    }

    /// Walks the heap once from address 1: clears the mark bit of every
    /// marked block and keeps the block; turns every other block into free
    /// space, merged with the free block before it if the two touch, and
    /// else linked behind the last free block. Tallies the slots of both.
    ///
    /// This holds whatever blocks are marked and whatever the free list was
    /// before. After a trace from the roots, what is left is the collected
    /// heap.
    pub(super) fn sweep(&mut self)
        requires
            old(self).layout_ok(),
            forall|a: int|
                0 <= a < old(self).mark_bits@.len() && #[trigger] old(self).mark_bits@[a]
                    ==> is_block_start(old(self)@.blocks, a),
        ensures
            final(self).layout_ok(),
            final(self).free_list_ok(),
            Self::sweep_frame(old(self), final(self)),
            forall|a: int|
                0 <= a < final(self).mark_bits@.len() ==> !(#[trigger] final(self).mark_bits@[a]),
            final(self)@.blocks == swept(old(self)@.blocks, set_bits(old(self).mark_bits@)),
            tiles(final(self)@.blocks, 1, final(self)@.limit()),
            final(self).walk_from(1) == final(self)@.limit(),
            is_sweep_of(final(self)@.blocks, old(self)@.blocks, set_bits(old(self).mark_bits@)),
            no_adjacent_free(final(self)@.blocks),
            kept_intact(
                old(self)@.blocks,
                old(self).mem@,
                final(self).mem@,
                set_bits(old(self).mark_bits@),
            ),
            final(self).stats_view().last_cycle_live_slots == final(self)@.live_slots(),
            final(self).stats_view().last_cycle_free_slots == final(self)@.free_slots(),
            final(self)@.live_slots() + final(self)@.free_slots() == final(self)@.limit() - 1,
            old(self).mark_ok() && old(self).marks_are_reachable() ==> final(self).wf()
                && final(self)@ == old(self)@.collected(),
    {
        let ghost old_blocks = self.blocks@;
        let ghost old_mem = self.mem@;
        let ghost roots = self.roots@;
        let ghost live = set_bits(self.mark_bits@);
        let limit: usize = self.limit();
        let mut scan: usize = 1;
        self.head = 0;
        let mut tail: usize = 0;
        self.lastgc_free_mem = 0;
        self.lastgc_live_mem = 0;
        let ghost mut s = SweepState {
            k: 0,
            out: Seq::empty(),
            mem: old_mem,
            marks: self.mark_bits@,
            head: 0,
            tail: 0,
        };
        proof {
            vstd::std_specs::vec::axiom_spec_len(&self.mem);
            assert(live_starts(old_blocks, live)) by {
                reveal(live_starts);
            }
            lemma_sweep_start(old_blocks, old_mem, live, self.mark_bits@);
        }
        while scan < limit
            invariant
                sweep_pre(old_blocks, old_mem, live),
                sweep_inv(old_blocks, old_mem, live, s),
                Self::sweep_frame(old(self), self),
                self.blocks@ == old_blocks,
                self.mark_bits.wf(),
                s.mem == self.mem@,
                s.marks == self.mark_bits@,
                s.head == self.head,
                s.tail == tail,
                limit == limit_of(old_mem.len() as int),
                scan == scan_of(old_blocks, limit as int, s.k),
                self.lastgc_live_mem == slots_of(s.out, false),
                self.lastgc_free_mem == slots_of(s.out, true),
                self.lastgc_live_mem + self.lastgc_free_mem == scan - 1,
            decreases limit - scan,
        {
            proof {
                assert(s.k < old_blocks.len());
                lemma_sweep_out(old_blocks, live, limit as int, s.k);
                lemma_slots_step(s.out, old_blocks[s.k], live.contains(old_blocks[s.k].addr));
                assert(s.mem[scan as int] == old_blocks[s.k].size) by {
                    reveal(rest_intact);
                }
            }
            let size: usize = self.get_size(scan);
            if self.is_marked(scan) {
                proof {
                    lemma_marks_step(old_blocks, old_mem, live, s.marks, s.k);
                    lemma_sweep_keep(old_blocks, old_mem, live, s);
                }
                self.unmark_object(scan);
                self.lastgc_live_mem = self.lastgc_live_mem + size;
                proof {
                    s = SweepState {
                        k: s.k + 1,
                        out: sweep_step(s.out, old_blocks[s.k], true),
                        marks: s.marks.update(old_blocks[s.k].addr, false),
                        ..s
                    };
                }
            } else {
                proof {
                    lemma_sweep_dead(old_blocks, old_mem, live, s);
                }
                self.lastgc_free_mem = self.lastgc_free_mem + size;
                if tail == 0 {
                    proof {
                        lemma_sweep_first(old_blocks, old_mem, live, s);
                    }
                    self.head = scan;
                    self.set_fl_next(scan, 0);
                    tail = scan;
                    proof {
                        s = SweepState {
                            k: s.k + 1,
                            out: sweep_step(s.out, old_blocks[s.k], false),
                            mem: s.mem.update(old_blocks[s.k].addr + 1, 0),
                            head: old_blocks[s.k].addr as usize,
                            tail: old_blocks[s.k].addr as usize,
                            ..s
                        };
                    }
                } else if self.next_object_in_heap(tail) == scan {
                    proof {
                        lemma_sweep_merge(old_blocks, old_mem, live, s);
                    }
                    let merged: usize = self.get_size(tail) + size;
                    self.set_size(tail, merged);
                    proof {
                        s = SweepState {
                            k: s.k + 1,
                            out: sweep_step(s.out, old_blocks[s.k], false),
                            mem: s.mem.update(
                                s.tail as int,
                                (s.mem[s.tail as int] + old_blocks[s.k].size) as usize,
                            ),
                            ..s
                        };
                    }
                } else {
                    proof {
                        lemma_sweep_link(old_blocks, old_mem, live, s);
                    }
                    self.set_fl_next(tail, scan);
                    self.set_fl_next(scan, 0);
                    tail = scan;
                    proof {
                        s = SweepState {
                            k: s.k + 1,
                            out: sweep_step(s.out, old_blocks[s.k], false),
                            mem: s.mem.update(s.tail + 1, old_blocks[s.k].addr as usize).update(
                                old_blocks[s.k].addr + 1,
                                0,
                            ),
                            tail: old_blocks[s.k].addr as usize,
                            ..s
                        };
                    }
                }
            }
            scan = scan + size;
        }
        proof {
            if s.k < old_blocks.len() {
                lemma_tiles_bounds(old_blocks, 1, limit as int, s.k);
            }
            lemma_sweep_done(old_blocks, old_mem, live, s);
            self.blocks@ = s.out;
            lemma_slots_total(s.out, 1, limit as int);
            self.lemma_layout_walk();
            if old(self).mark_ok() && old(self).marks_are_reachable() {
                old(self).lemma_trace_pre();
                assert(live_intact(old_blocks, old_mem, s.mem, live)) by {
                    reveal(live_intact);
                }
                lemma_sweep_refs(old_blocks, old_mem, roots, live, s.out, s.mem);
                lemma_sweep_payloads(old_blocks, old_mem, roots, live, s.out, s.mem);
            }
        }
    }
}

} // verus!
