//! What holds of every valid heap state, proved over the model of the heap.

use crate::lemmas::{
    lemma_block_index, lemma_carve_objects, lemma_carve_tiles, lemma_first_fit,
    lemma_slots_total, lemma_swept, lemma_tiles_bounds, lemma_tiles_disjoint,
};
use crate::model::{
    block_size_for, carve, empty_heap, has_block, no_adjacent_free, select_from, swept, tiles,
    without_first, Block, BlockKind, HeapView,
};
use crate::reach::{
    lemma_edge_reachable, lemma_reachable_is_object, lemma_root_reachable, lemma_trace_from_root,
};
use vstd::prelude::*;

verus! {

/// A new heap of three slots or more is valid.
pub proof fn lemma_empty_heap_is_valid(capacity: int)
    requires
        capacity >= 3,
    ensures
        empty_heap(capacity).wf(),
{
    let h = empty_heap(capacity);
    assert(h.blocks[0].kind == BlockKind::Free);
    assert forall|a: int| !h.is_object(a) by {
        if h.is_object(a) {
            let i = lemma_block_index(h.blocks, a, BlockKind::Object);
        }
    }
}

/// Allocation leaves a valid heap valid, and places the new object above
/// address 1.
pub proof fn lemma_allocation_keeps_validity(h: HeapView, slots: int)
    requires
        h.wf(),
        slots >= 0,
        h.can_allocate(slots),
    ensures
        h.allocated(slots).wf(),
        h.allocated(slots).is_object(h.allocated_addr(slots)),
        !h.is_object(h.allocated_addr(slots)),
        h.allocated_addr(slots) > 1,
        forall|a: int| h.is_object(a) ==> #[trigger] h.allocated(slots).is_object(a),
{
    let need = block_size_for(slots);
    let i = h.fit_index(slots);
    let h2 = h.allocated(slots);
    let new_addr = h.allocated_addr(slots);
    let b2 = carve(h.blocks, i, need);
    lemma_first_fit(h.blocks, need, 0);
    lemma_tiles_bounds(h.blocks, 1, h.limit(), i);
    lemma_carve_tiles(h.blocks, h.limit(), i, need);
    lemma_carve_objects(h.blocks, h.limit(), i, need, new_addr);
    assert forall|a: int| h2.payloads.dom().contains(a) <==> h2.is_object(a) by {
        lemma_carve_objects(h.blocks, h.limit(), i, need, a);
        assert(h.payloads.dom().contains(a) <==> h.is_object(a));
    }
    assert forall|a: int| h.is_object(a) implies #[trigger] h2.is_object(a) by {
        lemma_carve_objects(h.blocks, h.limit(), i, need, a);
    }
    assert forall|x: int|
        0 <= x < b2.len() && (#[trigger] b2[x]).kind
            == BlockKind::Object implies h2.payloads[b2[x].addr].len() == b2[x].size - 1 by {
        if x != i + 1 {
            let j = if x < i {
                x
            } else {
                x - 1
            };
            assert(h.blocks[j].kind == BlockKind::Object);
            assert(h.is_object(h.blocks[j].addr));
        }
    }
    assert forall|a: int, j: int|
        h2.is_object(a) && 0 <= j < h2.payloads[a].len() implies h2.is_ref(
        #[trigger] h2.payloads[a][j],
    ) by {
        lemma_carve_objects(h.blocks, h.limit(), i, need, a);
        if a != new_addr {
            let v = h.payloads[a][j];
            assert(h.is_ref(v));
            lemma_carve_objects(h.blocks, h.limit(), i, need, v as int);
        }
    }
    assert forall|r: int| 0 <= r < h2.roots.len() implies h2.is_ref(#[trigger] h2.roots[r]) by {
        assert(h.is_ref(h.roots[r]));
        lemma_carve_objects(h.blocks, h.limit(), i, need, h.roots[r] as int);
    }
}

/// Storing 0 or the address of an object in a payload slot of an object
/// leaves a valid heap valid.
pub proof fn lemma_store_keeps_validity(h: HeapView, a: int, index: int, value: usize)
    requires
        h.wf(),
        h.is_object(a),
        0 <= index < h.payloads[a].len(),
        h.is_ref(value),
    ensures
        h.with_slot(a, index, value).wf(),
{
    let h2 = h.with_slot(a, index, value);
    assert(h.payloads.dom().contains(a) <==> h.is_object(a));
    assert forall|b: int| h2.payloads.dom().contains(b) <==> h2.is_object(b) by {
        assert(h.payloads.dom().contains(b) <==> h.is_object(b));
    }
    assert forall|i: int|
        0 <= i < h2.blocks.len() && (#[trigger] h2.blocks[i]).kind
            == BlockKind::Object implies h2.payloads[h2.blocks[i].addr].len() == h2.blocks[i].size
        - 1 by {
        assert(h.blocks[i].kind == BlockKind::Object);
        assert(h.is_object(h.blocks[i].addr));
        assert(h.payloads[h.blocks[i].addr].len() == h.blocks[i].size - 1);
    }
    assert forall|b: int, j: int|
        h2.is_object(b) && 0 <= j < h2.payloads[b].len() implies h2.is_ref(
        #[trigger] h2.payloads[b][j],
    ) by {
        if !(b == a && j == index) {
            assert(h.is_ref(h.payloads[b][j]));
        }
    }
}

/// A valid heap stays valid under any root set that holds nothing but 0
/// and addresses of objects.
proof fn lemma_other_roots(h: HeapView, roots: Seq<usize>)
    requires
        h.wf(),
        forall|r: int| 0 <= r < roots.len() ==> h.is_ref(#[trigger] roots[r]),
    ensures
        (HeapView { roots, ..h }).wf(),
{
    let h2 = HeapView { roots, ..h };
    assert forall|a: int| h2.payloads.dom().contains(a) <==> h2.is_object(a) by {
        assert(h.payloads.dom().contains(a) <==> h.is_object(a));
    }
    assert forall|i: int|
        0 <= i < h.blocks.len() && (#[trigger] h.blocks[i]).kind
            == BlockKind::Object implies h2.payloads[h.blocks[i].addr].len() == h.blocks[i].size
        - 1 by {}
    assert forall|a: int, j: int|
        h2.is_object(a) && 0 <= j < h2.payloads[a].len() implies h2.is_ref(
        #[trigger] h2.payloads[a][j],
    ) by {
        assert(h.is_ref(h.payloads[a][j]));
    }
    assert forall|r: int| 0 <= r < h2.roots.len() implies h2.is_ref(#[trigger] h2.roots[r]) by {
        assert(h.is_ref(roots[r]));
    }
}

/// Adding 0 or the address of an object to the root set, and removing any
/// address from it, leave a valid heap valid.
pub proof fn lemma_root_changes_keep_validity(h: HeapView, obj: usize)
    requires
        h.wf(),
    ensures
        h.is_ref(obj) ==> (HeapView { roots: h.roots.push(obj), ..h }).wf(),
        (HeapView { roots: without_first(h.roots, obj), ..h }).wf(),
{
    let more = h.roots.push(obj);
    let less = without_first(h.roots, obj);
    let k = crate::model::first_index_of(h.roots, obj, 0);
    crate::lemmas::lemma_first_index_bounds(h.roots, obj, 0);
    if h.is_ref(obj) {
        assert forall|r: int| 0 <= r < more.len() implies h.is_ref(#[trigger] more[r]) by {
            if r < h.roots.len() {
                assert(h.is_ref(h.roots[r]));
            }
        }
        lemma_other_roots(h, more);
    }
    assert forall|r: int| 0 <= r < less.len() implies h.is_ref(#[trigger] less[r]) by {
        if k < h.roots.len() {
            if r < k {
                assert(h.is_ref(h.roots[r]));
            } else {
                assert(h.is_ref(h.roots[r + 1]));
            }
        } else {
            assert(h.is_ref(h.roots[r]));
        }
    }
    lemma_other_roots(h, less);
}

/// What is reachable from the root set is what some root reaches through
/// payload slots.
pub proof fn lemma_reachable_from_some_root(h: HeapView, a: int)
    ensures
        h.reachable(a) <==> exists|r: int|
            0 <= r < h.roots.len() && #[trigger] h.reachable_from(h.roots[r] as int, a),
{
    if h.reachable(a) {
        let p = choose|p: Seq<int>| #[trigger] h.is_path(p) && p.last() == a;
        let r = choose|r: int| 0 <= r < h.roots.len() && #[trigger] h.roots[r] == p[0];
        assert(h.is_trace(h.roots[r] as int, p, Set::empty()));
        assert(h.reachable_from(h.roots[r] as int, a));
    }
    if exists|r: int| 0 <= r < h.roots.len() && #[trigger] h.reachable_from(h.roots[r] as int, a) {
        let r = choose|r: int|
            0 <= r < h.roots.len() && #[trigger] h.reachable_from(h.roots[r] as int, a);
        lemma_trace_from_root(h, r, a, Set::empty());
    }
}

/// In a valid heap, the blocks that are in the free list and those that are
/// not fill the heap from address 1 to its limit: their sizes add up to the
/// limit less one.
pub proof fn lemma_capacity_conserved(h: HeapView)
    requires
        h.wf(),
    ensures
        h.live_slots() + h.free_slots() == h.limit() - 1,
{
    lemma_slots_total(h.blocks, 1, h.limit());
}

/// After a collection, the slots counted live and the slots counted free
/// add up to the heap's limit less one.
pub proof fn lemma_collection_conserves_capacity(h: HeapView)
    requires
        h.wf(),
    ensures
        h.collected().live_slots() + h.collected().free_slots() == h.limit() - 1,
{
    lemma_swept(h.blocks, h.live_set(), 1, h.limit());
    lemma_slots_total(h.collected().blocks, 1, h.limit());
}

/// After a collection, the blocks still lie side by side from address 1 to
/// the heap's limit.
pub proof fn lemma_collection_keeps_tiling(h: HeapView)
    requires
        h.wf(),
    ensures
        tiles(h.collected().blocks, 1, h.limit()),
{
    lemma_swept(h.blocks, h.live_set(), 1, h.limit());
}

/// After a collection, the objects are exactly the addresses that were
/// reachable from the roots, each with the payload it had; every other block
/// is free.
pub proof fn lemma_collection_keeps_reachable(h: HeapView)
    requires
        h.wf(),
    ensures
        forall|a: int| #[trigger] h.collected().is_object(a) <==> h.reachable(a),
        forall|a: int|
            h.reachable(a) ==> #[trigger] h.collected().payloads[a] == h.payloads[a]
                && h.collected().size_at(a) == h.size_at(a),
        forall|i: int|
            0 <= i < h.collected().blocks.len() && (#[trigger] h.collected().blocks[i]).kind
                != BlockKind::Object ==> h.collected().blocks[i].kind == BlockKind::Free
                && !h.reachable(h.collected().blocks[i].addr),
{
    let live = h.live_set();
    let out = swept(h.blocks, live);
    let h1 = h.collected();
    lemma_swept(h.blocks, live, 1, h.limit());
    assert forall|a: int| #[trigger] h1.is_object(a) <==> h.reachable(a) by {
        if h1.is_object(a) {
            let j = lemma_block_index(out, a, BlockKind::Object);
            assert(live.contains(out[j].addr));
        }
        if h.reachable(a) {
            lemma_reachable_is_object(h, a);
            let i = lemma_block_index(h.blocks, a, BlockKind::Object);
            assert(live.contains(h.blocks[i].addr));
            let j = choose|j: int|
                0 <= j < out.len() && (#[trigger] out[j]).addr == h.blocks[i].addr && out[j].size
                    == h.blocks[i].size && out[j].kind == BlockKind::Object;
            assert(out[j].addr == a);
        }
    }
    assert forall|a: int| h.reachable(a) implies #[trigger] h1.payloads[a] == h.payloads[a]
        && h1.size_at(a) == h.size_at(a) by {
        lemma_reachable_is_object(h, a);
        let i = lemma_block_index(h.blocks, a, BlockKind::Object);
        assert(live.contains(h.blocks[i].addr));
        let j = choose|j: int|
            0 <= j < out.len() && (#[trigger] out[j]).addr == h.blocks[i].addr && out[j].size
                == h.blocks[i].size && out[j].kind == BlockKind::Object;
        let i2 = crate::model::index_of(h.blocks, a);
        lemma_tiles_bounds(h.blocks, 1, h.limit(), i);
        lemma_tiles_disjoint(h.blocks, 1, h.limit(), i, i2);
        let j2 = crate::model::index_of(out, a);
        assert(out[j].addr == a);
        lemma_tiles_bounds(out, 1, h.limit(), j);
        lemma_tiles_disjoint(out, 1, h.limit(), j, j2);
    }
    assert forall|i: int|
        0 <= i < out.len() && (#[trigger] out[i]).kind != BlockKind::Object implies out[i].kind
        == BlockKind::Free && !h.reachable(out[i].addr) by {
        assert(!live.contains(out[i].addr));
    }
}

/// After a collection, no two free blocks lie side by side: every run of
/// reclaimed blocks has become one free block.
pub proof fn lemma_collection_coalesces(h: HeapView)
    requires
        h.wf(),
    ensures
        no_adjacent_free(h.collected().blocks),
{
    lemma_swept(h.blocks, h.live_set(), 1, h.limit());
}

/// A collection leaves a valid heap valid.
pub proof fn lemma_collection_keeps_validity(h: HeapView)
    requires
        h.wf(),
    ensures
        h.collected().wf(),
{
    let live = h.live_set();
    let out = swept(h.blocks, live);
    let h1 = h.collected();
    lemma_swept(h.blocks, live, 1, h.limit());
    lemma_collection_keeps_reachable(h);
    assert forall|a: int| h1.payloads.dom().contains(a) <==> h1.is_object(a) by {
        if h.reachable(a) {
            lemma_reachable_is_object(h, a);
        }
    }
    assert forall|j: int|
        0 <= j < out.len() && (#[trigger] out[j]).kind
            == BlockKind::Object implies h1.payloads[out[j].addr].len() == out[j].size - 1 by {
        let a = out[j].addr;
        assert(live.contains(a));
        assert(h.reachable(a));
        lemma_reachable_is_object(h, a);
        let i = choose|i: int|
            0 <= i < h.blocks.len() && (#[trigger] h.blocks[i]).addr == a && h.blocks[i].size
                == out[j].size;
        let i2 = lemma_block_index(h.blocks, a, BlockKind::Object);
        lemma_tiles_bounds(h.blocks, 1, h.limit(), i);
        lemma_tiles_disjoint(h.blocks, 1, h.limit(), i, i2);
    }
    assert forall|a: int, j: int|
        h1.is_object(a) && 0 <= j < h1.payloads[a].len() implies h1.is_ref(
        #[trigger] h1.payloads[a][j],
    ) by {
        assert(h.reachable(a));
        lemma_reachable_is_object(h, a);
        let v = h.payloads[a][j];
        assert(h.is_ref(v));
        if v != 0 {
            assert(h.edge(a, v as int));
            lemma_edge_reachable(h, a, v as int);
            assert(h1.is_object(v as int));
        }
    }
    assert forall|r: int| 0 <= r < h1.roots.len() implies h1.is_ref(#[trigger] h1.roots[r]) by {
        if h.roots[r] != 0 {
            lemma_root_reachable(h, r);
            assert(h1.is_object(h.roots[r] as int));
        }
    }
}

/// Where none of the blocks from index `from` on is outside the free list,
/// there is nothing to select there.
proof fn lemma_select_none(blocks: Seq<Block>, from: int)
    requires
        0 <= from <= blocks.len(),
        forall|i: int| from <= i < blocks.len() ==> (#[trigger] blocks[i]).kind == BlockKind::Free,
    ensures
        select_from(blocks, false, from) == Seq::<Block>::empty(),
    decreases blocks.len() - from,
{
    if from < blocks.len() {
        assert(blocks[from].kind == BlockKind::Free);
        lemma_select_none(blocks, from + 1);
    }
}

/// With an empty root set, a collection leaves no object: a walk of the
/// heap then finds nothing that is not in the free list.
pub proof fn lemma_collection_without_roots_frees_all(h: HeapView)
    requires
        h.wf(),
        h.roots.len() == 0,
    ensures
        forall|a: int| !h.collected().is_object(a),
        h.collected().live_blocks().len() == 0,
        h.collected().live_slots() == 0,
        h.collected().free_slots() == h.limit() - 1,
{
    let out = h.collected().blocks;
    lemma_collection_keeps_reachable(h);
    assert forall|a: int| !h.reachable(a) by {
        if h.reachable(a) {
            let p = choose|p: Seq<int>| #[trigger] h.is_path(p) && p.last() == a;
        }
    }
    assert forall|i: int| 0 <= i < out.len() implies (#[trigger] out[i]).kind
        == BlockKind::Free by {
        if out[i].kind == BlockKind::Object {
            assert(has_block(out, out[i].addr, BlockKind::Object));
            assert(h.collected().is_object(out[i].addr));
        }
    }
    lemma_select_none(out, 0);
    lemma_no_live_slots(out);
    lemma_collection_conserves_capacity(h);
}

/// Blocks that are all in the free list hold no slot outside it.
proof fn lemma_no_live_slots(blocks: Seq<Block>)
    requires
        forall|i: int| 0 <= i < blocks.len() ==> (#[trigger] blocks[i]).kind == BlockKind::Free,
    ensures
        crate::model::slots_of(blocks, false) == 0,
    decreases blocks.len(),
{
    if blocks.len() > 0 {
        let front = blocks.drop_last();
        assert forall|i: int| 0 <= i < front.len() implies (#[trigger] front[i]).kind
            == BlockKind::Free by {
            assert(front[i] == blocks[i]);
        }
        assert(blocks[blocks.len() - 1].kind == BlockKind::Free);
        lemma_no_live_slots(front);
    }
}

/// The front of a path is a path.
proof fn lemma_path_front(h: HeapView, p: Seq<int>, k: int)
    requires
        h.is_path(p),
        0 <= k < p.len(),
    ensures
        h.is_path(p.take(k + 1)),
        p.take(k + 1).last() == p[k],
        h.reachable(p[k]),
{
    let q = p.take(k + 1);
    let r = choose|r: int| 0 <= r < h.roots.len() && #[trigger] h.roots[r] == p[0];
    assert(h.roots[r] == q[0]);
    assert forall|x: int, y: int| 0 <= x && y == x + 1 && y < q.len() implies h.edge(
        #[trigger] q[x],
        #[trigger] q[y],
    ) by {
        assert(h.edge(p[x], p[y]));
    }
    assert(h.is_path(q));
    assert(q.last() == p[k]);
}

/// What is reachable before a collection is reachable after it, and the
/// other way round.
pub proof fn lemma_collection_keeps_reachability(h: HeapView)
    requires
        h.wf(),
    ensures
        forall|a: int| #[trigger] h.collected().reachable(a) <==> h.reachable(a),
{
    let h1 = h.collected();
    lemma_collection_keeps_reachable(h);
    assert forall|a: int| #[trigger] h1.reachable(a) <==> h.reachable(a) by {
        if h1.reachable(a) {
            let p = choose|p: Seq<int>| #[trigger] h1.is_path(p) && p.last() == a;
            assert forall|x: int, y: int| 0 <= x && y == x + 1 && y < p.len() implies h.edge(
                #[trigger] p[x],
                #[trigger] p[y],
            ) by {
                assert(h1.edge(p[x], p[y]));
                assert(h1.is_object(p[x]));
                assert(h.reachable(p[x]));
                lemma_reachable_is_object(h, p[x]);
                let j = choose|j: int|
                    0 <= j < h1.payloads[p[x]].len() && #[trigger] h1.payloads[p[x]][j] == p[y];
                assert(h.payloads[p[x]][j] == p[y]);
            }
            assert(h.is_path(p));
        }
        if h.reachable(a) {
            let p = choose|p: Seq<int>| #[trigger] h.is_path(p) && p.last() == a;
            assert forall|x: int, y: int| 0 <= x && y == x + 1 && y < p.len() implies h1.edge(
                #[trigger] p[x],
                #[trigger] p[y],
            ) by {
                assert(h.edge(p[x], p[y]));
                lemma_path_front(h, p, x);
                assert(h1.is_object(p[x]));
                let j = choose|j: int|
                    0 <= j < h.payloads[p[x]].len() && #[trigger] h.payloads[p[x]][j] == p[y];
                assert(h1.payloads[p[x]][j] == p[y]);
            }
            let r = choose|r: int| 0 <= r < h.roots.len() && #[trigger] h.roots[r] == p[0];
            assert(h1.roots[r] == p[0]);
            assert(h1.is_path(p));
        }
    }
}

/// A sweep changes nothing where every object is live, every other block is
/// free and dead, and no two free blocks lie side by side.
proof fn lemma_swept_again(out: Seq<Block>, live: Set<int>)
    requires
        forall|j: int|
            0 <= j < out.len() ==> if (#[trigger] out[j]).kind == BlockKind::Object {
                live.contains(out[j].addr)
            } else {
                out[j].kind == BlockKind::Free && !live.contains(out[j].addr)
            },
        no_adjacent_free(out),
    ensures
        swept(out, live) == out,
    decreases out.len(),
{
    if out.len() > 0 {
        let front = out.drop_last();
        let n = out.len() - 1;
        assert forall|j: int| 0 <= j < front.len() implies if (#[trigger] front[j]).kind
            == BlockKind::Object {
            live.contains(front[j].addr)
        } else {
            front[j].kind == BlockKind::Free && !live.contains(front[j].addr)
        } by {
            assert(front[j] == out[j]);
        }
        assert forall|x: int, y: int| 0 <= x && y == x + 1 && y < front.len() implies !((
        #[trigger] front[x]).kind == BlockKind::Free && (#[trigger] front[y]).kind
            == BlockKind::Free) by {
            assert(front[x] == out[x] && front[y] == out[y]);
        }
        lemma_swept_again(front, live);
        assert(out[n] == out.last());
        if n > 0 {
            assert(front[n - 1] == out[n - 1]);
            assert(!(out[n - 1].kind == BlockKind::Free && out[n].kind == BlockKind::Free));
        }
        assert(swept(out, live) =~= out);
    }
}

/// A second collection right after a first changes nothing: the heap, and
/// with it the tallies of live and free slots, are what the first left.
pub proof fn lemma_collection_is_idempotent(h: HeapView)
    requires
        h.wf(),
    ensures
        h.collected().collected() == h.collected(),
        h.collected().collected().live_slots() == h.collected().live_slots(),
        h.collected().collected().free_slots() == h.collected().free_slots(),
{
    let h1 = h.collected();
    let out = h1.blocks;
    lemma_collection_keeps_reachable(h);
    lemma_collection_keeps_reachability(h);
    lemma_swept(h.blocks, h.live_set(), 1, h.limit());
    assert(h1.live_set() =~= h.live_set());
    assert forall|j: int| 0 <= j < out.len() implies if (#[trigger] out[j]).kind
        == BlockKind::Object {
        h1.live_set().contains(out[j].addr)
    } else {
        out[j].kind == BlockKind::Free && !h1.live_set().contains(out[j].addr)
    } by {}
    lemma_swept_again(out, h1.live_set());
    assert(h1.payloads.restrict(h1.live_set()) =~= h1.payloads);
}

} // verus!
