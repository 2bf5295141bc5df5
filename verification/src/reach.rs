//! Facts about reachability from the root set.

use crate::model::HeapView;
use vstd::prelude::*;

verus! {

/// A non-zero root is reachable.
pub proof fn lemma_root_reachable(h: HeapView, r: int)
    requires
        0 <= r < h.roots.len(),
        h.roots[r] != 0,
    ensures
        h.reachable(h.roots[r] as int),
{
    let p = seq![h.roots[r] as int];
    assert(h.roots[r] == p[0]);
    assert(h.is_path(p));
    assert(p.last() == h.roots[r]);
}

/// What a payload slot of a reachable object refers to is reachable.
pub proof fn lemma_edge_reachable(h: HeapView, a: int, b: int)
    requires
        h.reachable(a),
        h.edge(a, b),
    ensures
        h.reachable(b),
{
    let p = choose|p: Seq<int>| #[trigger] h.is_path(p) && p.last() == a;
    let q = p.push(b);
    assert(q[0] == p[0]);
    assert forall|k: int, l: int| 0 <= k && l == k + 1 && l < q.len() implies h.edge(
        #[trigger] q[k],
        #[trigger] q[l],
    ) by {
        if l < p.len() {
            assert(h.edge(p[k], p[l]));
        }
    }
    assert(h.is_path(q));
    assert(q.last() == b);
}

/// In a valid heap, what is reachable is an object.
pub proof fn lemma_reachable_is_object(h: HeapView, a: int)
    requires
        h.wf(),
        h.reachable(a),
    ensures
        h.is_object(a),
        a != 0,
{
    let p = choose|p: Seq<int>| #[trigger] h.is_path(p) && p.last() == a;
    if p.len() == 1 {
        let r = choose|r: int| 0 <= r < h.roots.len() && #[trigger] h.roots[r] == p[0];
        assert(h.is_ref(h.roots[r]));
    } else {
        let k = p.len() - 2;
        assert(h.edge(p[k], p[k + 1]));
        let j = choose|j: int|
            0 <= j < h.payloads[p[k]].len() && #[trigger] h.payloads[p[k]][j] == a;
        assert(h.is_ref(h.payloads[p[k]][j]));
    }
}

/// A non-zero address that is not to be avoided reaches itself.
pub proof fn lemma_trace_start(h: HeapView, from: int, avoid: Set<int>)
    requires
        from != 0,
        !avoid.contains(from),
    ensures
        h.reachable_avoiding(from, from, avoid),
{
    let p = seq![from];
    assert(h.is_trace(from, p, avoid));
    assert(p.last() == from);
}

/// What is reached stays reached one payload slot on, if that slot refers
/// to nothing that is to be avoided.
pub proof fn lemma_trace_step(h: HeapView, from: int, a: int, b: int, avoid: Set<int>)
    requires
        h.reachable_avoiding(from, a, avoid),
        h.edge(a, b),
        !avoid.contains(b),
    ensures
        h.reachable_avoiding(from, b, avoid),
{
    let p = choose|p: Seq<int>| #[trigger] h.is_trace(from, p, avoid) && p.last() == a;
    let q = p.push(b);
    assert(q[0] == p[0]);
    assert forall|k: int| 0 <= k < q.len() implies !avoid.contains(#[trigger] q[k]) by {
        if k < p.len() {
            assert(q[k] == p[k]);
        }
    }
    assert forall|k: int, l: int| 0 <= k && l == k + 1 && l < q.len() implies h.edge(
        #[trigger] q[k],
        #[trigger] q[l],
    ) by {
        if l < p.len() {
            assert(h.edge(p[k], p[l]));
        }
    }
    assert(h.is_trace(from, q, avoid));
    assert(q.last() == b);
}

/// What a root reaches is reachable from the root set.
pub proof fn lemma_trace_from_root(h: HeapView, r: int, a: int, avoid: Set<int>)
    requires
        0 <= r < h.roots.len(),
        h.reachable_avoiding(h.roots[r] as int, a, avoid),
    ensures
        h.reachable(a),
{
    let p = choose|p: Seq<int>|
        #[trigger] h.is_trace(h.roots[r] as int, p, avoid) && p.last() == a;
    assert(h.roots[r] == p[0]);
    assert(h.is_path(p));
}

/// Every address along a trace lies in a set that holds the start of the
/// trace and is closed under following payload slots to what is not to be
/// avoided.
proof fn lemma_trace_in_closed_set(
    h: HeapView,
    from: int,
    avoid: Set<int>,
    marked: Set<int>,
    p: Seq<int>,
    k: int,
)
    requires
        marked.contains(from),
        forall|x: int, y: int|
            marked.contains(x) && #[trigger] h.edge(x, y) && !avoid.contains(y)
                ==> marked.contains(y),
        h.is_trace(from, p, avoid),
        0 <= k < p.len(),
    ensures
        marked.contains(p[k]),
    decreases k,
{
    if k > 0 {
        lemma_trace_in_closed_set(h, from, avoid, marked, p, k - 1);
        assert(h.edge(p[k - 1], p[k]));
        assert(!avoid.contains(p[k]));
    }
}

/// A set that holds an address and is closed under following payload slots
/// to what is not to be avoided holds everything that the address reaches
/// along what is not to be avoided.
pub proof fn lemma_closed_set_covers_trace(
    h: HeapView,
    from: int,
    avoid: Set<int>,
    marked: Set<int>,
    a: int,
)
    requires
        marked.contains(from),
        forall|x: int, y: int|
            marked.contains(x) && #[trigger] h.edge(x, y) && !avoid.contains(y)
                ==> marked.contains(y),
        h.reachable_avoiding(from, a, avoid),
    ensures
        marked.contains(a),
{
    let p = choose|p: Seq<int>| #[trigger] h.is_trace(from, p, avoid) && p.last() == a;
    lemma_trace_in_closed_set(h, from, avoid, marked, p, p.len() - 1);
}

/// Every address along a path lies in a set that holds the non-zero roots
/// and is closed under following payload slots.
proof fn lemma_path_in_closed_set(h: HeapView, marked: Set<int>, p: Seq<int>, k: int)
    requires
        forall|r: int|
            0 <= r < h.roots.len() && #[trigger] h.roots[r] != 0 ==> marked.contains(
                h.roots[r] as int,
            ),
        forall|x: int, y: int| marked.contains(x) && #[trigger] h.edge(x, y) ==> marked.contains(y),
        h.is_path(p),
        0 <= k < p.len(),
    ensures
        marked.contains(p[k]),
    decreases k,
{
    if k == 0 {
        let r = choose|r: int| 0 <= r < h.roots.len() && #[trigger] h.roots[r] == p[0];
        assert(h.roots[r] != 0);
    } else {
        lemma_path_in_closed_set(h, marked, p, k - 1);
        assert(h.edge(p[k - 1], p[k]));
    }
}

/// A set that holds the non-zero roots and is closed under following payload
/// slots holds everything reachable.
pub proof fn lemma_closed_set_covers(h: HeapView, marked: Set<int>, a: int)
    requires
        forall|r: int|
            0 <= r < h.roots.len() && #[trigger] h.roots[r] != 0 ==> marked.contains(
                h.roots[r] as int,
            ),
        forall|x: int, y: int| marked.contains(x) && #[trigger] h.edge(x, y) ==> marked.contains(y),
        h.reachable(a),
    ensures
        marked.contains(a),
{
    let p = choose|p: Seq<int>| #[trigger] h.is_path(p) && p.last() == a;
    lemma_path_in_closed_set(h, marked, p, p.len() - 1);
}

} // verus!
