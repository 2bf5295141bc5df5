//! The mark phase: tracing from the roots into the mark bitmap.

use super::{lemma_header, lemma_view_wf, refs_ok, roots_ok, Memory};
use crate::bitmap::{count_clear, lemma_count_clear_set, set_bits};
use crate::lemmas::{lemma_block_index, lemma_tiles_bounds};
use crate::model::{limit_of, BlockKind, HeapView, OBJECT_HEADER_SLOTS};
use crate::reach::{
    lemma_closed_set_covers, lemma_closed_set_covers_trace, lemma_edge_reachable,
    lemma_reachable_is_object, lemma_trace_from_root, lemma_trace_start, lemma_trace_step,
};
use vstd::prelude::*;

verus! {

/// Every address marked now and not in `base`, but for the grey ones, has
/// all its non-zero payload slots marked; of the object `cur`, only the slots
/// before offset `upto` count.
#[verifier::opaque]
spec fn closed_except(
    marks: Seq<bool>,
    base: Seq<bool>,
    mem: Seq<usize>,
    grey: Seq<usize>,
    cur: int,
    upto: int,
) -> bool {
    forall|a: int, p: int|
        0 <= a < marks.len() && #[trigger] marks[a] && !base[a] && !grey.contains(a as usize) && a
            < p < a + mem[a] && p < mem.len() && (a != cur || p < cur + upto)
            && #[trigger] mem[p] != 0 ==> mem[p] < marks.len() && marks[mem[p] as int]
}

/// Every address marked now and not in `base` is reached from `from` along
/// addresses that are not in `base`.
#[verifier::opaque]
spec fn traced_from(h: HeapView, from: int, marks: Seq<bool>, base: Seq<bool>) -> bool {
    forall|a: int|
        0 <= a < marks.len() && #[trigger] marks[a] && !base[a] ==> h.reachable_avoiding(
            from,
            a,
            set_bits(base),
        )
}

/// Every bit of `base` is set in `marks`.
spec fn holds_all(marks: Seq<bool>, base: Seq<bool>) -> bool {
    &&& marks.len() == base.len()
    &&& forall|a: int| 0 <= a < base.len() && #[trigger] base[a] ==> marks[a]
}

/// The addresses on the worklist are objects, marked now and not in `base`.
spec fn grey_ok(h: HeapView, grey: Seq<usize>, marks: Seq<bool>, base: Seq<bool>) -> bool {
    forall|e: int|
        0 <= e < grey.len() ==> (#[trigger] grey[e]) < marks.len() && marks[grey[e] as int]
            && !base[grey[e] as int] && h.is_object(grey[e] as int)
}

impl Memory {
    /// An object lies inside the slot array, with its size in its header.
    pub(super) proof fn lemma_object_block(&self, a: int) -> (i: int)
        requires
            self.layout_ok(),
            self@.is_object(a),
        ensures
            0 <= i < self.blocks@.len(),
            self.blocks@[i].addr == a,
            self.blocks@[i].kind == BlockKind::Object,
            self.mem@[a] == self.blocks@[i].size,
            1 <= a,
            a + self.mem@[a] <= self.mem@.len(),
            self.mem@[a] >= 2,
    {
        let i = lemma_block_index(self.blocks@, a, BlockKind::Object);
        lemma_tiles_bounds(self.blocks@, 1, limit_of(self.mem@.len() as int), i);
        lemma_header(self.blocks@, self.mem@, i);
        i
    }

    /// What slot `p` of the object `a` holds is 0 or an object to which that
    /// slot refers.
    proof fn lemma_child(&self, a: int, p: int)
        requires
            self.layout_ok(),
            refs_ok(self.blocks@, self.mem@),
            self@.is_object(a),
            a < p < a + self.mem@[a],
        ensures
            self.mem@[p] != 0 ==> self@.is_object(self.mem@[p] as int) && self@.edge(
                a,
                self.mem@[p] as int,
            ),
    {
        let i = self.lemma_object_block(a);
        reveal(refs_ok);
        if self.mem@[p] != 0 {
            assert(super::ref_ok(self.blocks@, self.mem@[p]));
            assert(self@.payloads[a][p - a - 1] == self.mem@[p]);
        }
    }

    /// A reachable address is the start of an object that lies inside the
    /// slot array.
    pub(super) proof fn lemma_reachable_block(&self, a: int) -> (i: int)
        requires
            self.layout_ok(),
            refs_ok(self.blocks@, self.mem@),
            roots_ok(self.blocks@, self.roots@),
            self@.reachable(a),
        ensures
            0 <= i < self.blocks@.len(),
            self.blocks@[i].addr == a,
            self.blocks@[i].kind == BlockKind::Object,
            self.mem@[a] == self.blocks@[i].size,
            1 <= a,
            a + self.mem@[a] <= self.mem@.len(),
            self.mem@[a] >= 2,
    {
        lemma_view_wf(self.blocks@, self.mem@, self.roots@);
        lemma_reachable_is_object(self@, a);
        self.lemma_object_block(a)
    }

    /// What slot `p` of the reachable object `a` holds is 0 or reachable.
    pub(super) proof fn lemma_child_reachable(&self, a: int, p: int)
        requires
            self.layout_ok(),
            refs_ok(self.blocks@, self.mem@),
            roots_ok(self.blocks@, self.roots@),
            self@.reachable(a),
            a < p < a + self.mem@[a],
        ensures
            self.mem@[p] != 0 ==> self@.reachable(self.mem@[p] as int),
    {
        let i = self.lemma_reachable_block(a);
        self.lemma_child(a, p);
        if self.mem@[p] != 0 {
            lemma_edge_reachable(self@, a, self.mem@[p] as int);
        }
    }

    /// When the worklist has run empty, everything that `object` reaches
    /// along addresses not in `base` is marked.
    proof fn lemma_trace_complete(&self, object: int, base: Seq<bool>, a: int)
        requires
            self.layout_ok(),
            holds_all(self.mark_bits@, base),
            closed_except(self.mark_bits@, base, self.mem@, Seq::empty(), -1, 0),
            0 <= object < base.len(),
            self.mark_bits@[object],
            !base[object],
            self@.reachable_avoiding(object, a, set_bits(base)),
        ensures
            0 <= a < base.len(),
            self.mark_bits@[a],
            !base[a],
    {
        let h = self@;
        let marks = self.mark_bits@;
        let mem = self.mem@;
        let avoid = set_bits(base);
        let fresh = Set::new(|x: int| 0 <= x < marks.len() && marks[x] && !base[x]);
        assert forall|x: int, y: int|
            fresh.contains(x) && #[trigger] h.edge(x, y) && !avoid.contains(
                y,
            ) implies fresh.contains(y) by {
            let j = choose|j: int| 0 <= j < h.payloads[x].len() && #[trigger] h.payloads[x][j] == y;
            self.lemma_object_block(x);
            reveal(closed_except);
            assert(mem[x + 1 + j] == y);
            assert(!Seq::<usize>::empty().contains(x as usize));
        }
        lemma_closed_set_covers_trace(h, object, avoid, fresh, a);
    }

    /// Marks `object` and everything that it reaches through payload slots
    /// along addresses that are not marked yet. Does nothing if `object` is 0
    /// or marked already.
    fn mark_and_scan(&mut self, object: usize)
        requires
            old(self).trace_ok(),
            old(self)@.is_ref(object),
        ensures
            final(self).trace_ok(),
            Self::only_marks_differ(old(self), final(self)),
            final(self).mark_bits@.len() == old(self).mark_bits@.len(),
            (object == 0 || old(self).mark_bits@[object as int]) ==> final(self).mark_bits@
                == old(self).mark_bits@,
            forall|a: int|
                0 <= a < old(self).mark_bits@.len() && #[trigger] old(self).mark_bits@[a]
                    ==> final(self).mark_bits@[a],
            forall|a: int|
                0 <= a < final(self).mark_bits@.len() && #[trigger] final(self).mark_bits@[a]
                    && !old(self).mark_bits@[a] ==> old(self)@.reachable_avoiding(
                    object as int,
                    a,
                    set_bits(old(self).mark_bits@),
                ),
            forall|a: int|
                #[trigger] old(self)@.reachable_avoiding(
                    object as int,
                    a,
                    set_bits(old(self).mark_bits@),
                ) ==> 0 <= a < final(self).mark_bits@.len() && final(self).mark_bits@[a],
            old(self).marks_clear() ==> forall|a: int|
                0 <= a < final(self).mark_bits@.len() ==> (#[trigger] final(self).mark_bits@[a]
                    <==> old(self)@.reachable_from(object as int, a)),
    {
        let ghost h = self@;
        let ghost base = self.mark_bits@;
        let ghost avoid = set_bits(base);
        proof {
            if self.marks_clear() {
                assert(avoid =~= Set::empty());
            }
        }
        if object == 0 {
            proof {
                assert forall|a: int| !(#[trigger] h.reachable_avoiding(0, a, avoid)) by {}
            }
            return ;
        }
        proof {
            self.lemma_object_block(object as int);
        }
        if self.is_marked(object) {
            proof {
                assert forall|a: int|
                    !(#[trigger] h.reachable_avoiding(object as int, a, avoid)) by {
                    if h.reachable_avoiding(object as int, a, avoid) {
                        let p = choose|p: Seq<int>|
                            #[trigger] h.is_trace(object as int, p, avoid) && p.last() == a;
                        assert(!avoid.contains(p[0]));
                    }
                }
            }
            return ;
        }
        self.mark_object(object);
        let mut stack: Vec<usize> = Vec::new();
        stack.push(object);
        proof {
            lemma_count_clear_set(base, object as int);
            lemma_trace_start(h, object as int, avoid);
            assert(stack@[0] == object);
            assert(closed_except(self.mark_bits@, base, self.mem@, stack@, -1, 0)) by {
                reveal(closed_except);
            }
            assert(traced_from(h, object as int, self.mark_bits@, base)) by {
                reveal(traced_from);
            }
        }
        while stack.len() > 0
            invariant
                self.trace_ok(),
                Self::only_marks_differ(old(self), self),
                h == self@,
                base == old(self).mark_bits@,
                avoid == set_bits(base),
                holds_all(self.mark_bits@, base),
                traced_from(h, object as int, self.mark_bits@, base),
                grey_ok(h, stack@, self.mark_bits@, base),
                closed_except(self.mark_bits@, base, self.mem@, stack@, -1, 0),
                object < self.mark_bits@.len(),
                self.mark_bits@[object as int],
                !base[object as int],
            decreases 2 * count_clear(self.mark_bits@) + stack@.len(),
        {
            let ghost measure = 2 * count_clear(self.mark_bits@) + stack@.len();
            let ghost stack0 = stack@;
            let obj: usize = stack.pop().unwrap();
            proof {
                assert(obj == stack0[stack0.len() - 1]);
                self.lemma_object_block(obj as int);
                assert(h.reachable_avoiding(object as int, obj as int, avoid)) by {
                    reveal(traced_from);
                }
                assert forall|e: int| 0 <= e < stack@.len() implies stack@[e] == stack0[e] by {}
                assert(closed_except(self.mark_bits@, base, self.mem@, stack@, obj as int, 1)) by {
                    reveal(closed_except);
                    assert forall|v: usize| !(#[trigger] stack@.contains(v)) && v
                        != obj implies !stack0.contains(v) by {
                        if stack0.contains(v) {
                            let e = choose|e: int| 0 <= e < stack0.len() && stack0[e] == v;
                            if e < stack@.len() {
                                assert(stack@[e] == v);
                            }
                        }
                    }
                }
            }
            let slots: usize = self.get_size(obj);
            let mut i: usize = OBJECT_HEADER_SLOTS;
            while i < slots
                invariant
                    1 <= i <= slots,
                    slots == self.mem@[obj as int],
                    obj + slots <= self.mem@.len(),
                    self.trace_ok(),
                    Self::only_marks_differ(old(self), self),
                    h == self@,
                    base == old(self).mark_bits@,
                    avoid == set_bits(base),
                    h.is_object(obj as int),
                    h.reachable_avoiding(object as int, obj as int, avoid),
                    holds_all(self.mark_bits@, base),
                    traced_from(h, object as int, self.mark_bits@, base),
                    grey_ok(h, stack@, self.mark_bits@, base),
                    closed_except(self.mark_bits@, base, self.mem@, stack@, obj as int, i as int),
                    object < self.mark_bits@.len(),
                    self.mark_bits@[object as int],
                    !base[object as int],
                    2 * count_clear(self.mark_bits@) + stack@.len() < measure,
                decreases slots - i,
            {
                let child: usize = self.mem[obj + i];
                proof {
                    self.lemma_child(obj as int, obj + i);
                    if child != 0 {
                        self.lemma_object_block(child as int);
                    }
                }
                if child != 0 && !self.is_marked(child) {
                    let ghost marks0 = self.mark_bits@;
                    let ghost stack1 = stack@;
                    self.mark_object(child);
                    stack.push(child);
                    proof {
                        lemma_count_clear_set(marks0, child as int);
                        assert(self@ == h);
                        assert(!avoid.contains(child as int));
                        lemma_trace_step(h, object as int, obj as int, child as int, avoid);
                        assert(stack@[stack1.len() as int] == child);
                        assert forall|e: int| 0 <= e < stack1.len() implies stack@[e]
                            == stack1[e] by {}
                        assert(traced_from(h, object as int, self.mark_bits@, base)) by {
                            reveal(traced_from);
                        }
                        assert(closed_except(
                            self.mark_bits@,
                            base,
                            self.mem@,
                            stack@,
                            obj as int,
                            i + 1,
                        )) by {
                            reveal(closed_except);
                            assert forall|v: usize|
                                !(#[trigger] stack@.contains(v)) implies !stack1.contains(v) && v
                                != child by {
                                if stack1.contains(v) {
                                    let e = choose|e: int| 0 <= e < stack1.len() && stack1[e] == v;
                                    assert(stack@[e] == v);
                                }
                            }
                        }
                    }
                } else {
                    proof {
                        assert(closed_except(
                            self.mark_bits@,
                            base,
                            self.mem@,
                            stack@,
                            obj as int,
                            i + 1,
                        )) by {
                            reveal(closed_except);
                        }
                    }
                }
                i = i + 1;
            }
            proof {
                assert(closed_except(self.mark_bits@, base, self.mem@, stack@, -1, 0)) by {
                    reveal(closed_except);
                }
            }
        }
        proof {
            assert(stack@ =~= Seq::empty());
            assert forall|a: int| #[trigger]
                h.reachable_avoiding(object as int, a, avoid) implies 0 <= a
                < self.mark_bits@.len() && self.mark_bits@[a] by {
                self.lemma_trace_complete(object as int, base, a);
            }
            reveal(traced_from);
        }
    }

    /// After a trace from the roots, every mark bit stands at the start of
    /// a block.
    pub(super) proof fn lemma_marked_blocks(&self)
        requires
            self.mark_ok(),
        ensures
            self.layout_ok(),
            forall|a: int|
                0 <= a < self.mark_bits@.len() && #[trigger] self.mark_bits@[a]
                    ==> crate::model::is_block_start(self@.blocks, a),
            self.marks_are_reachable() ==> set_bits(self.mark_bits@) == self@.live_set(),
    {
        if self.marks_are_reachable() {
            assert(set_bits(self.mark_bits@) =~= self@.live_set()) by {
                assert forall|a: int| self@.reachable(a) implies set_bits(
                    self.mark_bits@,
                ).contains(a) by {
                    self.lemma_reachable_block(a);
                }
            }
        }
        assert forall|a: int|
            0 <= a < self.mark_bits@.len() && #[trigger] self.mark_bits@[a] implies crate::model::is_block_start(
            self@.blocks,
            a,
        ) by {
            let i = self.lemma_reachable_block(a);
        }
    }

    /// Marks everything that can be reached from the roots.
    pub(super) fn mark_roots(&mut self)
        requires
            old(self).wf(),
        ensures
            final(self).mark_ok(),
            final(self).marks_are_reachable(),
            Self::only_marks_differ(old(self), final(self)),
            forall|a: int|
                0 <= a < final(self).mark_bits@.len() ==> (#[trigger] final(self).mark_bits@[a]
                    <==> old(self)@.reachable(a)),
    {
        let ghost h = self@;
        let ghost clear = self.mark_bits@;
        proof {
            reveal(closed_except);
        }
        let mut i: usize = 0;
        while i < self.roots.len()
            invariant
                0 <= i <= self.roots@.len(),
                self.mark_ok(),
                Self::only_marks_differ(old(self), self),
                h == self@,
                clear.len() == self.mark_bits@.len(),
                forall|a: int| 0 <= a < clear.len() ==> !(#[trigger] clear[a]),
                closed_except(self.mark_bits@, clear, self.mem@, Seq::empty(), -1, 0),
                forall|r: int|
                    0 <= r < i && #[trigger] self.roots@[r] != 0 ==> self.roots@[r]
                        < self.mark_bits@.len() && self.mark_bits@[self.roots@[r] as int],
            decreases self.roots@.len() - i,
        {
            let root: usize = self.roots[i];
            let ghost before = self.mark_bits@;
            let ghost avoid = set_bits(before);
            proof {
                assert(self@.is_ref(root)) by {
                    reveal(roots_ok);
                    assert(super::ref_ok(self.blocks@, self.roots@[i as int]));
                }
            }
            self.mark_and_scan(root);
            proof {
                let marks = self.mark_bits@;
                assert(self@ == h);
                // What the visit marked is reachable from the roots.
                assert forall|a: int| 0 <= a < marks.len() && #[trigger] marks[a] implies h.reachable(
                    a,
                ) by {
                    if !before[a] {
                        lemma_trace_from_root(h, i as int, a, avoid);
                    }
                }
                // The root itself is marked.
                if root != 0 {
                    self.lemma_object_block(root as int);
                    if !before[root as int] {
                        lemma_trace_start(h, root as int, avoid);
                    }
                }
                // What the marked objects refer to is marked.
                assert(closed_except(marks, clear, self.mem@, Seq::empty(), -1, 0)) by {
                    reveal(closed_except);
                    assert forall|a: int, p: int|
                        0 <= a < marks.len() && #[trigger] marks[a] && a < p < a + self.mem@[a] && p
                            < self.mem@.len() && #[trigger] self.mem@[p] != 0 implies self.mem@[p]
                        < marks.len() && marks[self.mem@[p] as int] by {
                        if !before[a] {
                            let c = self.mem@[p] as int;
                            self.lemma_reachable_block(a);
                            self.lemma_child(a, p);
                            self.lemma_object_block(c);
                            if !before[c] {
                                lemma_trace_step(h, root as int, a, c, avoid);
                            }
                        } else {
                            assert(!Seq::<usize>::empty().contains(a as usize));
                        }
                    }
                }
            }
            i = i + 1;
        }
        proof {
            let marks = self.mark_bits@;
            let mem = self.mem@;
            let marked = Set::new(|a: int| 0 <= a < marks.len() && marks[a]);
            assert forall|x: int, y: int| marked.contains(x) && #[trigger] h.edge(
                x,
                y,
            ) implies marked.contains(y) by {
                let j = choose|j: int|
                    0 <= j < h.payloads[x].len() && #[trigger] h.payloads[x][j] == y;
                self.lemma_reachable_block(x);
                reveal(closed_except);
                assert(mem[x + 1 + j] == y);
                assert(!Seq::<usize>::empty().contains(x as usize));
            }
            assert forall|a: int| 0 <= a < marks.len() && h.reachable(a) implies #[trigger] marks[a] by {
                lemma_closed_set_covers(h, marked, a);
            }
        }
    }
}

} // verus!
