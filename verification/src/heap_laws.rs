use vstd::prelude::*;
use crate::heap::HeapView;
use crate::heap::Ptr;
use crate::heap::Shape;
use crate::heap::lemma_live_denotes;
use crate::heap::lemma_put;
use crate::heap::lemma_swept;
use crate::heap::lemma_vacant_none;
use crate::heap::slot_ok;

verus! {

/// Whether slot `i` can be reached from one of the roots.
pub open spec fn reachable(h: HeapView, roots: Seq<Ptr>, i: int) -> bool {
    exists|k: int| 0 <= k < roots.len() && h.reach(#[trigger] roots[k]).contains(i)
}

/// The heap after everything that can be reached from the roots was
/// marked, one root after the other.
pub open spec fn mark_all(h: HeapView, roots: Seq<Ptr>) -> HeapView
    decreases roots.len(),
{
    if roots.len() == 0 {
        h
    } else {
        let before = mark_all(h, roots.drop_last());
        before.marked_with(before.reach(roots.last()))
    }
}

/// What can be reached from a reference is occupied, and holds what can be
/// reached from the children of each of its nodes.
pub proof fn lemma_reach_closed(h: HeapView, p: Ptr, i: int)
    requires
        h.wf(),
        h.reach(p).contains(i),
    ensures
        0 <= i < h.cells.len(),
        h.cells[i] is Some,
        match h.cells[i]->0.shape {
            Shape::Block(c) => h.reach(p).contains(c.index as int),
            Shape::Arrow(c) => h.reach(p).contains(c.index as int),
            Shape::Sequence(a, b) => h.reach(p).contains(a.index as int) && h.reach(p).contains(
                b.index as int,
            ),
            _ => true,
        },
    decreases h.rank(p),
{
    assert(h.live(p));
    assert(slot_ok(h.cells, p.index as int));
    match h.shape(p) {
        Shape::Block(c) => {
            lemma_live_denotes(h, c);
            if i != p.index {
                lemma_reach_closed(h, c, i);
            }
        },
        Shape::Arrow(c) => {
            lemma_live_denotes(h, c);
            if i != p.index {
                lemma_reach_closed(h, c, i);
            }
        },
        Shape::Sequence(a, b) => {
            lemma_live_denotes(h, a);
            lemma_live_denotes(h, b);
            if i != p.index {
                if h.reach(a).contains(i) {
                    lemma_reach_closed(h, a, i);
                } else {
                    lemma_reach_closed(h, b, i);
                }
            }
        },
        _ => {},
    }
}

/// Marking what can be reached from a live reference keeps the heap well
/// formed.
pub proof fn lemma_marked_wf(h: HeapView, root: Ptr)
    requires
        h.wf(),
    ensures
        h.marked_with(h.reach(root)).wf(),
{
    let m = h.marked_with(h.reach(root));
    assert forall|i: int| 0 <= i < m.cells.len() implies #[trigger] m.slot_wf(i) by {
        assert(h.slot_wf(i));
        assert(slot_ok(h.cells, i));
        if h.reach(root).contains(i) {
            lemma_reach_closed(h, root, i);
        }
    }
}

/// After the roots were marked, a slot is marked exactly when it was
/// marked before or can be reached from a root; nothing else has changed.
pub proof fn lemma_mark_all(h: HeapView, roots: Seq<Ptr>)
    requires
        h.wf(),
    ensures
        mark_all(h, roots).wf(),
        mark_all(h, roots).cells == h.cells,
        mark_all(h, roots).generation == h.generation,
        mark_all(h, roots).marks.len() == h.marks.len(),
        forall|i: int|
            0 <= i < h.marks.len() ==> (#[trigger] mark_all(h, roots).marks[i] <==> h.marks[i]
                || reachable(h, roots, i)),
    decreases roots.len(),
{
    if roots.len() > 0 {
        let init = roots.drop_last();
        let before = mark_all(h, init);
        lemma_mark_all(h, init);
        lemma_marked_wf(before, roots.last());
        assert forall|i: int| 0 <= i < h.marks.len() implies (#[trigger] mark_all(
            h,
            roots,
        ).marks[i] <==> h.marks[i] || reachable(h, roots, i)) by {
            if reachable(h, init, i) {
                let k = choose|k: int| 0 <= k < init.len() && h.reach(#[trigger] init[k]).contains(i);
                assert(roots[k] == init[k]);
            }
            if h.reach(roots.last()).contains(i) {
                assert(roots[roots.len() - 1] == roots.last());
            }
            if reachable(h, roots, i) {
                let k = choose|k: int|
                    0 <= k < roots.len() && h.reach(#[trigger] roots[k]).contains(i);
                if k < init.len() {
                    assert(init[k] == roots[k]);
                }
            }
        }
    }
}

/// A sweep keeps what the roots reach and nothing else.  In a heap without
/// marks, mark what can be reached from the roots, then sweep: a reference
/// is live afterwards exactly when it was live and its slot can be reached
/// from a root, and a reference that is still live denotes the term that it
/// denoted before.  Every other reference is stale.
pub proof fn law_sweep_keeps_the_reachable(h: HeapView, roots: Seq<Ptr>, p: Ptr)
    requires
        h.wf(),
        h.generation < u64::MAX,
        forall|i: int| 0 <= i < h.marks.len() ==> !h.marks[i],
    ensures
        mark_all(h, roots).swept().wf(),
        mark_all(h, roots).swept().generation == h.generation + 1,
        mark_all(h, roots).swept().live(p) <==> h.live(p) && reachable(h, roots, p.index as int),
        mark_all(h, roots).swept().live(p) ==> mark_all(h, roots).swept().term_of(p) == h.term_of(
            p,
        ),
        !mark_all(h, roots).swept().live(p) ==> mark_all(h, roots).swept().term_of(p) is None,
{
    lemma_mark_all(h, roots);
    let m = mark_all(h, roots);
    lemma_swept(m);
    lemma_live_denotes(m.swept(), p);
    if h.live(p) {
        assert(m.marks[p.index as int] <==> h.marks[p.index as int] || reachable(
            h,
            roots,
            p.index as int,
        ));
    }
}

/// A root that is live before the sweep is live after it.
pub proof fn law_sweep_keeps_the_roots(h: HeapView, roots: Seq<Ptr>, k: int)
    requires
        h.wf(),
        h.generation < u64::MAX,
        0 <= k < roots.len(),
        h.live(roots[k]),
    ensures
        mark_all(h, roots).swept().live(roots[k]),
        mark_all(h, roots).swept().term_of(roots[k]) == h.term_of(roots[k]),
{
    lemma_mark_all(h, roots);
    let m = mark_all(h, roots);
    lemma_swept(m);
    lemma_live_denotes(h, roots[k]);
    assert(reachable(h, roots, roots[k].index as int));
    assert(m.marks[roots[k].index as int]);
}

/// The heap after `n` empty programs were allocated, as far as there was
/// room.
pub open spec fn filled(h: HeapView, n: nat) -> HeapView
    decreases n,
{
    if n == 0 {
        h
    } else {
        let before = filled(h, (n - 1) as nat);
        if before.vacant() > 0 {
            before.put(Shape::Id)
        } else {
            before
        }
    }
}

/// Every allocation takes one vacant slot: after as many allocations as
/// the heap has vacant slots none is left, and the next one fails for want
/// of space.
pub proof fn law_allocation_fills_the_heap(h: HeapView, n: nat)
    requires
        h.wf(),
        n <= h.vacant(),
    ensures
        filled(h, n).wf(),
        filled(h, n).vacant() == h.vacant() - n,
        filled(h, n).extends(h),
    decreases n,
{
    if n > 0 {
        law_allocation_fills_the_heap(h, (n - 1) as nat);
        let before = filled(h, (n - 1) as nat);
        lemma_put(before, Shape::Id);
        crate::heap::lemma_extends_trans(h, before, filled(h, n));
    } else {
        lemma_extends_refl(h);
    }
}

/// A heap extends itself.
pub proof fn lemma_extends_refl(h: HeapView)
    ensures
        h.extends(h),
{
}

/// A sweep gives no room in a full heap whose nodes are all marked: the
/// next allocation fails for want of space, as it did before the sweep.
pub proof fn law_full_heap_stays_full(h: HeapView)
    requires
        h.wf(),
        h.generation < u64::MAX,
        h.vacant() == 0,
        forall|i: int| 0 <= i < h.cells.len() ==> h.marks[i],
    ensures
        h.swept().wf(),
        h.swept().vacant() == 0,
{
    lemma_swept(h);
    lemma_vacant_none(h.cells, h.cells.len() as int);
    lemma_vacant_none(h.swept().cells, h.cells.len() as int);
}

} // verus!
