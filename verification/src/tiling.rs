//! What it means for quads to tile a frame.

use crate::quads::{leaves_upto, lemma_quarters_partition, Quad, Rect};
use vstd::prelude::*;

verus! {

/// The region of quad `i` of `quads` holds the pixel `(x, y)`.
pub open spec fn covers(quads: Seq<Quad>, i: int, x: int, y: int) -> bool {
    0 <= i < quads.len() && quads[i].rect().contains(x, y)
}

/// The regions of `quads` tile `frame`: each holds a pixel and lies within
/// the frame, no two overlap, and every pixel of the frame is in one of them.
pub open spec fn tiles(quads: Seq<Quad>, frame: Rect) -> bool {
    &&& forall|i: int|
        0 <= i < quads.len() ==> (#[trigger] quads[i]).rect().valid() && quads[i].rect().within(
            frame,
        )
    &&& forall|i: int, j: int|
        0 <= i < j < quads.len() ==> (#[trigger] quads[i]).rect().apart((#[trigger] quads[j]).rect())
    &&& forall|x: int, y: int| #[trigger]
        frame.contains(x, y) ==> exists|i: int| #[trigger] covers(quads, i, x, y)
}

/// The frame of a picture `width` pixels wide and `height` pixels high.
pub open spec fn frame(width: u32, height: u32) -> Rect {
    Rect { left: 0, top: 0, right: width, bottom: height }
}

/// Quads that tile a frame: the union of their regions is the frame, and no
/// pixel lies in two of them.
pub proof fn lemma_tiles_partition(quads: Seq<Quad>, frame: Rect)
    requires
        tiles(quads, frame),
    ensures
        forall|x: int, y: int| #[trigger]
            frame.contains(x, y) <==> exists|i: int| #[trigger] covers(quads, i, x, y),
        forall|i: int, j: int, x: int, y: int|
            i != j ==> !(#[trigger] covers(quads, i, x, y) && #[trigger] covers(quads, j, x, y)),
{
    assert forall|i: int, j: int, x: int, y: int| i != j implies !(#[trigger] covers(quads, i, x, y)
        && #[trigger] covers(quads, j, x, y)) by {
        if covers(quads, i, x, y) && covers(quads, j, x, y) {
            if i < j {
                assert(quads[i].rect().apart(quads[j].rect()));
            } else {
                assert(quads[j].rect().apart(quads[i].rect()));
            }
        }
    }
    assert forall|x: int, y: int|
        (exists|i: int| #[trigger] covers(quads, i, x, y)) implies frame.contains(x, y) by {
        let i = choose|i: int| #[trigger] covers(quads, i, x, y);
        assert(quads[i].rect().within(frame));
    }
}

/// Two tilings of frames that lie apart and make up `whole` between them
/// join to a tiling of `whole`.
pub proof fn lemma_tiles_join(a: Seq<Quad>, fa: Rect, b: Seq<Quad>, fb: Rect, whole: Rect)
    requires
        tiles(a, fa),
        tiles(b, fb),
        fa.apart(fb),
        fa.within(whole),
        fb.within(whole),
        forall|x: int, y: int| #[trigger] whole.contains(x, y) ==> fa.contains(x, y) || fb.contains(x, y),
    ensures
        tiles(a + b, whole),
{
    let all = a + b;
    let n = a.len() as int;
    assert forall|i: int| 0 <= i < all.len() implies (#[trigger] all[i]).rect().valid()
        && all[i].rect().within(whole) by {
        if i < n {
            assert(a[i].rect().valid() && a[i].rect().within(fa));
        } else {
            assert(b[i - n].rect().valid() && b[i - n].rect().within(fb));
        }
    }
    assert forall|i: int, j: int| 0 <= i < j < all.len() implies (#[trigger] all[i]).rect().apart(
        (#[trigger] all[j]).rect(),
    ) by {
        if j < n {
            assert(a[i].rect().apart(a[j].rect()));
        } else if i >= n {
            assert(b[i - n].rect().apart(b[j - n].rect()));
        } else {
            assert(a[i].rect().valid() && a[i].rect().within(fa));
            assert(b[j - n].rect().valid() && b[j - n].rect().within(fb));
        }
    }
    assert forall|x: int, y: int| #[trigger] whole.contains(x, y) implies exists|i: int| #[trigger]
        covers(all, i, x, y) by {
        if fa.contains(x, y) {
            let i = choose|i: int| #[trigger] covers(a, i, x, y);
            assert(covers(all, i, x, y));
        } else {
            let i = choose|i: int| #[trigger] covers(b, i, x, y);
            assert(all[i + n] == b[i]);
            assert(covers(all, i + n, x, y));
        }
    }
}

/// The leaves of a well-split tree tile the region of its root.
pub proof fn lemma_tree_leaves_tile(q: Quad)
    requires
        q.well_split(),
    ensures
        tiles(q.leaf_seq(), q.rect()),
    decreases q,
{
    let r = q.rect();
    if q.children@.len() == 0 {
        let only = q.leaf_seq();
        assert(only[0] == q);
        assert forall|x: int, y: int| #[trigger] r.contains(x, y) implies exists|i: int| #[trigger]
            covers(only, i, x, y) by {
            assert(covers(only, 0, x, y));
        }
    } else {
        let kids = q.children@;
        assert(kids[0].rect() == r.quarter(0) && kids[0].well_split());
        assert(kids[1].rect() == r.quarter(1) && kids[1].well_split());
        assert(kids[2].rect() == r.quarter(2) && kids[2].well_split());
        assert(kids[3].rect() == r.quarter(3) && kids[3].well_split());
        lemma_tree_leaves_tile(kids[0]);
        lemma_tree_leaves_tile(kids[1]);
        lemma_tree_leaves_tile(kids[2]);
        lemma_tree_leaves_tile(kids[3]);
        let l0 = kids[0].leaf_seq();
        let l1 = kids[1].leaf_seq();
        let l2 = kids[2].leaf_seq();
        let l3 = kids[3].leaf_seq();
        assert(kids[0].rect().valid());
        assert(kids[3].rect().valid());
        let upper = Rect { left: r.left, top: r.top, right: r.right, bottom: r.mid_y() };
        let lower = Rect { left: r.left, top: r.mid_y(), right: r.right, bottom: r.bottom };
        lemma_tiles_join(l0, r.quarter(0), l1, r.quarter(1), upper);
        lemma_tiles_join(l2, r.quarter(2), l3, r.quarter(3), lower);
        lemma_tiles_join(l0 + l1, upper, l2 + l3, lower, r);
        assert(leaves_upto(kids, 0) =~= Seq::<Quad>::empty());
        assert(leaves_upto(kids, 1) =~= l0);
        assert(leaves_upto(kids, 2) =~= l0 + l1);
        assert(leaves_upto(kids, 3) =~= l0 + l1 + l2);
        assert(leaves_upto(kids, 4) =~= (l0 + l1) + (l2 + l3));
    }
}

/// Replacing one quad of a tiling by its four quarters gives a tiling again:
/// the first quarter in the place of the quad, the others at the end.
pub proof fn lemma_quartering_tiles(before: Seq<Quad>, after: Seq<Quad>, frame: Rect, slot: int)
    requires
        tiles(before, frame),
        0 <= slot < before.len(),
        before[slot].rect().splittable(),
        after.len() == before.len() + 3,
        forall|i: int|
            0 <= i < before.len() && i != slot ==> (#[trigger] after[i]).rect() == before[i].rect(),
        after[slot].rect() == before[slot].rect().quarter(0),
        after[before.len() as int].rect() == before[slot].rect().quarter(1),
        after[before.len() as int + 1].rect() == before[slot].rect().quarter(2),
        after[before.len() as int + 2].rect() == before[slot].rect().quarter(3),
    ensures
        tiles(after, frame),
{
    let n = before.len() as int;
    let parent = before[slot].rect();
    lemma_quarters_partition(parent);
    assert(parent.valid() && parent.within(frame));
    let part = |i: int| -> int {
        if i == slot {
            0
        } else {
            i - n + 1
        }
    };
    assert forall|i: int| 0 <= i < after.len() implies (#[trigger] after[i]).rect().valid()
        && after[i].rect().within(frame) by {
        if i < n && i != slot {
            assert(before[i].rect().valid());
        } else {
            assert(after[i].rect() == parent.quarter(part(i)));
            assert(parent.quarter(part(i)).valid());
        }
    }
    assert forall|i: int, j: int| 0 <= i < j < after.len() implies (#[trigger] after[i]).rect().apart(
        (#[trigger] after[j]).rect(),
    ) by {
        let old_i = i < n && i != slot;
        let old_j = j < n && j != slot;
        if old_i && old_j {
            assert(before[i].rect().apart(before[j].rect()));
        } else if old_i {
            assert(after[j].rect() == parent.quarter(part(j)));
            assert(parent.quarter(part(j)).within(parent));
            if i < slot {
                assert(before[i].rect().apart(before[slot].rect()));
            } else {
                assert(before[slot].rect().apart(before[i].rect()));
            }
        } else if old_j {
            assert(after[i].rect() == parent.quarter(part(i)));
            assert(parent.quarter(part(i)).within(parent));
            if j < slot {
                assert(before[j].rect().apart(before[slot].rect()));
            } else {
                assert(before[slot].rect().apart(before[j].rect()));
            }
        } else {
            assert(after[i].rect() == parent.quarter(part(i)));
            assert(after[j].rect() == parent.quarter(part(j)));
            assert(parent.quarter(part(i)).apart(parent.quarter(part(j))));
        }
    }
    assert forall|x: int, y: int| #[trigger] frame.contains(x, y) implies exists|i: int| #[trigger]
        covers(after, i, x, y) by {
        let i = choose|i: int| #[trigger] covers(before, i, x, y);
        if i != slot {
            assert(after[i].rect() == before[i].rect());
            assert(covers(after, i, x, y));
        } else if parent.quarter(0).contains(x, y) {
            assert(covers(after, slot, x, y));
        } else if parent.quarter(1).contains(x, y) {
            assert(covers(after, n, x, y));
        } else if parent.quarter(2).contains(x, y) {
            assert(covers(after, n + 1, x, y));
        } else {
            assert(parent.quarter(3).contains(x, y));
            assert(covers(after, n + 2, x, y));
        }
    }
}

} // verus!
