//! The subdivision model: the picture, its current leaves, and the frontier of
//! leaves that wait to be split.

use crate::candidate::Candidate;
use crate::compositor::{border, canvas_pixel, render, rendered};
use crate::frontier::Frontier;
use crate::quads::{is_small, Quad};
use crate::raster::{image_height, image_pixel, image_width, Raster};
use crate::tiling::{covers, frame, lemma_quartering_tiles, lemma_tiles_partition, tiles};
use image::DynamicImage;
use vstd::multiset::Multiset;
use vstd::prelude::*;

verus! {

/// A picture and its approximation by flat-coloured rectangles.
pub struct Model {
    padding: bool,
    width: u32,
    height: u32,
    image: Raster,
    leaves: Vec<Quad>,
    frontier: Frontier,
}

/// Once `top` is served, the candidates that still wait are those that waited
/// before, each once, and none of them stands for the leaf of `top`.
proof fn lemma_served(waiting: Multiset<Candidate>, top: Candidate)
    requires
        waiting.contains(top),
        forall|c: Candidate| #[trigger] waiting.contains(c) ==> waiting.count(c) == 1,
        forall|c: Candidate, d: Candidate|
            waiting.contains(c) && waiting.contains(d) && c.slot == d.slot ==> c == d,
    ensures
        forall|c: Candidate| #[trigger]
            waiting.remove(top).contains(c) ==> waiting.contains(c) && c.slot != top.slot
                && waiting.remove(top).count(c) == 1,
{
    broadcast use vstd::multiset::group_multiset_axioms;

    assert forall|c: Candidate| #[trigger] waiting.remove(top).contains(c) implies waiting.contains(
        c,
    ) && c.slot != top.slot && waiting.remove(top).count(c) == 1 by {
        if c == top {
            assert(waiting.remove(top).count(c) == 0);
        }
    }
}

/// After a split the frontier holds what still waited and the four quarters:
/// every candidate stands for a leaf of the new list, and for one of its own.
proof fn lemma_joined(
    served: Multiset<Candidate>,
    before: Seq<Quad>,
    after: Seq<Quad>,
    top: Candidate,
    c0: Candidate,
    c1: Candidate,
    c2: Candidate,
    c3: Candidate,
)
    requires
        top.slot < before.len(),
        after.len() == before.len() + 3,
        forall|i: int| 0 <= i < before.len() && i != top.slot ==> #[trigger] after[i] == before[i],
        forall|c: Candidate| #[trigger]
            served.contains(c) ==> Model::names_leaf(before, c) && c.slot != top.slot
                && served.count(c) == 1,
        forall|c: Candidate, d: Candidate|
            served.contains(c) && served.contains(d) && c.slot == d.slot ==> c == d,
        c0.slot == top.slot,
        c1.slot == before.len(),
        c2.slot == before.len() + 1,
        c3.slot == before.len() + 2,
        Model::names_leaf(after, c0),
        Model::names_leaf(after, c1),
        Model::names_leaf(after, c2),
        Model::names_leaf(after, c3),
    ensures
        ({
            let joined = served.insert(c0).insert(c1).insert(c2).insert(c3);
            &&& forall|c: Candidate| #[trigger]
                joined.contains(c) ==> Model::names_leaf(after, c) && joined.count(c) == 1
            &&& forall|c: Candidate, d: Candidate|
                joined.contains(c) && joined.contains(d) && c.slot == d.slot ==> c == d
        }),
{
    broadcast use vstd::multiset::group_multiset_axioms;

    let joined = served.insert(c0).insert(c1).insert(c2).insert(c3);
    assert forall|c: Candidate| #[trigger] joined.contains(c) implies (served.contains(c) || c == c0
        || c == c1 || c == c2 || c == c3) && Model::names_leaf(after, c) && joined.count(c)
        == 1 by {
        if served.contains(c) {
            assert(Model::names_leaf(before, c));
            assert(after[c.slot as int] == before[c.slot as int]);
        }
    }
    assert forall|c: Candidate, d: Candidate|
        joined.contains(c) && joined.contains(d) && c.slot == d.slot implies c == d by {
        assert(served.contains(c) || c == c0 || c == c1 || c == c2 || c == c3);
        assert(served.contains(d) || d == c0 || d == c1 || d == c2 || d == c3);
        if served.contains(c) {
            assert(Model::names_leaf(before, c));
        }
        if served.contains(d) {
            assert(Model::names_leaf(before, d));
        }
    }
}

impl Model {
    /// Whether rendering leaves a one-pixel border between the rectangles.
    pub closed spec fn spec_padding(&self) -> bool {
        self.padding
    }

    /// Width of the picture.
    pub closed spec fn spec_width(&self) -> u32 {
        self.width
    }

    /// Height of the picture.
    pub closed spec fn spec_height(&self) -> u32 {
        self.height
    }

    /// The picture.
    pub closed spec fn image(&self) -> Raster {
        self.image
    }

    /// The current leaves, in the order in which `snapshot` shows them.
    pub closed spec fn leaves(&self) -> Seq<Quad> {
        self.leaves@
    }

    /// The leaves that wait to be split.
    pub closed spec fn waiting(&self) -> Multiset<Candidate> {
        self.frontier@
    }

    /// The frontier is in order.
    pub closed spec fn frontier_wf(&self) -> bool {
        self.frontier.wf()
    }

    /// `c` stands for a leaf of `leaves`.
    pub open spec fn names_leaf(leaves: Seq<Quad>, c: Candidate) -> bool {
        c.slot < leaves.len() && c.small == leaves[c.slot as int].small()
    }

    /// The invariant of the model: the leaves tile the picture, each shows
    /// the average colour of its region, and every candidate in the frontier
    /// stands for a leaf of its own.
    pub open spec fn wf(&self) -> bool {
        &&& self.image().wf()
        &&& self.image().spec_width() == self.spec_width()
        &&& self.image().spec_height() == self.spec_height()
        &&& tiles(self.leaves(), frame(self.spec_width(), self.spec_height()))
        &&& forall|i: int|
            0 <= i < self.leaves().len() ==> (#[trigger] self.leaves()[i]).is_leaf()
                && self.leaves()[i].depicts(&self.image())
        &&& self.frontier_wf()
        &&& forall|c: Candidate| #[trigger]
            self.waiting().contains(c) ==> Self::names_leaf(self.leaves(), c)
                && self.waiting().count(c) == 1
        &&& forall|c: Candidate, d: Candidate|
            self.waiting().contains(c) && self.waiting().contains(d) && c.slot == d.slot ==> c
                == d
    }

    /// The state in which a model of `image` starts: one leaf for the whole
    /// picture, waiting in the frontier; nothing at all for a picture
    /// without pixels.
    pub open spec fn initial(&self, image: Raster) -> bool {
        &&& self.wf()
        &&& self.image() == image
        &&& if image.spec_width() > 0 && image.spec_height() > 0 {
            &&& self.leaves().len() == 1
            &&& self.leaves()[0].is_leaf_for(
                &image,
                frame(image.spec_width(), image.spec_height()),
            )
            &&& self.waiting() == Multiset::<Candidate>::empty().insert(
                Candidate { slot: 0, small: self.leaves()[0].small(), rank: 0 },
            )
        } else {
            &&& self.leaves().len() == 0
            &&& self.waiting() == Multiset::<Candidate>::empty()
        }
    }

    /// A model of `image`. The root waits alone in the frontier, so it needs
    /// no rank and gets 0.
    pub fn from_raster(image: Raster, padding: bool) -> (m: Model)
        requires
            image.wf(),
        ensures
            m.initial(image),
            m.spec_padding() == padding,
    {
        let width = image.width();
        let height = image.height();
        let mut leaves: Vec<Quad> = Vec::new();
        let mut frontier = Frontier::new();
        if width > 0 && height > 0 {
            let root = Quad::new(0, 0, width, height, &image);
            let first = Candidate { slot: 0, small: is_small(&root), rank: 0 };
            leaves.push(root);
            frontier.push(first);
            proof {
                let outline = frame(width, height);
                assert forall|x: int, y: int| #[trigger] outline.contains(x, y) implies exists|
                    i: int,
                | #[trigger] covers(leaves@, i, x, y) by {
                    assert(covers(leaves@, 0, x, y));
                }
            }
        }
        Model { padding, width, height, image, leaves, frontier }
    }

    /// A model of a decoded picture: that of the raster which holds its
    /// pixels, each converted to 8-bit RGBA.
    pub fn new(target: DynamicImage, padding: bool) -> (m: Model)
        ensures
            m.wf(),
            m.spec_padding() == padding,
            m.spec_width() == image_width(target),
            m.spec_height() == image_height(target),
            m.initial(m.image()),
            forall|x: u32, y: u32|
                x < image_width(target) && y < image_height(target) ==> m.image().pixel(
                    x as int,
                    y as int,
                ) == #[trigger] image_pixel(target, x, y),
    {
        let image = Raster::from_image(&target);
        Model::from_raster(image, padding)
    }

    /// `r` is a rank that `rank` may give to the leaf `q`.
    pub open spec fn ranked<F: Fn(u32, u32, u32, u64) -> u64>(rank: F, q: Quad, r: u64) -> bool {
        rank.ensures((q.spread.0, q.spread.1, q.spread.2, q.rect().area() as u64), r)
    }

    /// The candidate that waits for the leaf `q` at `slot` with the rank `r`.
    pub open spec fn candidate_for(q: Quad, slot: int, r: u64) -> Candidate {
        Candidate { slot: slot as usize, small: q.small(), rank: r }
    }

    /// `self` is what one step makes of `before` when it serves `top` and
    /// `rank` gives the ranks `ranks` to the four quarters.
    ///
    /// A leaf less than two pixels wide or high only leaves the frontier.
    /// Any other leaf is replaced by its four quarters: the top left one
    /// takes its place in the list, the others are added at the end, and all
    /// four wait in the frontier with their ranks.
    pub open spec fn stepped<F: Fn(u32, u32, u32, u64) -> u64>(
        &self,
        before: &Model,
        top: Candidate,
        rank: F,
        ranks: (u64, u64, u64, u64),
    ) -> bool {
        let old_leaves = before.leaves();
        let parent = old_leaves[top.slot as int];
        let n = old_leaves.len() as int;
        let leaves = self.leaves();
        if !parent.rect().splittable() {
            &&& leaves == old_leaves
            &&& self.waiting() == before.waiting().remove(top)
        } else {
            &&& leaves.len() == n + 3
            &&& forall|i: int| 0 <= i < n && i != top.slot ==> #[trigger] leaves[i] == old_leaves[i]
            &&& leaves[top.slot as int].is_leaf_for(&self.image(), parent.rect().quarter(0))
            &&& leaves[n].is_leaf_for(&self.image(), parent.rect().quarter(1))
            &&& leaves[n + 1].is_leaf_for(&self.image(), parent.rect().quarter(2))
            &&& leaves[n + 2].is_leaf_for(&self.image(), parent.rect().quarter(3))
            &&& Self::ranked(rank, leaves[top.slot as int], ranks.0)
            &&& Self::ranked(rank, leaves[n], ranks.1)
            &&& Self::ranked(rank, leaves[n + 1], ranks.2)
            &&& Self::ranked(rank, leaves[n + 2], ranks.3)
            &&& self.waiting() == before.waiting().remove(top).insert(
                Self::candidate_for(leaves[top.slot as int], top.slot as int, ranks.0),
            ).insert(Self::candidate_for(leaves[n], n, ranks.1)).insert(
                Self::candidate_for(leaves[n + 1], n + 1, ranks.2),
            ).insert(Self::candidate_for(leaves[n + 2], n + 2, ranks.3))
        }
    }

    /// One step of refinement: serves a leaf that no waiting leaf outranks.
    ///
    /// `rank` ranks a new leaf among the leaves of its kind from the spread
    /// of its three channels and its area; a larger rank is served earlier.
    /// With nothing waiting the step does nothing.
    pub fn split<F: Fn(u32, u32, u32, u64) -> u64>(&mut self, rank: F)
        requires
            old(self).wf(),
            forall|r: u32, g: u32, b: u32, area: u64| #[trigger] rank.requires((r, g, b, area)),
        ensures
            final(self).wf(),
            final(self).image() == old(self).image(),
            final(self).spec_padding() == old(self).spec_padding(),
            final(self).spec_width() == old(self).spec_width(),
            final(self).spec_height() == old(self).spec_height(),
            old(self).waiting().len() == 0 ==> final(self).leaves() == old(self).leaves()
                && final(self).waiting() == old(self).waiting(),
            old(self).waiting().len() > 0 ==> exists|top: Candidate, ranks: (u64, u64, u64, u64)|
                crate::frontier::is_top(old(self).waiting(), top) && #[trigger] final(self).stepped(
                    old(self),
                    top,
                    rank,
                    ranks,
                ),
            (forall|i: int|
                0 <= i < old(self).leaves().len() ==> !(#[trigger] old(self).leaves()[i]).rect().splittable())
                ==> final(self).leaves() == old(self).leaves(),
    {
        let top = match self.frontier.pop() {
            Some(top) => top,
            None => { return ; },
        };
        let slot = top.slot;
        let ghost served = self.frontier@;
        proof {
            assert(old(self).waiting().contains(top));
            assert(Self::names_leaf(self.leaves@, top));
            lemma_served(old(self).waiting(), top);
        }
        if !self.leaves[slot].splittable() {
            assert(self.stepped(old(self), top, rank, (0, 0, 0, 0)));
            return ;
        }
        let ghost parent = self.leaves@[slot as int];
        self.leaves[slot].split(&self.image);
        let mut kids: Vec<Quad> = Vec::new();
        core::mem::swap(&mut self.leaves[slot].children, &mut kids);
        let br = kids.pop().unwrap();
        let bl = kids.pop().unwrap();
        let tr = kids.pop().unwrap();
        let tl = kids.pop().unwrap();
        let c0 = Candidate {
            slot,
            small: is_small(&tl),
            rank: rank(tl.spread.0, tl.spread.1, tl.spread.2, tl.area()),
        };
        let c1 = Candidate {
            slot: self.leaves.len(),
            small: is_small(&tr),
            rank: rank(tr.spread.0, tr.spread.1, tr.spread.2, tr.area()),
        };
        self.leaves[slot] = tl;
        self.leaves.push(tr);
        let c2 = Candidate {
            slot: self.leaves.len(),
            small: is_small(&bl),
            rank: rank(bl.spread.0, bl.spread.1, bl.spread.2, bl.area()),
        };
        self.leaves.push(bl);
        let c3 = Candidate {
            slot: self.leaves.len(),
            small: is_small(&br),
            rank: rank(br.spread.0, br.spread.1, br.spread.2, br.area()),
        };
        self.leaves.push(br);
        self.frontier.push(c0);
        self.frontier.push(c1);
        self.frontier.push(c2);
        self.frontier.push(c3);
        proof {
            let before = old(self).leaves();
            let after = self.leaves@;
            let n = before.len() as int;
            assert(before[slot as int] == parent);
            lemma_quartering_tiles(before, after, frame(self.width, self.height), slot as int);
            lemma_joined(served, before, after, top, c0, c1, c2, c3);
            assert(Self::candidate_for(after[slot as int], slot as int, c0.rank) == c0);
            assert(Self::candidate_for(after[n], n, c1.rank) == c1);
            assert(Self::candidate_for(after[n + 1], n + 1, c2.rank) == c2);
            assert(Self::candidate_for(after[n + 2], n + 2, c3.rank) == c3);
            assert(self.stepped(old(self), top, rank, (c0.rank, c1.rank, c2.rank, c3.rank)));
        }
    }

    /// At every moment the regions of the leaves cover the picture exactly,
    /// that is the frame from `(0, 0)` to `(width, height)`, and no two of
    /// them share a pixel.
    pub proof fn lemma_leaves_tile(&self)
        requires
            self.wf(),
        ensures
            forall|x: int, y: int| #[trigger]
                frame(self.spec_width(), self.spec_height()).contains(x, y) <==> exists|i: int| #[trigger]
                    covers(self.leaves(), i, x, y),
            forall|i: int, j: int, x: int, y: int|
                i != j ==> !(#[trigger] covers(self.leaves(), i, x, y) && #[trigger] covers(
                    self.leaves(),
                    j,
                    x,
                    y,
                )),
    {
        let outline = frame(self.spec_width(), self.spec_height());
        lemma_tiles_partition(self.leaves(), outline);
    }

    #[verifier::when_used_as_spec(spec_width)]
    pub fn width(&self) -> (w: u32)
        ensures
            w == self.spec_width(),
    {
        self.width
    }

    #[verifier::when_used_as_spec(spec_height)]
    pub fn height(&self) -> (h: u32)
        ensures
            h == self.spec_height(),
    {
        self.height
    }

    #[verifier::when_used_as_spec(spec_padding)]
    pub fn padding(&self) -> (p: bool)
        ensures
            p == self.spec_padding(),
    {
        self.padding
    }

    /// The current leaves. Nothing is copied: the list is that of the model
    /// at the moment of the call.
    pub fn snapshot(&self) -> (leaves: &Vec<Quad>)
        ensures
            leaves@ == self.leaves(),
    {
        &self.leaves
    }

    /// The current approximation as a raster: every leaf painted in its
    /// colour on a canvas of the size of the picture, one pixel wider and
    /// higher with padding, which then leaves the first column and the first
    /// row of each region, and the last of the canvas, transparent black.
    /// Gives `None` when the canvas would be wider or higher than a raster
    /// can be, or larger than memory can hold.
    pub fn get_curr_image(&self) -> (r: Option<Raster>)
        requires
            self.wf(),
        ensures
            r is Some <==> {
                &&& self.spec_width() + border(self.spec_padding()) <= u32::MAX
                &&& self.spec_height() + border(self.spec_padding()) <= u32::MAX
                &&& 4 * (self.spec_width() + border(self.spec_padding())) * (self.spec_height()
                    + border(self.spec_padding())) <= usize::MAX
            },
            r is Some ==> {
                &&& r.unwrap().wf()
                &&& r.unwrap().spec_width() == self.spec_width() + border(self.spec_padding())
                &&& r.unwrap().spec_height() == self.spec_height() + border(self.spec_padding())
                &&& forall|x: int, y: int|
                    0 <= x < r.unwrap().spec_width() && 0 <= y < r.unwrap().spec_height()
                        ==> #[trigger] r.unwrap().pixel(x, y) == canvas_pixel(
                        self.leaves(),
                        border(self.spec_padding()),
                        x,
                        y,
                    )
            },
    {
        let pad: u32 = if self.padding {
            1
        } else {
            0
        };
        if self.width > u32::MAX - pad || self.height > u32::MAX - pad {
            return None;
        }
        let width = self.width + pad;
        let height = self.height + pad;
        let r = render(&self.leaves, self.width, self.height, width, height, self.padding);
        proof {
            if r is Some {
                assert forall|x: int, y: int|
                    0 <= x < width && 0 <= y < height implies #[trigger] r.unwrap().pixel(x, y)
                        == canvas_pixel(self.leaves(), border(self.spec_padding()), x, y) by {
                    assert(x * width / (width as int) == x) by (nonlinear_arith)
                        requires
                            0 <= x,
                            0 < width,
                    ;
                    assert(y * height / (height as int) == y) by (nonlinear_arith)
                        requires
                            0 <= y,
                            0 < height,
                    ;
                    assert(r.unwrap().pixel(x, y) == rendered(
                        self.leaves(),
                        self.width,
                        self.height,
                        width,
                        height,
                        self.padding,
                        x,
                        y,
                    ));
                }
            }
        }
        r
    }

    /// How many leaves wait to be split.
    pub fn pending(&self) -> (n: usize)
        ensures
            n == self.waiting().len(),
    {
        self.frontier.len()
    }
}

} // verus!
