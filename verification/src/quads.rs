//! Quad nodes: a rectangle of the picture, the flat colour that stands for
//! it, and, once split, its four quarters.

use crate::raster::Raster;
use crate::stats::{average_color_from_image, region_color, region_spread, Color};
use vstd::prelude::*;

verus! {

/// Below this width or height a region counts as small.
pub const SMALL_SIZE: u32 = 4;

/// Below this width or height a region cannot be split.
pub const SPLIT_SIZE: u32 = 2;

/// A half-open rectangle of pixels: columns `left..right`, rows `top..bottom`.
#[derive(Clone, Copy, PartialEq, Eq, Structural, Debug)]
pub struct Rect {
    pub left: u32,
    pub top: u32,
    pub right: u32,
    pub bottom: u32,
}

impl Rect {
    /// The rectangle holds at least one pixel.
    pub open spec fn valid(&self) -> bool {
        self.left < self.right && self.top < self.bottom
    }

    pub open spec fn width(&self) -> int {
        self.right - self.left
    }

    pub open spec fn height(&self) -> int {
        self.bottom - self.top
    }

    /// Number of pixels.
    pub open spec fn area(&self) -> int {
        self.width() * self.height()
    }

    /// Whether the pixel `(x, y)` lies in the rectangle.
    pub open spec fn contains(&self, x: int, y: int) -> bool {
        self.left <= x < self.right && self.top <= y < self.bottom
    }

    /// The column that separates the left quarters from the right ones.
    pub open spec fn mid_x(&self) -> u32 {
        (self.left + self.width() / 2) as u32
    }

    /// The row that separates the top quarters from the bottom ones.
    pub open spec fn mid_y(&self) -> u32 {
        (self.top + self.height() / 2) as u32
    }

    /// Quarter `i` of the rectangle: 0 top left, 1 top right, 2 bottom left,
    /// 3 bottom right. With an odd width or height the left or top quarters
    /// are the smaller ones.
    pub open spec fn quarter(&self, i: int) -> Rect {
        if i == 0 {
            Rect { left: self.left, top: self.top, right: self.mid_x(), bottom: self.mid_y() }
        } else if i == 1 {
            Rect { left: self.mid_x(), top: self.top, right: self.right, bottom: self.mid_y() }
        } else if i == 2 {
            Rect { left: self.left, top: self.mid_y(), right: self.mid_x(), bottom: self.bottom }
        } else {
            Rect { left: self.mid_x(), top: self.mid_y(), right: self.right, bottom: self.bottom }
        }
    }

    /// The rectangle is wide and high enough to be quartered.
    pub open spec fn splittable(&self) -> bool {
        self.width() >= SPLIT_SIZE && self.height() >= SPLIT_SIZE
    }

    /// The rectangle lies within `frame`.
    pub open spec fn within(&self, frame: Rect) -> bool {
        frame.left <= self.left && self.right <= frame.right && frame.top <= self.top
            && self.bottom <= frame.bottom
    }

    /// The rectangles are separated by a vertical or a horizontal line.
    pub open spec fn apart(&self, other: Rect) -> bool {
        self.right <= other.left || other.right <= self.left || self.bottom <= other.top
            || other.bottom <= self.top
    }
}

/// Two rectangles apart from each other share no pixel, and two rectangles
/// with a pixel each that share none are apart.
pub proof fn lemma_apart_is_disjoint(a: Rect, b: Rect)
    requires
        a.valid(),
        b.valid(),
    ensures
        a.apart(b) <==> forall|x: int, y: int| !(a.contains(x, y) && b.contains(x, y)),
{
    if !a.apart(b) {
        let x = if a.left >= b.left {
            a.left as int
        } else {
            b.left as int
        };
        let y = if a.top >= b.top {
            a.top as int
        } else {
            b.top as int
        };
        assert(a.contains(x, y) && b.contains(x, y));
    }
}

/// A rectangle within another holds only pixels of the other, and a
/// rectangle with a pixel whose pixels all lie in another is within it.
pub proof fn lemma_within_is_subset(a: Rect, frame: Rect)
    requires
        a.valid(),
    ensures
        a.within(frame) <==> forall|x: int, y: int| a.contains(x, y) ==> frame.contains(x, y),
{
    if !a.within(frame) {
        assert(a.contains(a.left as int, a.top as int));
        assert(a.contains(a.right - 1, a.bottom - 1));
    }
}

/// Quartering a rectangle at least two pixels wide and high gives four
/// rectangles with a pixel each, which lie within it, are pairwise apart,
/// hold every pixel of it between them, and have its area between them.
pub proof fn lemma_quarters_partition(r: Rect)
    requires
        r.splittable(),
    ensures
        forall|i: int| 0 <= i < 4 ==> (#[trigger] r.quarter(i)).valid() && r.quarter(i).within(r),
        forall|i: int, j: int| 0 <= i < j < 4 ==> (#[trigger] r.quarter(i)).apart(#[trigger] r.quarter(j)),
        forall|x: int, y: int|
            r.contains(x, y) <==> r.quarter(0).contains(x, y) || r.quarter(1).contains(x, y)
                || r.quarter(2).contains(x, y) || r.quarter(3).contains(x, y),
        r.quarter(0).area() + r.quarter(1).area() + r.quarter(2).area() + r.quarter(3).area()
            == r.area(),
{
    let w = r.width();
    let h = r.height();
    let a = w / 2;
    let b = h / 2;
    assert(r.mid_x() == r.left + a);
    assert(r.mid_y() == r.top + b);
    assert(a * b + (w - a) * b + a * (h - b) + (w - a) * (h - b) == w * h) by (nonlinear_arith);
}

/// The leaves of the trees below the first `k` of `quads`, in order.
pub open spec fn leaves_upto(quads: Seq<Quad>, k: nat) -> Seq<Quad>
    decreases quads, k,
{
    if k == 0 || k > quads.len() {
        Seq::empty()
    } else {
        leaves_upto(quads, (k - 1) as nat) + quads[k - 1].leaf_seq()
    }
}

/// A node of the quadtree.
#[derive(Debug)]
pub struct Quad {
    pub left: u32,
    pub top: u32,
    pub right: u32,
    pub bottom: u32,
    /// The average colour of the region.
    pub color: Color,
    /// Per channel, the mean squared deviation of the region from `color`.
    pub spread: (u32, u32, u32),
    /// Empty for a leaf; the four quarters once the node is split.
    pub children: Vec<Quad>,
}

impl Quad {
    /// The rectangle of the node.
    pub open spec fn rect(&self) -> Rect {
        Rect { left: self.left, top: self.top, right: self.right, bottom: self.bottom }
    }

    /// The node has no children.
    pub open spec fn is_leaf(&self) -> bool {
        self.children@.len() == 0
    }

    /// Colour and spread are those of the node's region of `image`.
    pub open spec fn depicts(&self, image: &Raster) -> bool {
        &&& self.color == region_color(image, self.left, self.top, self.right, self.bottom)
        &&& self.spread == region_spread(image, self.left, self.top, self.right, self.bottom)
    }

    /// The node is the leaf that `new` makes for `rect` of `image`.
    pub open spec fn is_leaf_for(&self, image: &Raster, rect: Rect) -> bool {
        &&& self.rect() == rect
        &&& self.depicts(image)
        &&& self.is_leaf()
    }

    /// The region is narrower or lower than `SMALL_SIZE`.
    pub open spec fn small(&self) -> bool {
        self.rect().width() < SMALL_SIZE || self.rect().height() < SMALL_SIZE
    }

    /// The leaves of the tree below the node, from left to right; the node
    /// itself if it is a leaf.
    pub open spec fn leaf_seq(&self) -> Seq<Quad>
        decreases self, 0nat,
    {
        if self.children@.len() == 0 {
            seq![*self]
        } else {
            leaves_upto(self.children@, self.children@.len())
        }
    }

    /// The tree below the node is well split: every node holds a pixel, and
    /// a node with children has exactly its four quarters, in order.
    pub open spec fn well_split(&self) -> bool
        decreases self,
    {
        &&& self.rect().valid()
        &&& self.children@.len() == 0 || self.children@.len() == 4
        &&& forall|i: int|
            0 <= i < self.children@.len() ==> {
                &&& (#[trigger] self.children@[i]).rect() == self.rect().quarter(i)
                &&& self.children@[i].well_split()
            }
    }

    /// Analyses the region `[left, right) x [top, bottom)` of `image` and
    /// makes a leaf for it.
    pub fn new(left: u32, top: u32, right: u32, bottom: u32, image: &Raster) -> (q: Quad)
        requires
            image.wf(),
            left < right,
            top < bottom,
        ensures
            q.is_leaf_for(image, Rect { left, top, right, bottom }),
    {
        let (color, spread) = average_color_from_image(image, left, top, right, bottom);
        Quad { left, top, right, bottom, color, spread, children: Vec::new() }
    }

    pub fn width(&self) -> (w: u32)
        requires
            self.left <= self.right,
        ensures
            w == self.rect().width(),
    {
        self.right - self.left
    }

    pub fn height(&self) -> (h: u32)
        requires
            self.top <= self.bottom,
        ensures
            h == self.rect().height(),
    {
        self.bottom - self.top
    }

    /// Number of pixels of the region.
    pub fn area(&self) -> (a: u64)
        requires
            self.left <= self.right,
            self.top <= self.bottom,
        ensures
            a == self.rect().area(),
    {
        let w = self.width() as u64;
        let h = self.height() as u64;
        assert(w * h <= 0xffff_ffff * 0xffff_ffff) by (nonlinear_arith)
            requires
                0 <= w <= 0xffff_ffff,
                0 <= h <= 0xffff_ffff,
        ;
        w * h
    }

    /// Whether the region is wide and high enough to be split.
    pub fn splittable(&self) -> (b: bool)
        requires
            self.left <= self.right,
            self.top <= self.bottom,
        ensures
            b == self.rect().splittable(),
    {
        self.width() >= SPLIT_SIZE && self.height() >= SPLIT_SIZE
    }

    /// Gives the node its four quarters as children, each a leaf analysed
    /// from `image`, in the order top left, top right, bottom left, bottom
    /// right. Earlier children are replaced. A region less than two pixels
    /// wide or high is left as it is.
    pub fn split(&mut self, image: &Raster)
        requires
            image.wf(),
            old(self).rect().valid(),
        ensures
            final(self).rect() == old(self).rect(),
            final(self).color == old(self).color,
            final(self).spread == old(self).spread,
            old(self).rect().splittable() ==> {
                &&& final(self).children@.len() == 4
                &&& forall|i: int|
                    0 <= i < 4 ==> (#[trigger] final(self).children@[i]).is_leaf_for(
                        image,
                        old(self).rect().quarter(i),
                    )
            },
            !old(self).rect().splittable() ==> final(self).children == old(self).children,
            old(self).rect().splittable() ==> final(self).well_split(),
    {
        if !self.splittable() {
            return ;
        }
        proof {
            lemma_quarters_partition(self.rect());
        }
        let mid_x = self.left + self.width() / 2;
        let mid_y = self.top + self.height() / 2;
        let tl = Quad::new(self.left, self.top, mid_x, mid_y, image);
        let tr = Quad::new(mid_x, self.top, self.right, mid_y, image);
        let bl = Quad::new(self.left, mid_y, mid_x, self.bottom, image);
        let br = Quad::new(mid_x, mid_y, self.right, self.bottom, image);
        self.children.clear();
        self.children.push(tl);
        self.children.push(tr);
        self.children.push(bl);
        self.children.push(br);
        proof {
            assert forall|i: int| 0 <= i < 4 implies (#[trigger] self.children@[i]).well_split() by {
                assert(self.children@[i].rect() == self.rect().quarter(i));
                assert(self.children@[i].is_leaf());
            }
        }
    }
}

impl Quad {
    /// The leaves of the tree below the node, from left to right.
    pub fn get_leaf_nodes(self) -> (leaves: Vec<Quad>)
        ensures
            leaves@ == self.leaf_seq(),
    {
        let mut leaves = Vec::new();
        Self::leaves(self, &mut leaves);
        assert(leaves@ =~= self.leaf_seq());
        leaves
    }

    /// Adds the leaves of the tree below `quad` to `leaves`, from left to
    /// right.
    pub fn leaves(quad: Quad, leaves: &mut Vec<Quad>)
        ensures
            final(leaves)@ == old(leaves)@ + quad.leaf_seq(),
        decreases quad,
    {
        if quad.children.len() == 0 {
            leaves.push(quad);
            assert(leaves@ =~= old(leaves)@ + quad.leaf_seq());
            return ;
        }
        let ghost all = quad.children@;
        let mut rest = quad.children;
        let ghost mut k: nat = 0;
        while rest.len() > 0
            invariant
                all == quad.children@,
                k + rest@.len() == all.len(),
                rest@ == all.subrange(k as int, all.len() as int),
                leaves@ == old(leaves)@ + leaves_upto(all, k),
            decreases rest@.len(),
        {
            let child = rest.remove(0);
            assert(child == all[k as int]);
            Self::leaves(child, leaves);
            proof {
                assert(rest@ =~= all.subrange(k as int + 1, all.len() as int));
                assert(leaves@ =~= old(leaves)@ + leaves_upto(all, k + 1));
                k = k + 1;
            }
        }
    }
}

impl PartialEq for Quad {
    /// Two nodes are equal when their regions are: colour, spread and
    /// children play no part.
    fn eq(&self, other: &Quad) -> (b: bool) {
        self.top == other.top && self.left == other.left && self.right == other.right
            && self.bottom == other.bottom
    }
}

impl vstd::std_specs::cmp::PartialEqSpecImpl for Quad {
    open spec fn obeys_eq_spec() -> bool {
        true
    }

    open spec fn eq_spec(&self, other: &Quad) -> bool {
        self.top == other.top && self.left == other.left && self.right == other.right
            && self.bottom == other.bottom
    }
}

/// Whether a region is narrower or lower than `SMALL_SIZE`: such a region is
/// refined only after every region that is not.
pub fn is_small(q: &Quad) -> (b: bool)
    requires
        q.left <= q.right,
        q.top <= q.bottom,
    ensures
        b == q.small(),
{
    q.width() < SMALL_SIZE || q.height() < SMALL_SIZE
}

} // verus!
