//! The compositor: paints leaves into a raster of any size.

use crate::quads::Quad;
use crate::raster::{lemma_offset_bounds, offset, pixel_in, Raster};
use vstd::prelude::*;

verus! {

/// What a pixel shows where no leaf was painted: transparent black.
pub open spec fn background() -> (u8, u8, u8, u8) {
    (0u8, 0u8, 0u8, 0u8)
}

/// The width of the border that padding leaves: one pixel, or none.
pub open spec fn border(padding: bool) -> int {
    if padding {
        1
    } else {
        0
    }
}

/// Whether the leaf `q` is painted at `(x, y)` of the canvas. With a border
/// the first column and the first row of its region stay unpainted.
pub open spec fn paints(q: Quad, pad: int, x: int, y: int) -> bool {
    q.left + pad <= x < q.right && q.top + pad <= y < q.bottom
}

/// The opaque pixel of the colour of `q`.
pub open spec fn tint(q: Quad) -> (u8, u8, u8, u8) {
    (q.color.0, q.color.1, q.color.2, 255u8)
}

/// What the canvas shows at `(x, y)` once `leaves` are painted in order: the
/// colour of the last leaf painted there, or the background.
pub open spec fn canvas_pixel(leaves: Seq<Quad>, pad: int, x: int, y: int) -> (u8, u8, u8, u8)
    decreases leaves.len(),
{
    if leaves.len() == 0 {
        background()
    } else if paints(leaves.last(), pad, x, y) {
        tint(leaves.last())
    } else {
        canvas_pixel(leaves.drop_last(), pad, x, y)
    }
}

/// What the rendering shows at `(x, y)`: the pixel of the canvas, which is a
/// border wider and higher than the source, that nearest-neighbour sampling
/// picks for it.
pub open spec fn rendered(
    leaves: Seq<Quad>,
    source_width: u32,
    source_height: u32,
    target_width: u32,
    target_height: u32,
    padding: bool,
    x: int,
    y: int,
) -> (u8, u8, u8, u8) {
    let pad = border(padding);
    let width = source_width + pad;
    let height = source_height + pad;
    if width == 0 || height == 0 {
        background()
    } else {
        canvas_pixel(leaves, pad, x * width / (target_width as int), y * height / (target_height as int))
    }
}

/// Whether canvas and target of a rendering can both be held in memory.
pub open spec fn addressable(
    source_width: u32,
    source_height: u32,
    target_width: u32,
    target_height: u32,
    padding: bool,
) -> bool {
    &&& 4 * (source_width + border(padding)) * (source_height + border(padding)) <= usize::MAX
    &&& 4 * target_width * target_height <= usize::MAX
}

/// Where leaves do not overlap, the order of painting does not matter: the
/// canvas shows the colour of whichever leaf is painted at a pixel.
pub proof fn lemma_canvas_of_disjoint(leaves: Seq<Quad>, pad: int, i: int, x: int, y: int)
    requires
        0 <= pad,
        0 <= i < leaves.len(),
        forall|a: int, b: int|
            0 <= a < b < leaves.len() ==> (#[trigger] leaves[a]).rect().apart(
                (#[trigger] leaves[b]).rect(),
            ),
        paints(leaves[i], pad, x, y),
    ensures
        canvas_pixel(leaves, pad, x, y) == tint(leaves[i]),
    decreases leaves.len(),
{
    let last = leaves.len() - 1;
    if i != last {
        assert(leaves[i].rect().apart(leaves[last].rect()));
        assert(!paints(leaves.last(), pad, x, y));
        let rest = leaves.drop_last();
        assert forall|a: int, b: int| 0 <= a < b < rest.len() implies (#[trigger] rest[a]).rect().apart(
            (#[trigger] rest[b]).rect(),
        ) by {
            assert(leaves[a].rect().apart(leaves[b].rect()));
        }
        lemma_canvas_of_disjoint(rest, pad, i, x, y);
    }
}

/// A pixel at which no leaf is painted shows the background.
pub proof fn lemma_canvas_unpainted(leaves: Seq<Quad>, pad: int, x: int, y: int)
    requires
        forall|i: int| 0 <= i < leaves.len() ==> !paints(#[trigger] leaves[i], pad, x, y),
    ensures
        canvas_pixel(leaves, pad, x, y) == background(),
    decreases leaves.len(),
{
    if leaves.len() > 0 {
        let rest = leaves.drop_last();
        assert(!paints(leaves[leaves.len() - 1], pad, x, y));
        assert forall|i: int| 0 <= i < rest.len() implies !paints(#[trigger] rest[i], pad, x, y) by {
            assert(rest[i] == leaves[i]);
        }
        lemma_canvas_unpainted(rest, pad, x, y);
    }
}

/// Different pixels of a raster have different places in it.
proof fn lemma_cells_differ(width: int, x: int, y: int, i: int, j: int)
    requires
        0 <= x < width,
        0 <= i < width,
        0 <= y,
        0 <= j,
        x != i || y != j,
    ensures
        y * width + x != j * width + i,
{
    if y < j {
        assert(y * width + x < j * width + i) by (nonlinear_arith)
            requires
                0 <= x < width,
                0 <= i,
                y + 1 <= j,
        ;
    } else if j < y {
        assert(j * width + i < y * width + x) by (nonlinear_arith)
            requires
                0 <= i < width,
                0 <= x,
                j + 1 <= y,
        ;
    }
}

/// Writes `color` at the pixel `(x, y)` of a canvas `width` pixels wide.
fn put(canvas: &mut Vec<u8>, width: usize, height: usize, x: usize, y: usize, color: (u8, u8, u8, u8))
    requires
        old(canvas)@.len() == 4 * width * height,
        x < width,
        y < height,
    ensures
        final(canvas)@.len() == old(canvas)@.len(),
        pixel_in(final(canvas)@, width as int, x as int, y as int) == color,
        forall|i: int, j: int|
            0 <= i < width && 0 <= j < height && (i != x || j != y) ==> #[trigger] pixel_in(
                final(canvas)@,
                width as int,
                i,
                j,
            ) == pixel_in(old(canvas)@, width as int, i, j),
{
    proof {
        lemma_offset_bounds(width as int, height as int, x as int, y as int, 3);
        assert(canvas.len() == 4 * width * height);
    }
    let at: usize = 4 * (y * width + x);
    canvas[at] = color.0;
    canvas[at + 1] = color.1;
    canvas[at + 2] = color.2;
    canvas[at + 3] = color.3;
    proof {
        assert forall|i: int, j: int|
            0 <= i < width && 0 <= j < height && (i != x || j != y) implies #[trigger] pixel_in(
            canvas@,
            width as int,
            i,
            j,
        ) == pixel_in(old(canvas)@, width as int, i, j) by {
            lemma_cells_differ(width as int, x as int, y as int, i, j);
            lemma_offset_bounds(width as int, height as int, i, j, 3);
        }
    }
}

/// What the canvas shows at `(i, j)` while `q` is being painted over `base`,
/// row by row: rows above `y` are done, and of row `y` the pixels left of `x`.
spec fn half_painted(
    base: Seq<u8>,
    width: int,
    q: Quad,
    pad: int,
    y: int,
    x: int,
    i: int,
    j: int,
) -> (u8, u8, u8, u8) {
    if paints(q, pad, i, j) && (j < y || (j == y && i < x)) {
        tint(q)
    } else {
        pixel_in(base, width, i, j)
    }
}

/// Paints the region of `q` on the canvas, as far as it lies on it.
fn paint(canvas: &mut Vec<u8>, width: usize, height: usize, q: &Quad, padding: bool)
    requires
        old(canvas)@.len() == 4 * width * height,
    ensures
        final(canvas)@.len() == old(canvas)@.len(),
        forall|i: int, j: int|
            0 <= i < width && 0 <= j < height ==> #[trigger] pixel_in(
                final(canvas)@,
                width as int,
                i,
                j,
            ) == if paints(*q, border(padding), i, j) {
                tint(*q)
            } else {
                pixel_in(old(canvas)@, width as int, i, j)
            },
{
    let pad: u64 = if padding {
        1
    } else {
        0
    };
    let color = (q.color.0, q.color.1, q.color.2, 255u8);
    let x0: u64 = q.left as u64 + pad;
    let y0: u64 = q.top as u64 + pad;
    let x1: u64 = if (q.right as u64) < (width as u64) {
        q.right as u64
    } else {
        width as u64
    };
    let y1: u64 = if (q.bottom as u64) < (height as u64) {
        q.bottom as u64
    } else {
        height as u64
    };
    if x0 >= x1 || y0 >= y1 {
        return ;
    }
    let mut y: u64 = y0;
    while y < y1
        invariant
            canvas@.len() == 4 * width * height,
            pad == border(padding),
            color == tint(*q),
            x0 == q.left + pad,
            y0 == q.top + pad,
            x1 == if q.right < width { q.right as int } else { width as int },
            y1 == if q.bottom < height { q.bottom as int } else { height as int },
            x0 < x1,
            y0 <= y <= y1,
            forall|i: int, j: int|
                0 <= i < width && 0 <= j < height ==> #[trigger] pixel_in(canvas@, width as int, i, j)
                    == half_painted(old(canvas)@, width as int, *q, pad as int, y as int, x0 as int, i, j),
        decreases y1 - y,
    {
        let mut x: u64 = x0;
        while x < x1
            invariant
                canvas@.len() == 4 * width * height,
                pad == border(padding),
                color == tint(*q),
                x0 == q.left + pad,
                y0 == q.top + pad,
                x1 == if q.right < width { q.right as int } else { width as int },
                y1 == if q.bottom < height { q.bottom as int } else { height as int },
                x0 <= x <= x1,
                y0 <= y < y1,
                forall|i: int, j: int|
                    0 <= i < width && 0 <= j < height ==> #[trigger] pixel_in(
                        canvas@,
                        width as int,
                        i,
                        j,
                    ) == half_painted(old(canvas)@, width as int, *q, pad as int, y as int, x as int, i, j),
            decreases x1 - x,
        {
            put(canvas, width, height, x as usize, y as usize, color);
            x = x + 1;
        }
        y = y + 1;
    }
}

/// Paints `leaves` in order on a fresh canvas `width` by `height` pixels.
fn compose(leaves: &Vec<Quad>, width: usize, height: usize, padding: bool) -> (canvas: Vec<u8>)
    requires
        4 * width * height <= usize::MAX,
    ensures
        canvas@.len() == 4 * width * height,
        forall|i: int, j: int|
            0 <= i < width && 0 <= j < height ==> #[trigger] pixel_in(canvas@, width as int, i, j)
                == canvas_pixel(leaves@, border(padding), i, j),
{
    assert(width * height <= 4 * width * height) by (nonlinear_arith)
        requires
            0 <= width,
            0 <= height,
    ;
    assert(4 * (width * height) == 4 * width * height) by (nonlinear_arith);
    let cells: usize = width * height;
    let mut canvas: Vec<u8> = vec![0u8; 4 * cells];
    let mut k: usize = 0;
    proof {
        assert forall|i: int, j: int| 0 <= i < width && 0 <= j < height implies #[trigger] pixel_in(
            canvas@,
            width as int,
            i,
            j,
        ) == canvas_pixel(leaves@.take(0), border(padding), i, j) by {
            lemma_offset_bounds(width as int, height as int, i, j, 3);
        }
    }
    while k < leaves.len()
        invariant
            k <= leaves@.len(),
            canvas@.len() == 4 * width * height,
            forall|i: int, j: int|
                0 <= i < width && 0 <= j < height ==> #[trigger] pixel_in(canvas@, width as int, i, j)
                    == canvas_pixel(leaves@.take(k as int), border(padding), i, j),
        decreases leaves@.len() - k,
    {
        paint(&mut canvas, width, height, &leaves[k], padding);
        proof {
            let done = leaves@.take(k as int + 1);
            assert(done.last() == leaves@[k as int]);
            assert(done.drop_last() =~= leaves@.take(k as int));
        }
        k = k + 1;
    }
    proof {
        assert(leaves@.take(leaves@.len() as int) =~= leaves@);
    }
    canvas
}

/// Paints `leaves`, in order, on a canvas of the size of the source, one
/// pixel wider and higher with `padding`, and samples the canvas to a raster
/// of the target size: the target pixel `(x, y)` shows the canvas pixel
/// `(x * canvas_width / target_width, y * canvas_height / target_height)`.
///
/// Each leaf fills its region with its colour; with `padding` the first
/// column and the first row of the region stay as they were. What no leaf
/// fills is transparent black. Gives `None` when the canvas or the target
/// would be larger than memory can hold.
pub fn render(
    leaves: &Vec<Quad>,
    source_width: u32,
    source_height: u32,
    target_width: u32,
    target_height: u32,
    padding: bool,
) -> (r: Option<Raster>)
    ensures
        r is Some <==> addressable(source_width, source_height, target_width, target_height, padding),
        r is Some ==> {
            &&& r.unwrap().wf()
            &&& r.unwrap().spec_width() == target_width
            &&& r.unwrap().spec_height() == target_height
            &&& forall|x: int, y: int|
                0 <= x < target_width && 0 <= y < target_height ==> #[trigger] r.unwrap().pixel(x, y)
                    == rendered(
                    leaves@,
                    source_width,
                    source_height,
                    target_width,
                    target_height,
                    padding,
                    x,
                    y,
                )
        },
{
    let pad: u64 = if padding {
        1
    } else {
        0
    };
    let width: u64 = source_width as u64 + pad;
    let height: u64 = source_height as u64 + pad;
    proof {
        assert(0 <= width * height <= 0x1_0000_0000 * 0x1_0000_0000) by (nonlinear_arith)
            requires
                0 <= width <= 0x1_0000_0000,
                0 <= height <= 0x1_0000_0000,
        ;
        assert(0 <= target_width * target_height <= 0x1_0000_0000 * 0x1_0000_0000)
            by (nonlinear_arith)
            requires
                0 <= target_width <= 0x1_0000_0000,
                0 <= target_height <= 0x1_0000_0000,
        ;
        assert(4 * (width * height) == 4 * width * height) by (nonlinear_arith);
        assert(4 * (target_width * target_height) == 4 * target_width * target_height)
            by (nonlinear_arith);
    }
    let canvas_bytes: u128 = 4 * ((width as u128) * (height as u128));
    let target_bytes: u128 = 4 * ((target_width as u128) * (target_height as u128));
    if canvas_bytes > usize::MAX as u128 || target_bytes > usize::MAX as u128 {
        return None;
    }
    let blank = width == 0 || height == 0;
    proof {
        if !blank {
            assert(width <= usize::MAX && height <= usize::MAX) by (nonlinear_arith)
                requires
                    4 * width * height <= usize::MAX,
                    0 < width,
                    0 < height,
            ;
        }
    }
    let canvas = if blank {
        Vec::new()
    } else {
        compose(leaves, width as usize, height as usize, padding)
    };
    if !blank && target_width as u64 == width && target_height as u64 == height {
        let same = Raster::new(target_width, target_height, canvas);
        proof {
            assert forall|x: int, y: int|
                0 <= x < target_width && 0 <= y < target_height implies #[trigger] same.unwrap().pixel(
                x,
                y,
            ) == rendered(
                leaves@,
                source_width,
                source_height,
                target_width,
                target_height,
                padding,
                x,
                y,
            ) by {
                lemma_sample_same(x, width as int);
                lemma_sample_same(y, height as int);
            }
        }
        return same;
    }
    let mut data: Vec<u8> = Vec::new();
    let mut y: u32 = 0;
    while y < target_height
        invariant
            pad == border(padding),
            width == source_width + pad,
            height == source_height + pad,
            blank == (width == 0 || height == 0),
            !blank ==> canvas@.len() == 4 * width * height && width <= usize::MAX && height
                <= usize::MAX,
            y <= target_height,
            data@.len() == 4 * (y * target_width),
            forall|i: int, j: int|
                !blank && 0 <= i < width && 0 <= j < height ==> #[trigger] pixel_in(
                    canvas@,
                    width as int,
                    i,
                    j,
                ) == canvas_pixel(leaves@, border(padding), i, j),
            forall|i: int, j: int|
                0 <= i < target_width && 0 <= j < y ==> #[trigger] pixel_in(
                    data@,
                    target_width as int,
                    i,
                    j,
                ) == rendered(
                    leaves@,
                    source_width,
                    source_height,
                    target_width,
                    target_height,
                    padding,
                    i,
                    j,
                ),
        decreases target_height - y,
    {
        let mut x: u32 = 0;
        while x < target_width
            invariant
                pad == border(padding),
                width == source_width + pad,
                height == source_height + pad,
                blank == (width == 0 || height == 0),
                !blank ==> canvas@.len() == 4 * width * height && width <= usize::MAX && height
                <= usize::MAX,
                y < target_height,
                x <= target_width,
                data@.len() == 4 * (y * target_width + x),
                forall|i: int, j: int|
                    !blank && 0 <= i < width && 0 <= j < height ==> #[trigger] pixel_in(
                        canvas@,
                        width as int,
                        i,
                        j,
                    ) == canvas_pixel(leaves@, border(padding), i, j),
                forall|i: int, j: int|
                    0 <= i < target_width && (0 <= j < y || (j == y && i < x)) ==> #[trigger] pixel_in(
                        data@,
                        target_width as int,
                        i,
                        j,
                    ) == rendered(
                        leaves@,
                        source_width,
                        source_height,
                        target_width,
                        target_height,
                        padding,
                        i,
                        j,
                    ),
            decreases target_width - x,
        {
            let ghost before = data@;
            let mut color = (0u8, 0u8, 0u8, 0u8);
            if !blank {
                proof {
                    lemma_sample_bounds(x as int, target_width as int, width as int);
                    lemma_sample_bounds(y as int, target_height as int, height as int);
                }
                let sx: u64 = (x as u64) * width / (target_width as u64);
                let sy: u64 = (y as u64) * height / (target_height as u64);
                proof {
                    lemma_offset_bounds(width as int, height as int, sx as int, sy as int, 3);
                    assert(canvas.len() == 4 * width * height);
                    assert(pixel_in(canvas@, width as int, sx as int, sy as int) == canvas_pixel(
                        leaves@,
                        border(padding),
                        sx as int,
                        sy as int,
                    ));
                }
                let at: usize = 4 * ((sy as usize) * (width as usize) + (sx as usize));
                color = (canvas[at], canvas[at + 1], canvas[at + 2], canvas[at + 3]);
            }
            data.push(color.0);
            data.push(color.1);
            data.push(color.2);
            data.push(color.3);
            proof {
                assert forall|i: int, j: int|
                    0 <= i < target_width && (0 <= j < y || (j == y && i < x + 1)) implies #[trigger] pixel_in(
                    data@,
                    target_width as int,
                    i,
                    j,
                ) == rendered(
                    leaves@,
                    source_width,
                    source_height,
                    target_width,
                    target_height,
                    padding,
                    i,
                    j,
                ) by {
                    if j == y && i == x {
                        assert(offset(target_width as int, i, j, 0) == before.len());
                    } else {
                        lemma_offset_bounds(target_width as int, y as int + 1, i, j, 3);
                        assert(j * target_width + i < y * target_width + x) by (nonlinear_arith)
                            requires
                                0 <= i < target_width,
                                0 <= x < target_width,
                                j < y || (j == y && i < x),
                                0 <= j,
                        ;
                        assert(pixel_in(before, target_width as int, i, j) == pixel_in(
                            data@,
                            target_width as int,
                            i,
                            j,
                        ));
                    }
                }
            }
            x = x + 1;
        }
        proof {
            assert(4 * (y * target_width + target_width) == 4 * ((y + 1) * target_width))
                by (nonlinear_arith);
        }
        y = y + 1;
    }
    proof {
        assert(4 * (target_height * target_width) == 4 * target_width * target_height)
            by (nonlinear_arith);
    }
    Raster::new(target_width, target_height, data)
}

/// Sampling to the size of the canvas takes every pixel from its own place.
proof fn lemma_sample_same(at: int, size: int)
    requires
        0 <= at,
        0 < size,
    ensures
        at * size / size == at,
{
    assert(at * size / size == at) by (nonlinear_arith)
        requires
            0 <= at,
            0 < size,
    ;
}

/// Nearest-neighbour sampling stays on the canvas: the pixel `at` of `target`
/// pixels is taken from a place below `source`.
proof fn lemma_sample_bounds(at: int, target: int, source: int)
    requires
        0 <= at < target <= u32::MAX,
        0 < source <= 0x1_0000_0000,
    ensures
        0 <= at * source <= u64::MAX,
        0 <= at * source / target < source,
{
    assert(0 <= at * source <= 0xffff_ffff * 0x1_0000_0000) by (nonlinear_arith)
        requires
            0 <= at <= 0xffff_ffff,
            0 <= source <= 0x1_0000_0000,
    ;
    assert(at * source < target * source) by (nonlinear_arith)
        requires
            0 <= at < target,
            0 < source,
    ;
    assert(0 <= at * source / target < source) by (nonlinear_arith)
        requires
            0 <= at * source < target * source,
            0 < target,
    ;
}

} // verus!
