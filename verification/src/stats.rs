//! Region statistics: the flat colour that stands for a rectangle of pixels,
//! and how far the pixels spread around it.

use crate::raster::Raster;
use vstd::prelude::*;

verus! {

/// Red, green and blue.
pub type Color = (u8, u8, u8);

/// Samples counted in the first `n` buckets of `h`.
pub open spec fn total(h: Seq<u64>, n: int) -> int
    decreases n,
{
    if n <= 0 {
        0
    } else {
        total(h, n - 1) + h[n - 1]
    }
}

/// Sum of the intensities of the samples in the first `n` buckets of `h`:
/// bucket `i` holds samples of intensity `i`.
pub open spec fn weighted_sum(h: Seq<u64>, n: int) -> int
    decreases n,
{
    if n <= 0 {
        0
    } else {
        weighted_sum(h, n - 1) + (n - 1) * h[n - 1]
    }
}

/// Sum, over the samples in the first `n` buckets of `h`, of the squared
/// distance between the sample's intensity and `mean`.
pub open spec fn deviation_sum(h: Seq<u64>, mean: int, n: int) -> int
    decreases n,
{
    if n <= 0 {
        0
    } else {
        deviation_sum(h, mean, n - 1) + h[n - 1] * ((mean - (n - 1)) * (mean - (n - 1)))
    }
}

/// The average intensity of a histogram, rounded down; 0 for an empty one.
pub open spec fn mean_of(h: Seq<u64>) -> int {
    let n = h.len() as int;
    if total(h, n) == 0 {
        0
    } else {
        weighted_sum(h, n) / total(h, n)
    }
}

/// The mean squared deviation of a histogram from `mean_of`, rounded down;
/// 0 for an empty one. Its square root is the root-mean-square deviation.
pub open spec fn spread_of(h: Seq<u64>) -> int {
    let n = h.len() as int;
    if total(h, n) == 0 {
        0
    } else {
        deviation_sum(h, mean_of(h), n) / total(h, n)
    }
}

/// The sums of a histogram are non-negative, and the weighted sum is at most
/// the largest intensity times the number of samples.
pub proof fn lemma_sum_bounds(h: Seq<u64>, n: int)
    requires
        0 <= n <= h.len(),
    ensures
        0 <= total(h, n) <= n * u64::MAX,
        0 <= weighted_sum(h, n),
        n >= 1 ==> weighted_sum(h, n) <= (n - 1) * total(h, n),
    decreases n,
{
    if n > 0 {
        lemma_sum_bounds(h, n - 1);
        let c = h[n - 1] as int;
        let t = total(h, n - 1);
        assert(0 <= (n - 1) * c) by (nonlinear_arith)
            requires
                0 <= n - 1,
                0 <= c,
        ;
        assert((n - 1) * u64::MAX + c <= n * u64::MAX) by (nonlinear_arith)
            requires
                c <= u64::MAX,
        ;
        if n >= 2 {
            assert((n - 2) * t + (n - 1) * c <= (n - 1) * (t + c)) by (nonlinear_arith)
                requires
                    0 <= t,
                    0 <= c,
            ;
        }
    }
}

/// Around a mean within the 8-bit range, no sample of a histogram of at most
/// 256 buckets deviates by more than 255.
pub proof fn lemma_deviation_bounds(h: Seq<u64>, mean: int, n: int)
    requires
        0 <= n <= h.len(),
        n <= 256,
        0 <= mean <= 255,
    ensures
        0 <= deviation_sum(h, mean, n) <= 65025 * total(h, n),
    decreases n,
{
    if n > 0 {
        lemma_deviation_bounds(h, mean, n - 1);
        lemma_sum_bounds(h, n - 1);
        let c = h[n - 1] as int;
        let d = mean - (n - 1);
        assert(0 <= d * d <= 65025) by (nonlinear_arith)
            requires
                -255 <= d <= 255,
        ;
        assert(0 <= c * (d * d) <= 65025 * c) by (nonlinear_arith)
            requires
                0 <= c,
                0 <= d * d <= 65025,
        ;
    }
}

/// The mean and the spread of a 256-bucket histogram stay within the ranges
/// of the types that carry them.
pub proof fn lemma_mean_spread_bounds(h: Seq<u64>)
    requires
        h.len() == 256,
    ensures
        0 <= mean_of(h) <= 255,
        0 <= spread_of(h) <= 65025,
{
    let t = total(h, 256);
    let w = weighted_sum(h, 256);
    lemma_sum_bounds(h, 256);
    if t != 0 {
        assert(0 <= w / t <= 255) by (nonlinear_arith)
            requires
                0 <= w <= 255 * t,
                t > 0,
        ;
        let s = deviation_sum(h, mean_of(h), 256);
        lemma_deviation_bounds(h, mean_of(h), 256);
        assert(0 <= s / t <= 65025) by (nonlinear_arith)
            requires
                0 <= s <= 65025 * t,
                t > 0,
        ;
    }
}

/// Average intensity and mean squared deviation of one channel histogram,
/// both rounded toward zero; `(0, 0)` when the histogram holds no sample.
pub fn weighted_average(histogram: &[u64; 256]) -> (r: (u8, u32))
    ensures
        r.0 == mean_of(histogram@),
        r.1 == spread_of(histogram@),
{
    let mut weighted: u128 = 0;
    let mut count: u128 = 0;
    let mut i: usize = 0;
    while i < 256
        invariant
            i <= 256,
            count == total(histogram@, i as int),
            weighted == weighted_sum(histogram@, i as int),
        decreases 256 - i,
    {
        proof {
            lemma_sum_bounds(histogram@, i as int);
            lemma_sum_bounds(histogram@, i as int + 1);
            let c = histogram@[i as int] as int;
            let t = total(histogram@, i as int + 1);
            assert(0 <= i * c <= 255 * u64::MAX) by (nonlinear_arith)
                requires
                    0 <= i <= 255,
                    0 <= c <= u64::MAX,
            ;
            assert(i * t <= 255 * (256 * u64::MAX)) by (nonlinear_arith)
                requires
                    0 <= i <= 255,
                    0 <= t <= 256 * u64::MAX,
            ;
        }
        weighted = weighted + (i as u128) * (histogram[i] as u128);
        count = count + histogram[i] as u128;
        i = i + 1;
    }
    if count == 0 {
        return (0, 0);
    }
    proof {
        lemma_mean_spread_bounds(histogram@);
    }
    let mean: u128 = weighted / count;
    let mut squares: u128 = 0;
    let mut j: usize = 0;
    while j < 256
        invariant
            j <= 256,
            0 <= mean <= 255,
            count == total(histogram@, 256),
            squares == deviation_sum(histogram@, mean as int, j as int),
        decreases 256 - j,
    {
        proof {
            lemma_deviation_bounds(histogram@, mean as int, j as int);
            lemma_deviation_bounds(histogram@, mean as int, j as int + 1);
            lemma_sum_bounds(histogram@, j as int);
            lemma_sum_bounds(histogram@, j as int + 1);
        }
        let distance: u128 = if mean >= j as u128 {
            mean - j as u128
        } else {
            j as u128 - mean
        };
        assert(distance * distance == (mean - j) * (mean - j)) by (nonlinear_arith)
            requires
                distance == mean - j || distance == j - mean,
        ;
        assert(distance * distance <= 65025) by (nonlinear_arith)
            requires
                0 <= distance <= 255,
        ;
        proof {
            let c = histogram@[j as int] as int;
            let t = total(histogram@, j as int + 1);
            assert(0 <= c * (distance * distance) <= u64::MAX * 65025) by (nonlinear_arith)
                requires
                    0 <= c <= u64::MAX,
                    0 <= distance * distance <= 65025,
            ;
            assert(65025 * t <= 65025 * (256 * u64::MAX)) by (nonlinear_arith)
                requires
                    t <= 256 * u64::MAX,
            ;
        }
        squares = squares + (histogram[j] as u128) * (distance * distance);
        j = j + 1;
    }
    ((mean as u8), ((squares / count) as u32))
}

/// The smaller of two bounds: where a span that ends at `end` stops inside a
/// raster that ends at `limit`.
pub open spec fn clip(end: u32, limit: u32) -> u32 {
    if end < limit {
        end
    } else {
        limit
    }
}

/// How many of the pixels `(x, y)`, `x0 <= x < x1`, of row `y` have the value
/// `v` in channel `c`.
pub open spec fn row_count(img: &Raster, y: int, x0: int, x1: int, c: int, v: int) -> int
    decreases x1 - x0,
{
    if x1 <= x0 {
        0
    } else {
        row_count(img, y, x0, x1 - 1, c, v) + if img.channel(x1 - 1, y, c) == v {
            1int
        } else {
            0int
        }
    }
}

/// How many of the pixels `(x, y)`, `x0 <= x < x1` and `y0 <= y < y1`, have
/// the value `v` in channel `c`.
pub open spec fn region_count(
    img: &Raster,
    x0: int,
    x1: int,
    y0: int,
    y1: int,
    c: int,
    v: int,
) -> int
    decreases y1 - y0,
{
    if y1 <= y0 {
        0
    } else {
        region_count(img, x0, x1, y0, y1 - 1, c, v) + row_count(img, y1 - 1, x0, x1, c, v)
    }
}

/// The histogram of channel `c` over the part of the rectangle
/// `[left, right) x [top, bottom)` that lies inside the raster.
pub open spec fn region_histogram(
    img: &Raster,
    left: u32,
    top: u32,
    right: u32,
    bottom: u32,
    c: int,
) -> Seq<u64> {
    Seq::new(
        256,
        |v: int|
            region_count(
                img,
                left as int,
                clip(right, img.spec_width()) as int,
                top as int,
                clip(bottom, img.spec_height()) as int,
                c,
                v,
            ) as u64,
    )
}

/// The flat colour of a rectangle: the average of each channel.
pub open spec fn region_color(img: &Raster, left: u32, top: u32, right: u32, bottom: u32) -> Color {
    (
        mean_of(region_histogram(img, left, top, right, bottom, 0)) as u8,
        mean_of(region_histogram(img, left, top, right, bottom, 1)) as u8,
        mean_of(region_histogram(img, left, top, right, bottom, 2)) as u8,
    )
}

/// The mean squared deviation of each channel of a rectangle from its average.
pub open spec fn region_spread(img: &Raster, left: u32, top: u32, right: u32, bottom: u32) -> (
    u32,
    u32,
    u32,
) {
    (
        spread_of(region_histogram(img, left, top, right, bottom, 0)) as u32,
        spread_of(region_histogram(img, left, top, right, bottom, 1)) as u32,
        spread_of(region_histogram(img, left, top, right, bottom, 2)) as u32,
    )
}

/// The entries of a region's histogram are the counts themselves: no region
/// holds more pixels than an entry can count.
pub proof fn lemma_histogram_counts(
    img: &Raster,
    left: u32,
    top: u32,
    right: u32,
    bottom: u32,
    c: int,
    v: int,
)
    requires
        0 <= v < 256,
    ensures
        region_histogram(img, left, top, right, bottom, c)[v] == region_count(
            img,
            left as int,
            clip(right, img.spec_width()) as int,
            top as int,
            clip(bottom, img.spec_height()) as int,
            c,
            v,
        ),
{
    let x1 = clip(right, img.spec_width()) as int;
    let y1 = clip(bottom, img.spec_height()) as int;
    if left < x1 && top < y1 {
        lemma_region_count_bounds(img, left as int, x1, top as int, y1, c, v);
        assert((y1 - top) * (x1 - left) <= 0xffff_ffff * 0xffff_ffff) by (nonlinear_arith)
            requires
                0 <= y1 - top <= 0xffff_ffff,
                0 <= x1 - left <= 0xffff_ffff,
        ;
    } else {
        lemma_region_count_empty(img, left as int, x1, top as int, y1, c);
    }
}

/// A row holds no more matching pixels than it has pixels.
pub proof fn lemma_row_count_bounds(img: &Raster, y: int, x0: int, x1: int, c: int, v: int)
    requires
        x0 <= x1,
    ensures
        0 <= row_count(img, y, x0, x1, c, v) <= x1 - x0,
    decreases x1 - x0,
{
    if x0 < x1 {
        lemma_row_count_bounds(img, y, x0, x1 - 1, c, v);
    }
}

/// A region holds no more matching pixels than it has pixels.
pub proof fn lemma_region_count_bounds(
    img: &Raster,
    x0: int,
    x1: int,
    y0: int,
    y1: int,
    c: int,
    v: int,
)
    requires
        x0 <= x1,
        y0 <= y1,
    ensures
        0 <= region_count(img, x0, x1, y0, y1, c, v) <= (y1 - y0) * (x1 - x0),
    decreases y1 - y0,
{
    if y0 < y1 {
        lemma_region_count_bounds(img, x0, x1, y0, y1 - 1, c, v);
        lemma_row_count_bounds(img, y1 - 1, x0, x1, c, v);
        assert((y1 - 1 - y0) * (x1 - x0) + (x1 - x0) == (y1 - y0) * (x1 - x0))
            by (nonlinear_arith);
    }
}

/// Counts one more sample of intensity `v`.
fn tally(histogram: &mut [u64; 256], v: u8)
    requires
        old(histogram)@[v as int] < u64::MAX,
    ensures
        final(histogram)@ == old(histogram)@.update(v as int, (old(histogram)@[v as int] + 1) as u64),
{
    let i = v as usize;
    let n = histogram[i];
    histogram[i] = n + 1;
}

/// What the three histograms hold while row `y` is being scanned, after the
/// rows above it and its pixels left of `x`.
spec fn scanned(
    img: &Raster,
    h: Seq<u64>,
    c: int,
    left: int,
    x_end: int,
    top: int,
    y: int,
    x: int,
) -> bool {
    forall|v: int|
        0 <= v < 256 ==> #[trigger] h[v] == region_count(img, left, x_end, top, y, c, v)
            + row_count(img, y, left, x, c, v)
}

/// The three channel histograms (red, green, blue) of the part of the
/// rectangle `[left, right) x [top, bottom)` that lies inside the raster.
pub fn histograms(image: &Raster, left: u32, top: u32, right: u32, bottom: u32) -> (h: (
    [u64; 256],
    [u64; 256],
    [u64; 256],
))
    requires
        image.wf(),
    ensures
        h.0@ == region_histogram(image, left, top, right, bottom, 0),
        h.1@ == region_histogram(image, left, top, right, bottom, 1),
        h.2@ == region_histogram(image, left, top, right, bottom, 2),
{
    let x_end = if right < image.width() {
        right
    } else {
        image.width()
    };
    let y_end = if bottom < image.height() {
        bottom
    } else {
        image.height()
    };
    let mut red = [0u64;256];
    let mut green = [0u64;256];
    let mut blue = [0u64;256];
    let mut y = top;
    while y < y_end
        invariant
            image.wf(),
            x_end == clip(right, image.spec_width()),
            y_end == clip(bottom, image.spec_height()),
            top <= y,
            y <= y_end || y == top,
            scanned(image, red@, 0, left as int, x_end as int, top as int, y as int, left as int),
            scanned(image, green@, 1, left as int, x_end as int, top as int, y as int, left as int),
            scanned(image, blue@, 2, left as int, x_end as int, top as int, y as int, left as int),
        decreases y_end - y,
    {
        let mut x = left;
        while x < x_end
            invariant
                image.wf(),
                x_end == clip(right, image.spec_width()),
                y_end == clip(bottom, image.spec_height()),
                top <= y < y_end,
                left <= x,
                x <= x_end || x == left,
                scanned(image, red@, 0, left as int, x_end as int, top as int, y as int, x as int),
                scanned(image, green@, 1, left as int, x_end as int, top as int, y as int, x as int),
                scanned(image, blue@, 2, left as int, x_end as int, top as int, y as int, x as int),
            decreases x_end - x,
        {
            let r = image.sample(x, y, 0);
            let g = image.sample(x, y, 1);
            let b = image.sample(x, y, 2);
            proof {
                lemma_seen_fits(image, left as int, x_end as int, top as int, y as int, x as int, 0, r as int);
                lemma_seen_fits(image, left as int, x_end as int, top as int, y as int, x as int, 1, g as int);
                lemma_seen_fits(image, left as int, x_end as int, top as int, y as int, x as int, 2, b as int);
            }
            tally(&mut red, r);
            tally(&mut green, g);
            tally(&mut blue, b);
            x = x + 1;
        }
        y = y + 1;
    }
    proof {
        if top < y_end {
            assert(y == y_end);
        } else {
            assert(y == top);
            lemma_region_count_empty(image, left as int, x_end as int, top as int, y_end as int, 0);
            lemma_region_count_empty(image, left as int, x_end as int, top as int, y_end as int, 1);
            lemma_region_count_empty(image, left as int, x_end as int, top as int, y_end as int, 2);
        }
        assert(red@ =~= region_histogram(image, left, top, right, bottom, 0));
        assert(green@ =~= region_histogram(image, left, top, right, bottom, 1));
        assert(blue@ =~= region_histogram(image, left, top, right, bottom, 2));
    }
    (red, green, blue)
}

/// While a region inside a raster is being scanned, the pixels seen so far
/// are fewer than a counter can hold.
proof fn lemma_seen_fits(
    img: &Raster,
    left: int,
    x_end: int,
    top: int,
    y: int,
    x: int,
    c: int,
    v: int,
)
    requires
        0 <= left <= x < x_end <= u32::MAX,
        0 <= top <= y < u32::MAX,
    ensures
        0 <= region_count(img, left, x_end, top, y, c, v) + row_count(img, y, left, x, c, v)
            < u64::MAX,
{
    lemma_region_count_bounds(img, left, x_end, top, y, c, v);
    lemma_row_count_bounds(img, y, left, x, c, v);
    assert((y - top) * (x_end - left) <= 0xffff_fffe * 0xffff_ffff) by (nonlinear_arith)
        requires
            0 <= y - top <= 0xffff_fffe,
            0 <= x_end - left <= 0xffff_ffff,
    ;
}

/// A region without rows or without columns holds no pixel.
pub proof fn lemma_region_count_empty(img: &Raster, x0: int, x1: int, y0: int, y1: int, c: int)
    requires
        x1 <= x0 || y1 <= y0,
    ensures
        forall|v: int| #[trigger] region_count(img, x0, x1, y0, y1, c, v) == 0,
    decreases y1 - y0,
{
    if y0 < y1 {
        lemma_region_count_empty(img, x0, x1, y0, y1 - 1, c);
        assert forall|v: int| #[trigger] region_count(img, x0, x1, y0, y1, c, v) == 0 by {
            assert(region_count(img, x0, x1, y0, y1 - 1, c, v) == 0);
            assert(row_count(img, y1 - 1, x0, x1, c, v) == 0);
        }
    }
}

/// The sums of a histogram whose samples all have the intensity `k`.
proof fn lemma_single_bucket(h: Seq<u64>, k: int, n: int, m: int)
    requires
        0 <= k < h.len(),
        0 <= m <= h.len(),
        forall|v: int| 0 <= v < h.len() ==> #[trigger] h[v] == if v == k { n } else { 0 },
    ensures
        total(h, m) == if m > k { n } else { 0 },
        weighted_sum(h, m) == if m > k { k * n } else { 0 },
        deviation_sum(h, k, m) == 0,
    decreases m,
{
    if m > 0 {
        lemma_single_bucket(h, k, n, m - 1);
        assert((m - 1) * 0 == 0);
        let d = k - (m - 1);
        assert(h[m - 1] * (d * d) == 0) by (nonlinear_arith)
            requires
                h[m - 1] == 0 || d == 0,
        ;
    }
}

/// A histogram whose samples all have the intensity `k` has the mean `k` and
/// no spread.
pub proof fn lemma_single_bucket_stats(h: Seq<u64>, k: int, n: int)
    requires
        0 <= k < h.len(),
        n > 0,
        forall|v: int| 0 <= v < h.len() ==> #[trigger] h[v] == if v == k { n } else { 0 },
    ensures
        mean_of(h) == k,
        spread_of(h) == 0,
{
    lemma_single_bucket(h, k, n, h.len() as int);
    assert((k * n) / n == k) by (nonlinear_arith)
        requires
            n > 0,
    ;
    assert(0int / n == 0) by (nonlinear_arith)
        requires
            n > 0,
    ;
}

/// In a region where channel `c` has the value `k` at every pixel, every
/// pixel counts for `k` and none for another value.
proof fn lemma_uniform_count(img: &Raster, x0: int, x1: int, y0: int, y1: int, c: int, k: int, v: int)
    requires
        x0 <= x1,
        y0 <= y1,
        forall|x: int, y: int| x0 <= x < x1 && y0 <= y < y1 ==> #[trigger] img.channel(x, y, c) == k,
    ensures
        region_count(img, x0, x1, y0, y1, c, v) == if v == k {
            (y1 - y0) * (x1 - x0)
        } else {
            0
        },
    decreases y1 - y0,
{
    if y0 < y1 {
        lemma_uniform_count(img, x0, x1, y0, y1 - 1, c, k, v);
        lemma_uniform_row(img, y1 - 1, x0, x1, c, k, v);
        assert((y1 - 1 - y0) * (x1 - x0) + (x1 - x0) == (y1 - y0) * (x1 - x0))
            by (nonlinear_arith);
    } else {
        assert((y1 - y0) * (x1 - x0) == 0) by (nonlinear_arith)
            requires
                y1 - y0 == 0,
        ;
    }
}

/// The same for one row.
proof fn lemma_uniform_row(img: &Raster, y: int, x0: int, x1: int, c: int, k: int, v: int)
    requires
        x0 <= x1,
        forall|x: int| x0 <= x < x1 ==> #[trigger] img.channel(x, y, c) == k,
    ensures
        row_count(img, y, x0, x1, c, v) == if v == k {
            x1 - x0
        } else {
            0
        },
    decreases x1 - x0,
{
    if x0 < x1 {
        lemma_uniform_row(img, y, x0, x1 - 1, c, k, v);
        assert(img.channel(x1 - 1, y, c) == k);
    }
}

/// One channel of a uniform region: its histogram has the mean `k` and no
/// spread.
proof fn lemma_uniform_channel(
    img: &Raster,
    left: u32,
    top: u32,
    right: u32,
    bottom: u32,
    c: int,
    k: u8,
)
    requires
        left < clip(right, img.spec_width()),
        top < clip(bottom, img.spec_height()),
        forall|x: int, y: int|
            left <= x < clip(right, img.spec_width()) && top <= y < clip(bottom, img.spec_height())
                ==> #[trigger] img.channel(x, y, c) == k,
    ensures
        mean_of(region_histogram(img, left, top, right, bottom, c)) == k,
        spread_of(region_histogram(img, left, top, right, bottom, c)) == 0,
{
    let x1 = clip(right, img.spec_width()) as int;
    let y1 = clip(bottom, img.spec_height()) as int;
    let n = (y1 - top) * (x1 - left);
    assert(0 < n <= 0xffff_ffff * 0xffff_ffff) by (nonlinear_arith)
        requires
            n == (y1 - top) * (x1 - left),
            0 < y1 - top <= 0xffff_ffff,
            0 < x1 - left <= 0xffff_ffff,
    ;
    let h = region_histogram(img, left, top, right, bottom, c);
    assert forall|v: int| 0 <= v < h.len() implies #[trigger] h[v] == if v == k as int {
        n
    } else {
        0
    } by {
        lemma_uniform_count(img, left as int, x1, top as int, y1, c, k as int, v);
    }
    lemma_single_bucket_stats(h, k as int, n);
}

/// A region of one colour is approximated by exactly that colour, with no
/// deviation in any channel, whatever its size.
pub proof fn lemma_uniform_region(
    img: &Raster,
    left: u32,
    top: u32,
    right: u32,
    bottom: u32,
    color: Color,
)
    requires
        left < clip(right, img.spec_width()),
        top < clip(bottom, img.spec_height()),
        forall|x: int, y: int|
            #![trigger img.channel(x, y, 0)]
            #![trigger img.channel(x, y, 1)]
            #![trigger img.channel(x, y, 2)]
            left <= x < clip(right, img.spec_width()) && top <= y < clip(bottom, img.spec_height())
                ==> {
                &&& img.channel(x, y, 0) == color.0
                &&& img.channel(x, y, 1) == color.1
                &&& img.channel(x, y, 2) == color.2
            },
    ensures
        region_color(img, left, top, right, bottom) == color,
        region_spread(img, left, top, right, bottom) == (0u32, 0u32, 0u32),
{
    lemma_uniform_channel(img, left, top, right, bottom, 0, color.0);
    lemma_uniform_channel(img, left, top, right, bottom, 1, color.1);
    lemma_uniform_channel(img, left, top, right, bottom, 2, color.2);
}

/// The flat colour of the part of `[left, right) x [top, bottom)` inside the
/// raster, and per channel the mean squared deviation of its pixels from that
/// colour. A region without pixels gives black and no deviation.
pub fn average_color_from_image(
    image: &Raster,
    left: u32,
    top: u32,
    right: u32,
    bottom: u32,
) -> (r: (Color, (u32, u32, u32)))
    requires
        image.wf(),
    ensures
        r.0 == region_color(image, left, top, right, bottom),
        r.1 == region_spread(image, left, top, right, bottom),
{
    let h = histograms(image, left, top, right, bottom);
    let (red, red_spread) = weighted_average(&h.0);
    let (green, green_spread) = weighted_average(&h.1);
    let (blue, blue_spread) = weighted_average(&h.2);
    ((red, green, blue), (red_spread, green_spread, blue_spread))
}

} // verus!
