//! How the renderers lay out and hand out the pixels of a `width` by `height`
//! image: output positions, the order in which pixels are visited, and the
//! groups of scanlines given to parallel workers.
use vstd::prelude::*;

verus! {

/// Output position of the pixel in row `i` (counted from the bottom) and
/// column `j`: rows are written from the top one down, each left to right.
pub open spec fn index_of(width: int, height: int, i: int, j: int) -> int {
    width * (height - i - 1) + j
}

/// Output position of the pixel in row `i` and column `j`,
/// `width * (height - i - 1) + j`.
pub fn pixel_index(width: i32, height: i32, i: i32, j: i32) -> (idx: usize)
    requires
        0 <= i < height,
        0 <= j < width,
        width * height <= i32::MAX,
    ensures
        idx == index_of(width as int, height as int, i as int, j as int),
        idx < width * height,
{
    let rows_above: i32 = height - i - 1;
    assert(0 <= width * rows_above <= width * (height - 1)) by (nonlinear_arith)
        requires
            0 <= rows_above <= height - 1,
            0 < width,
    ;
    assert(width * (height - 1) + width == width * height) by (nonlinear_arith);
    (width * rows_above + j) as usize
}

/// Two pixels of the image never share an output position.
pub proof fn lemma_pixel_index_injective(width: int, height: int, i1: int, j1: int, i2: int, j2: int)
    requires
        0 <= i1 < height,
        0 <= i2 < height,
        0 <= j1 < width,
        0 <= j2 < width,
        index_of(width, height, i1, j1) == index_of(width, height, i2, j2),
    ensures
        i1 == i2,
        j1 == j2,
{
    if i1 != i2 {
        if i1 < i2 {
            assert(width * (height - i1 - 1) >= width * (height - i2 - 1) + width) by (nonlinear_arith)
                requires
                    i1 < i2,
                    width > 0,
            ;
        } else {
            assert(width * (height - i2 - 1) >= width * (height - i1 - 1) + width) by (nonlinear_arith)
                requires
                    i2 < i1,
                    width > 0,
            ;
        }
    }
}

/// The pixel written at output position `k`: row `height - 1 - k / width`,
/// column `k % width`.
pub open spec fn pixel_at(width: int, height: int, k: int) -> (i32, i32) {
    ((height - 1 - k / width) as i32, (k % width) as i32)
}

/// Every pixel as `(row, column)`, in output order: rows from `height - 1`
/// down to 0, each from column 0 to `width - 1`.
pub fn scanline_order(width: i32, height: i32) -> (pixels: Vec<(i32, i32)>)
    requires
        width >= 0,
        height >= 0,
        width * height <= i32::MAX,
    ensures
        pixels@.len() == width * height,
        forall|k: int| 0 <= k < pixels@.len() ==> #[trigger] pixels@[k] == pixel_at(width as int, height as int, k),
{
    let mut pixels: Vec<(i32, i32)> = Vec::new();
    let mut i: i32 = height;
    while i > 0
        invariant
            0 <= i <= height,
            width >= 0,
            width * height <= i32::MAX,
            pixels@.len() == width * (height - i),
            forall|k: int| 0 <= k < pixels@.len() ==> #[trigger] pixels@[k] == pixel_at(width as int, height as int, k),
        decreases i,
    {
        i = i - 1;
        let mut j: i32 = 0;
        while j < width
            invariant
                0 <= i < height,
                0 <= j <= width,
                width * height <= i32::MAX,
                pixels@.len() == width * (height - i - 1) + j,
                forall|k: int| 0 <= k < pixels@.len() ==> #[trigger] pixels@[k] == pixel_at(width as int, height as int, k),
            decreases width - j,
        {
            proof {
                let k = width * (height - i - 1) + j;
                assert(k == (height - i - 1) * width + j) by (nonlinear_arith)
                    requires
                        k == width * (height - i - 1) + j,
                ;
                vstd::arithmetic::div_mod::lemma_fundamental_div_mod_converse(
                    k,
                    width as int,
                    height - i - 1,
                    j as int,
                );
            }
            pixels.push((i, j));
            j = j + 1;
        }
        assert(width * (height - i - 1) + width == width * (height - i)) by (nonlinear_arith);
    }
    assert(width * (height - 0) == width * height);
    pixels
}

/// In output order, the pixel at the output position of `(i, j)` is `(i, j)`.
pub proof fn lemma_order_matches_index(width: int, height: int, i: int, j: int)
    requires
        0 <= i < height,
        0 <= j < width,
        height <= i32::MAX,
    ensures
        0 <= index_of(width, height, i, j) < width * height,
        pixel_at(width, height, index_of(width, height, i, j)) == (i as i32, j as i32),
{
    let k = index_of(width, height, i, j);
    assert(k == (height - i - 1) * width + j) by (nonlinear_arith)
        requires
            k == width * (height - i - 1) + j,
    ;
    vstd::arithmetic::div_mod::lemma_fundamental_div_mod_converse(k, width, height - i - 1, j);
    assert(0 <= k < width * height) by (nonlinear_arith)
        requires
            k == width * (height - i - 1) + j,
            0 <= i < height,
            0 <= j < width,
    ;
}

/// The pixel visited after `(i, j)` by the threaded volume renderer: the next
/// column, or column 0 of the row below after the last column.
pub fn next_pixel(i: i32, j: i32, width: i32) -> (next: (i32, i32))
    requires
        width > i32::MIN,
        j == width - 1 ==> i > i32::MIN,
        j != width - 1 ==> j < i32::MAX,
    ensures
        next == if j == width - 1 {
            ((i - 1) as i32, 0i32)
        } else {
            (i, (j + 1) as i32)
        },
{
    if j == width - 1 {
        (i - 1, 0)
    } else {
        (i, j + 1)
    }
}

/// The pixel visited in step `k` when the walk starts at `(height, 0)`.
pub open spec fn walk(width: int, height: int, k: nat) -> (int, int)
    decreases k,
{
    if k == 0 {
        (height, 0)
    } else {
        let (i, j) = walk(width, height, (k - 1) as nat);
        if j == width - 1 {
            (i - 1, 0)
        } else {
            (i, j + 1)
        }
    }
}

/// Walking from `(height, 0)`, step `k` visits row `height - k / width` and
/// column `k % width`: the walk covers rows `height` down to 1, not `height - 1`
/// down to 0.
pub proof fn lemma_walk(width: int, height: int, k: nat)
    requires
        width > 0,
    ensures
        walk(width, height, k) == (height - k as int / width, k as int % width),
    decreases k,
{
    if k == 0 {
        vstd::arithmetic::div_mod::lemma_small_mod(0, width as nat);
        vstd::arithmetic::div_mod::lemma_fundamental_div_mod_converse(0, width, 0, 0);
    } else {
        let p = (k - 1) as nat;
        lemma_walk(width, height, p);
        let q: int = p as int / width;
        let r: int = p as int % width;
        vstd::arithmetic::div_mod::lemma_fundamental_div_mod(p as int, width);
        assert(p == q * width + r) by (nonlinear_arith)
            requires
                p == width * q + r,
        ;
        if r == width - 1 {
            assert(k == (q + 1) * width + 0) by (nonlinear_arith)
                requires
                    p == q * width + r,
                    r == width - 1,
                    k == p + 1,
            ;
            vstd::arithmetic::div_mod::lemma_fundamental_div_mod_converse(k as int, width, q + 1, 0int);
        } else {
            vstd::arithmetic::div_mod::lemma_fundamental_div_mod_converse(k as int, width, q, r + 1);
        }
    }
}

/// The pixels `(i, 0)` to `(i, width - 1)` of row `i` (none when `width` is
/// not positive).
pub open spec fn row_pixels(i: int, width: int) -> Seq<(i32, i32)> {
    Seq::new(if width > 0 { width as nat } else { 0 }, |j: int| (i as i32, j as i32))
}

/// Rows `hi - 1` down to `lo`, each left to right.
pub open spec fn rows_down(hi: int, lo: int, width: int) -> Seq<(i32, i32)>
    decreases hi - lo,
{
    if hi <= lo {
        Seq::empty()
    } else {
        row_pixels(hi - 1, width) + rows_down(hi - 1, lo, width)
    }
}

/// Scanlines per group when `height` rows are split into `height` groups:
/// `1 + height / height`.
pub open spec fn lines_per_group(height: int) -> int {
    1 + height / height
}

/// The pixels of group `g`: the rows `i` with `i / lines_per_group == g`,
/// from the highest down, each left to right.
pub open spec fn group_pixels(width: int, height: int, g: int) -> Seq<(i32, i32)> {
    let per = lines_per_group(height);
    let hi = if (g + 1) * per < height { (g + 1) * per } else { height };
    rows_down(hi, g * per, width)
}

fn push_row(out: &mut Vec<(i32, i32)>, i: i32, width: i32)
    ensures
        final(out)@ == old(out)@ + row_pixels(i as int, width as int),
{
    let mut j: i32 = 0;
    while j < width
        invariant
            0 <= j,
            j <= width || j == 0,
            out@ == old(out)@ + row_pixels(i as int, j as int),
        decreases width - j,
    {
        out.push((i, j));
        j = j + 1;
        assert(out@ =~= old(out)@ + row_pixels(i as int, j as int));
    }
    assert(row_pixels(i as int, j as int) =~= row_pixels(i as int, width as int));
}

/// The scanline groups of the chunked parallel renderer: `height` groups, of
/// which group `g` holds the rows `i` with `i / (1 + height / height) == g`
/// (so two rows per group, and the upper half of the groups stays empty),
/// rows from the highest down and each row left to right.
///
/// A negative height gives no groups, and a width that is not positive gives
/// empty groups. The height must not be 0: the number of groups, which is the
/// height, is a divisor.
pub fn scanline_groups(width: i32, height: i32) -> (groups: Vec<Vec<(i32, i32)>>)
    requires
        height != 0,
    ensures
        groups@.len() == if height > 0 { height as int } else { 0 },
        forall|g: int|
            0 <= g < height ==> #[trigger] groups@[g]@ == group_pixels(width as int, height as int, g),
{
    if height < 0 {
        return Vec::new();
    }
    let num_groups: i32 = height;
    let sl_per_group: i32 = 1 + height / num_groups;
    assert(sl_per_group == 2);
    let mut groups: Vec<Vec<(i32, i32)>> = Vec::new();
    let mut g: i32 = 0;
    while g < num_groups
        invariant
            0 <= g <= num_groups,
            num_groups == height,
            sl_per_group == lines_per_group(height as int),
            sl_per_group == 2,
            groups@.len() == g,
            forall|k: int|
                0 <= k < g ==> #[trigger] groups@[k]@ == group_pixels(width as int, height as int, k),
        decreases num_groups - g,
    {
        let lo: i64 = g as i64 * 2;
        let hi: i64 = if (g as i64 + 1) * 2 < height as i64 {
            (g as i64 + 1) * 2
        } else {
            height as i64
        };
        let mut group: Vec<(i32, i32)> = Vec::new();
        let mut i: i64 = hi;
        while i > lo
            invariant
                i <= hi <= height,
                lo <= i || (i == hi && hi <= lo),
                0 <= lo,
                rows_down(hi as int, lo as int, width as int) == group@ + rows_down(
                    i as int,
                    lo as int,
                    width as int,
                ),
            decreases i - lo,
        {
            let ghost before = group@;
            assert(rows_down(i as int, lo as int, width as int) == row_pixels(
                i - 1,
                width as int,
            ) + rows_down(i - 1, lo as int, width as int));
            i = i - 1;
            push_row(&mut group, i as i32, width);
            assert(before + (row_pixels(i as int, width as int) + rows_down(
                i as int,
                lo as int,
                width as int,
            )) =~= group@ + rows_down(i as int, lo as int, width as int));
        }
        assert(rows_down(i as int, lo as int, width as int) =~= Seq::<(i32, i32)>::empty());
        assert(group@ =~= rows_down(hi as int, lo as int, width as int));
        groups.push(group);
        g = g + 1;
    }
    groups
}

/// A pixel lies in rows `hi - 1` down to `lo` exactly when its row is in
/// `lo..hi` and its column in `0..width`.
pub proof fn lemma_rows_down_contains(hi: int, lo: int, width: int, i: int, j: int)
    requires
        i32::MIN <= lo,
        hi <= i32::MAX + 1,
        0 <= width <= i32::MAX + 1,
        i32::MIN <= i <= i32::MAX,
        i32::MIN <= j <= i32::MAX,
    ensures
        rows_down(hi, lo, width).contains((i as i32, j as i32)) <==> (lo <= i < hi && 0 <= j < width),
    decreases hi - lo,
{
    if hi > lo {
        lemma_rows_down_contains(hi - 1, lo, width, i, j);
        let row = row_pixels(hi - 1, width);
        let rest = rows_down(hi - 1, lo, width);
        assert(rows_down(hi, lo, width) == row + rest);
        if lo <= i < hi && 0 <= j < width {
            if i == hi - 1 {
                assert(row[j] == (i as i32, j as i32));
                assert((row + rest)[j] == row[j]);
            } else {
                let k = choose|k: int| 0 <= k < rest.len() && rest[k] == (i as i32, j as i32);
                assert((row + rest)[row.len() + k] == rest[k]);
            }
        }
        if (row + rest).contains((i as i32, j as i32)) {
            let k = choose|k: int|
                0 <= k < (row + rest).len() && (row + rest)[k] == (i as i32, j as i32);
            if k < row.len() {
                assert(row[k] == (i as i32, j as i32));
            } else {
                assert(rest[k - row.len()] == (i as i32, j as i32));
            }
        }
    }
}

/// Every pixel of the image lies in exactly one scanline group: the group
/// `i / 2` of its row `i`.
pub proof fn lemma_groups_partition(width: int, height: int, g: int, i: int, j: int)
    requires
        0 < height <= i32::MAX,
        0 <= width <= i32::MAX,
        0 <= g < height,
        0 <= i < height,
        0 <= j < width,
    ensures
        group_pixels(width, height, g).contains((i as i32, j as i32)) <==> g == i / 2,
{
    assert(lines_per_group(height) == 2) by {
        vstd::arithmetic::div_mod::lemma_div_basics(height);
    }
    let hi = if (g + 1) * 2 < height { (g + 1) * 2 } else { height };
    lemma_rows_down_contains(hi, g * 2, width, i, j);
}

/// Sum of `s`.
pub open spec fn sum_of(s: Seq<i32>) -> int
    decreases s.len(),
{
    if s.len() == 0 {
        0
    } else {
        sum_of(s.drop_last()) + s.last()
    }
}

/// Every partial sum of `s`, from the front, fits in an `i32`.
pub open spec fn partial_sums_fit(s: Seq<i32>) -> bool {
    forall|k: int| 0 <= k <= s.len() ==> i32::MIN <= #[trigger] sum_of(s.take(k)) <= i32::MAX
}

/// `a / b` rounded toward zero, as Rust's integer division does (`b > 0`).
pub open spec fn div_toward_zero(a: int, b: int) -> int {
    if a >= 0 {
        a / b
    } else {
        -((-a) / b)
    }
}

/// Average number of intersection steps per ray: the `i32` sum of the
/// recorded counts divided by their number, rounded toward zero.
///
/// The counts must not be empty (their number is the divisor), and every
/// partial sum must fit in an `i32`, as the sum is accumulated in one.
pub fn average_steps(iters: &Vec<i32>) -> (avg: i32)
    requires
        0 < iters@.len() <= i32::MAX,
        partial_sums_fit(iters@),
    ensures
        avg as int == div_toward_zero(sum_of(iters@), iters@.len() as int),
{
    let mut total: i32 = 0;
    let mut k: usize = 0;
    while k < iters.len()
        invariant
            k <= iters@.len(),
            partial_sums_fit(iters@),
            total == sum_of(iters@.take(k as int)),
        decreases iters@.len() - k,
    {
        assert(iters@.take(k + 1).drop_last() =~= iters@.take(k as int));
        assert(i32::MIN <= sum_of(iters@.take(k + 1)) <= i32::MAX);
        total = total + iters[k];
        k = k + 1;
    }
    assert(iters@.take(iters@.len() as int) =~= iters@);
    let n: i32 = iters.len() as i32;
    total / n
}

/// The image being assembled from pixels that workers send back, with the
/// number of pixels still awaited.
pub struct PixelGrid<C> {
    pixels: Vec<C>,
    remaining: usize,
}

/// The pixels after storing each `(index, color)` of `msgs` in order.
pub open spec fn stored_all<C>(pixels: Seq<C>, msgs: Seq<(usize, C)>) -> Seq<C>
    decreases msgs.len(),
{
    if msgs.len() == 0 {
        pixels
    } else {
        let prev = stored_all(pixels, msgs.drop_last());
        prev.update(msgs.last().0 as int, msgs.last().1)
    }
}

impl<C: Copy> PixelGrid<C> {
    /// The pixels stored so far.
    pub closed spec fn pixels(&self) -> Seq<C> {
        self.pixels@
    }

    /// Number of pixels still awaited.
    pub closed spec fn remaining(&self) -> nat {
        self.remaining as nat
    }

    /// An image of `count` pixels, all `fill`, awaiting `count` pixels.
    pub fn new(count: usize, fill: C) -> (grid: PixelGrid<C>)
        ensures
            grid.pixels() == Seq::new(count as nat, |k: int| fill),
            grid.remaining() == count,
    {
        let mut pixels: Vec<C> = Vec::new();
        let mut k: usize = 0;
        while k < count
            invariant
                k <= count,
                pixels@ == Seq::new(k as nat, |m: int| fill),
            decreases count - k,
        {
            pixels.push(fill);
            k = k + 1;
            assert(pixels@ =~= Seq::new(k as nat, |m: int| fill));
        }
        PixelGrid { pixels, remaining: count }
    }

    /// Whether pixels are still awaited.
    pub fn waiting(&self) -> (w: bool)
        ensures
            w == (self.remaining() > 0),
    {
        self.remaining > 0
    }

    /// Stores the color a worker sent for position `idx` and counts the pixel.
    ///
    /// `idx` must be a position of the image, and a pixel must still be
    /// awaited (the receiving loop stops once none is).
    pub fn receive(&mut self, idx: usize, col: C)
        requires
            idx < old(self).pixels().len(),
            old(self).remaining() > 0,
        ensures
            final(self).pixels() == old(self).pixels().update(idx as int, col),
            final(self).remaining() == old(self).remaining() - 1,
    {
        self.pixels.set(idx, col);
        self.remaining = self.remaining - 1;
    }

    /// The assembled pixels.
    pub fn into_pixels(self) -> (pixels: Vec<C>)
        ensures
            pixels@ == self.pixels(),
    {
        self.pixels
    }
}

/// When every position of the image is sent exactly once, each pixel ends up
/// holding the color sent for its position.
pub proof fn lemma_each_pixel_arrives<C>(pixels: Seq<C>, msgs: Seq<(usize, C)>, k: int)
    requires
        0 <= k < msgs.len(),
        forall|m: int| 0 <= m < msgs.len() ==> #[trigger] msgs[m].0 < pixels.len(),
        forall|a: int, b: int| 0 <= a < b < msgs.len() ==> #[trigger] msgs[a].0 != #[trigger] msgs[b].0,
    ensures
        stored_all(pixels, msgs).len() == pixels.len(),
        stored_all(pixels, msgs)[msgs[k].0 as int] == msgs[k].1,
    decreases msgs.len(),
{
    let prefix = msgs.drop_last();
    lemma_stored_len(pixels, msgs);
    assert forall|m: int| 0 <= m < prefix.len() implies #[trigger] prefix[m].0 < pixels.len() by {
        assert(prefix[m] == msgs[m]);
    }
    assert forall|a: int, b: int| 0 <= a < b < prefix.len() implies #[trigger] prefix[a].0
        != #[trigger] prefix[b].0 by {
        assert(prefix[a] == msgs[a]);
        assert(prefix[b] == msgs[b]);
    }
    if k < msgs.len() - 1 {
        assert(prefix[k] == msgs[k]);
        assert(msgs[k].0 != msgs[msgs.len() - 1].0);
        lemma_each_pixel_arrives(pixels, prefix, k);
    } else {
        lemma_stored_len(pixels, prefix);
    }
}

proof fn lemma_stored_len<C>(pixels: Seq<C>, msgs: Seq<(usize, C)>)
    requires
        forall|m: int| 0 <= m < msgs.len() ==> #[trigger] msgs[m].0 < pixels.len(),
    ensures
        stored_all(pixels, msgs).len() == pixels.len(),
    decreases msgs.len(),
{
    if msgs.len() > 0 {
        let prefix = msgs.drop_last();
        assert forall|m: int| 0 <= m < prefix.len() implies #[trigger] prefix[m].0 < pixels.len() by {
            assert(prefix[m] == msgs[m]);
        }
        lemma_stored_len(pixels, prefix);
    }
}

/// `x` fits in an `i32`.
pub open spec fn fits_i32(x: int) -> bool {
    i32::MIN <= x <= i32::MAX
}

/// First column of tile `t` in tile row `row`, with `groups_per_width` tiles
/// per row of the image and tiles `group_width` columns wide.
pub open spec fn tile_j_start(t: int, row: int, group_width: int, groups_per_width: int) -> int {
    (t - row * (groups_per_width + 1)) * group_width
}

/// Output positions `j + i * width` of row `i` for the columns `j` of
/// `j_start..j_end` that are not past the last column.
pub open spec fn tile_row_indices(i: int, j_start: int, j_end: int, width: int) -> Seq<i32> {
    let stop = if j_end < width { j_end } else { width };
    Seq::new(if stop > j_start { (stop - j_start) as nat } else { 0 }, |k: int| (j_start + k + i * width) as i32)
}

/// Output positions of the rows `i_end - 1` down to `i_start` of a tile,
/// skipping rows above `height`.
pub open spec fn tile_rows(i_end: int, i_start: int, j_start: int, j_end: int, width: int, height: int) -> Seq<
    i32,
>
    decreases i_end - i_start,
{
    if i_end <= i_start {
        Seq::empty()
    } else {
        let i = i_end - 1;
        let here = if i > height { Seq::empty() } else { tile_row_indices(i, j_start, j_end, width) };
        here + tile_rows(i, i_start, j_start, j_end, width, height)
    }
}

/// Every `i32` computation of the tile layout stays in range.
pub open spec fn tile_fits(
    t: int,
    row: int,
    group_width: int,
    group_height: int,
    groups_per_width: int,
    width: int,
    height: int,
) -> bool {
    let js = tile_j_start(t, row, group_width, groups_per_width);
    let is = row * group_height;
    &&& fits_i32(groups_per_width + 1)
    &&& fits_i32(row * (groups_per_width + 1))
    &&& fits_i32(t - row * (groups_per_width + 1))
    &&& fits_i32(js)
    &&& fits_i32(js + group_width)
    &&& fits_i32(is)
    &&& fits_i32(is + group_width)
    &&& fits_i32(is + group_width + 1)
    &&& fits_i32(width - 1)
    &&& forall|i: int, j: int|
        is <= i < is + group_width + 1 && i <= height && js <= j < js + group_width && j
            <= width - 1 ==> #[trigger] cell_fits(i, j, width)
}

/// The position `j + i * width` of a tile cell, and its product, fit in an `i32`.
pub open spec fn cell_fits(i: int, j: int, width: int) -> bool {
    fits_i32(i * width) && fits_i32(j + i * width)
}

/// Output positions of the pixels of tile `t` in the tiled parallel renderer,
/// whose tile row `row` the caller has computed: columns from
/// `(t - row * (groups_per_width + 1)) * group_width`, `group_width` of them;
/// rows from `row * group_height`, `group_width + 1` of them, taken from the
/// highest down; rows above `height` and columns past `width - 1` are skipped.
/// Each position is `j + i * width`, before its conversion to an index.
///
/// All of this is computed in `i32`, so every intermediate value must fit in
/// one.
pub fn tile_indices(
    t: i32,
    row: i32,
    group_width: i32,
    group_height: i32,
    groups_per_width: i32,
    width: i32,
    height: i32,
) -> (indices: Vec<i32>)
    requires
        tile_fits(
            t as int,
            row as int,
            group_width as int,
            group_height as int,
            groups_per_width as int,
            width as int,
            height as int,
        ),
    ensures
        indices@ == tile_rows(
            row * group_height + group_width + 1,
            row * group_height,
            tile_j_start(t as int, row as int, group_width as int, groups_per_width as int),
            tile_j_start(t as int, row as int, group_width as int, groups_per_width as int)
                + group_width,
            width as int,
            height as int,
        ),
{
    let j_start: i32 = (t - row * (groups_per_width + 1)) * group_width;
    let j_end: i32 = j_start + group_width;
    let i_start: i32 = row * group_height;
    let i_end: i32 = i_start + group_width + 1;
    let ghost total = tile_rows(i_end as int, i_start as int, j_start as int, j_end as int, width as int, height as int);
    let mut indices: Vec<i32> = Vec::new();
    let mut i: i32 = i_end;
    while i > i_start
        invariant
            i_start <= i <= i_end || (i == i_end && i_end <= i_start),
            j_end == j_start + group_width,
            i_end == i_start + group_width + 1,
            tile_fits(
                t as int,
                row as int,
                group_width as int,
                group_height as int,
                groups_per_width as int,
                width as int,
                height as int,
            ),
            j_start == tile_j_start(t as int, row as int, group_width as int, groups_per_width as int),
            i_start == row * group_height,
            total == tile_rows(i_end as int, i_start as int, j_start as int, j_end as int, width as int, height as int),
            total == indices@ + tile_rows(i as int, i_start as int, j_start as int, j_end as int, width as int, height as int),
        decreases i - i_start,
    {
        i = i - 1;
        let ghost before = indices@;
        if i > height {
            assert(tile_rows(i + 1, i_start as int, j_start as int, j_end as int, width as int, height as int)
                =~= tile_rows(i as int, i_start as int, j_start as int, j_end as int, width as int, height as int));
            continue;
        }
        let mut j: i32 = j_start;
        while j < j_end
            invariant
                j_start <= j <= j_end || (j == j_start && j_end <= j_start),
                j_end == j_start + group_width,
                i_start <= i < i_end,
                i_end == i_start + group_width + 1,
                i <= height,
                i_start == row * group_height,
                j_start == tile_j_start(t as int, row as int, group_width as int, groups_per_width as int),
                tile_fits(
                    t as int,
                    row as int,
                    group_width as int,
                    group_height as int,
                    groups_per_width as int,
                    width as int,
                    height as int,
                ),
                indices@ == before + tile_row_indices(
                    i as int,
                    j_start as int,
                    if j < width { j as int } else { width as int },
                    width as int,
                ),
            decreases j_end - j,
        {
            if j > width - 1 {
                j = j + 1;
                continue;
            }
            proof {
                let is = row * group_height;
                let js = tile_j_start(t as int, row as int, group_width as int, groups_per_width as int);
                assert(is <= i < is + group_width + 1);
                assert(js <= j < js + group_width);
                assert(j <= width - 1);
                assert(i <= height);
                assert(cell_fits(i as int, j as int, width as int));
            }
            let index: i32 = j + i * width;
            indices.push(index);
            j = j + 1;
            assert(indices@ =~= before + tile_row_indices(
                i as int,
                j_start as int,
                if j < width { j as int } else { width as int },
                width as int,
            ));
        }
        assert(tile_row_indices(i as int, j_start as int, if j < width { j as int } else { width as int }, width as int)
            =~= tile_row_indices(i as int, j_start as int, j_end as int, width as int));
        assert(before + tile_row_indices(i as int, j_start as int, j_end as int, width as int)
            + tile_rows(i as int, i_start as int, j_start as int, j_end as int, width as int, height as int)
            =~= before + tile_rows(i + 1, i_start as int, j_start as int, j_end as int, width as int, height as int));
    }
    assert(tile_rows(i as int, i_start as int, j_start as int, j_end as int, width as int, height as int)
        =~= Seq::<i32>::empty());
    assert(indices@ =~= total);
    indices
}

/// The groups `g - 1` down to 0, one after the other: the order in which the
/// chunked renderer writes its groups out.
pub open spec fn groups_written(width: int, height: int, g: int) -> Seq<(i32, i32)>
    decreases g,
{
    if g <= 0 {
        Seq::empty()
    } else {
        group_pixels(width, height, g - 1) + groups_written(width, height, g - 1)
    }
}

/// Rows `a - 1` down to `b`, then rows `b - 1` down to `c`, are rows `a - 1`
/// down to `c`.
pub proof fn lemma_rows_down_concat(a: int, b: int, c: int, width: int)
    requires
        c <= b <= a,
    ensures
        rows_down(a, b, width) + rows_down(b, c, width) == rows_down(a, c, width),
    decreases a - b,
{
    if a > b {
        lemma_rows_down_concat(a - 1, b, c, width);
        assert(row_pixels(a - 1, width) + rows_down(a - 1, b, width) + rows_down(b, c, width)
            =~= row_pixels(a - 1, width) + (rows_down(a - 1, b, width) + rows_down(b, c, width)));
    } else {
        assert(rows_down(a, b, width) =~= Seq::<(i32, i32)>::empty());
        assert(rows_down(a, b, width) + rows_down(b, c, width) =~= rows_down(b, c, width));
    }
}

/// The rows from `height - 1` down to 0 hold the pixels in output order.
pub proof fn lemma_rows_down_in_output_order(width: int, height: int)
    requires
        width > 0,
        0 <= height <= i32::MAX,
        width <= i32::MAX,
    ensures
        rows_down(height, 0, width) =~= Seq::new((width * height) as nat, |k: int| pixel_at(width, height, k)),
    decreases height,
{
    if height > 0 {
        lemma_rows_down_in_output_order(width, height - 1);
        let rest = rows_down(height - 1, 0, width);
        let row = row_pixels(height - 1, width);
        assert(width * height == width + width * (height - 1)) by (nonlinear_arith);
        assert(width * (height - 1) >= 0) by (nonlinear_arith)
            requires
                width > 0,
                height >= 1,
        ;
        assert forall|k: int| 0 <= k < width * height implies #[trigger] (row + rest)[k] == pixel_at(
            width,
            height,
            k,
        ) by {
            if k < width {
                vstd::arithmetic::div_mod::lemma_fundamental_div_mod_converse(k, width, 0, k);
            } else {
                let m = k - width;
                assert((row + rest)[k] == rest[m]);
                vstd::arithmetic::div_mod::lemma_fundamental_div_mod(m, width);
                let q = m / width;
                let r = m % width;
                assert(k == (q + 1) * width + r) by (nonlinear_arith)
                    requires
                        m == width * q + r,
                        k == m + width,
                ;
                vstd::arithmetic::div_mod::lemma_fundamental_div_mod_converse(k, width, q + 1, r);
            }
        }
    } else {
        assert(width * height == 0) by (nonlinear_arith)
            requires
                height == 0,
        ;
    }
}

/// The chunked renderer, writing its groups from the last to the first, writes
/// every pixel in the same order as the one-pixel-at-a-time renderers: rows
/// from the top, each left to right.
pub proof fn lemma_chunks_write_output_order(width: int, height: int)
    requires
        width > 0,
        0 < height <= i32::MAX,
        width <= i32::MAX,
    ensures
        groups_written(width, height, height) =~= Seq::new(
            (width * height) as nat,
            |k: int| pixel_at(width, height, k),
        ),
{
    assert(lines_per_group(height) == 2) by {
        vstd::arithmetic::div_mod::lemma_div_basics(height);
    }
    lemma_groups_written_rows(width, height, height);
    lemma_rows_down_in_output_order(width, height);
}

proof fn lemma_groups_written_rows(width: int, height: int, g: int)
    requires
        0 <= g <= height,
        lines_per_group(height) == 2,
    ensures
        groups_written(width, height, g) == rows_down(if 2 * g < height { 2 * g } else { height }, 0, width),
    decreases g,
{
    if g > 0 {
        lemma_groups_written_rows(width, height, g - 1);
        let lo = 2 * (g - 1);
        let hi = if 2 * g < height { 2 * g } else { height };
        let prev = if lo < height { lo } else { height };
        if lo < height {
            lemma_rows_down_concat(hi, lo, 0, width);
        } else {
            assert(rows_down(hi, lo, width) =~= Seq::<(i32, i32)>::empty());
            assert(rows_down(hi, lo, width) + rows_down(prev, 0, width) =~= rows_down(prev, 0, width));
        }
    }
}

} // verus!
