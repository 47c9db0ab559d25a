//! Frames of pixels, their colors ranked by frequency, and one occupancy mask per color.
use vstd::prelude::*;

verus! {

/// One pixel: red, green, blue and alpha channels.
#[derive(Clone, Copy, PartialEq, Eq, Structural, Debug)]
pub struct Rgba {
    pub r: u8,
    pub g: u8,
    pub b: u8,
    pub a: u8,
}

impl Rgba {
    /// The color with the four channels of `c`, in the order red, green, blue, alpha.
    pub fn from_channels(c: [u8; 4]) -> (r: Rgba)
        ensures
            r.r == c@[0],
            r.g == c@[1],
            r.b == c@[2],
            r.a == c@[3],
    {
        Rgba { r: c[0], g: c[1], b: c[2], a: c[3] }
    }
}

/// The fixed total order on colors: by red, then green, then blue, then alpha.
pub open spec fn color_lt(x: Rgba, y: Rgba) -> bool {
    if x.r != y.r {
        x.r < y.r
    } else if x.g != y.g {
        x.g < y.g
    } else if x.b != y.b {
        x.b < y.b
    } else {
        x.a < y.a
    }
}

/// Whether `x` comes strictly before `y` in the fixed order on colors.
pub fn color_less(x: Rgba, y: Rgba) -> (r: bool)
    ensures
        r == color_lt(x, y),
{
    if x.r != y.r {
        x.r < y.r
    } else if x.g != y.g {
        x.g < y.g
    } else if x.b != y.b {
        x.b < y.b
    } else {
        x.a < y.a
    }
}

/// A raster image of `width` columns and `height` rows, its pixels stored row by row.
#[derive(Clone, Debug)]
pub struct Frame {
    pub width: u32,
    pub height: u32,
    pub pixels: Vec<Rgba>,
}

impl Frame {
    /// The pixel buffer holds exactly one pixel per cell.
    pub open spec fn wf(&self) -> bool {
        self.pixels@.len() == self.width as nat * self.height as nat
    }

    /// The pixel at column `x` of row `y`.
    pub open spec fn pixel(&self, x: int, y: int) -> Rgba {
        self.pixels@[y * self.width as int + x]
    }
}

/// A color of a frame and the number of pixels that hold it.
#[derive(Clone, Copy, PartialEq, Eq, Structural, Debug)]
pub struct ColorCount {
    pub color: Rgba,
    pub count: usize,
}

/// How many entries of `s` equal `c`.
pub open spec fn count_in(s: Seq<Rgba>, c: Rgba) -> nat
    decreases s.len(),
{
    if s.len() == 0 {
        0
    } else {
        count_in(s.drop_last(), c) + if s.last() == c {
            1nat
        } else {
            0nat
        }
    }
}

/// The rank order: more pixels first; on equal counts, the lesser color first.
pub open spec fn ranks_before(x: ColorCount, y: ColorCount) -> bool {
    x.count > y.count || (x.count == y.count && color_lt(x.color, y.color))
}

/// `r` lists every color that some pixel of `px` with non-zero alpha holds,
/// each with its pixel count, strictly in rank order.
pub open spec fn is_ranking(px: Seq<Rgba>, r: Seq<ColorCount>) -> bool {
    &&& forall|i: int|
        0 <= i < r.len() ==> {
            &&& (#[trigger] r[i]).color.a != 0
            &&& r[i].count == count_in(px, r[i].color)
            &&& r[i].count > 0
        }
    &&& forall|k: int|
        0 <= k < px.len() && px[k].a != 0 ==> exists|i: int|
            0 <= i < r.len() && (#[trigger] r[i]).color == #[trigger] px[k]
    &&& forall|i: int, j: int| 0 <= i < j < r.len() ==> ranks_before(#[trigger] r[i], #[trigger] r[j])
}

/// The ranked colors of a pixel sequence.
pub open spec fn ranking(px: Seq<Rgba>) -> Seq<ColorCount> {
    choose|r: Seq<ColorCount>| is_ranking(px, r)
}

pub proof fn lemma_count_in_occurs(s: Seq<Rgba>, c: Rgba)
    requires
        count_in(s, c) > 0,
    ensures
        exists|k: int| 0 <= k < s.len() && s[k] == c,
    decreases s.len(),
{
    if s.last() != c {
        lemma_count_in_occurs(s.drop_last(), c);
        let k = choose|k: int| 0 <= k < s.drop_last().len() && s.drop_last()[k] == c;
        assert(s[k] == c);
    } else {
        assert(s[s.len() - 1] == c);
    }
}

/// Whether `x` comes strictly before `y` in rank order.
pub fn ranks_first(x: ColorCount, y: ColorCount) -> (r: bool)
    ensures
        r == ranks_before(x, y),
{
    x.count > y.count || (x.count == y.count && color_less(x.color, y.color))
}

proof fn lemma_count_in_step(px: Seq<Rgba>, i: int, c: Rgba)
    requires
        0 <= i < px.len(),
    ensures
        count_in(px.take(i + 1), c) == count_in(px.take(i), c) + if px[i] == c {
            1nat
        } else {
            0nat
        },
{
    let s = px.take(i + 1);
    assert(s.drop_last() =~= px.take(i));
    assert(s.last() == px[i]);
}

proof fn lemma_count_in_bound(s: Seq<Rgba>, c: Rgba)
    ensures
        count_in(s, c) <= s.len(),
    decreases s.len(),
{
    if s.len() > 0 {
        lemma_count_in_bound(s.drop_last(), c);
    }
}

fn find_color(entries: &Vec<ColorCount>, p: Rgba) -> (r: Option<usize>)
    ensures
        r matches Some(j) ==> j < entries@.len() && entries@[j as int].color == p,
        r is None ==> forall|t: int| 0 <= t < entries@.len() ==> (#[trigger] entries@[t]).color != p,
{
    let mut j: usize = 0;
    while j < entries.len()
        invariant
            j <= entries@.len(),
            forall|t: int| 0 <= t < j ==> (#[trigger] entries@[t]).color != p,
        decreases entries@.len() - j,
    {
        if entries[j].color == p {
            return Some(j);
        }
        j = j + 1;
    }
    None
}

/// Counts the pixels of each color with non-zero alpha, in order of first appearance.
fn count_colors(frame: &Frame) -> (r: Vec<ColorCount>)
    ensures
        forall|i: int|
            0 <= i < r@.len() ==> {
                &&& (#[trigger] r@[i]).color.a != 0
                &&& r@[i].count == count_in(frame.pixels@, r@[i].color)
                &&& r@[i].count > 0
            },
        forall|k: int|
            0 <= k < frame.pixels@.len() && frame.pixels@[k].a != 0 ==> exists|i: int|
                0 <= i < r@.len() && (#[trigger] r@[i]).color == #[trigger] frame.pixels@[k],
        forall|i: int, j: int| 0 <= i < j < r@.len() ==> (#[trigger] r@[i]).color != (#[trigger] r@[j]).color,
{
    let ghost px = frame.pixels@;
    let mut entries: Vec<ColorCount> = Vec::new();
    let n = frame.pixels.len();
    let mut i: usize = 0;
    while i < n
        invariant
            n == px.len(),
            px == frame.pixels@,
            i <= n,
            forall|e: int|
                0 <= e < entries@.len() ==> {
                    &&& (#[trigger] entries@[e]).color.a != 0
                    &&& entries@[e].count == count_in(px.take(i as int), entries@[e].color)
                    &&& entries@[e].count > 0
                },
            forall|k: int|
                0 <= k < i && px[k].a != 0 ==> exists|e: int|
                    0 <= e < entries@.len() && (#[trigger] entries@[e]).color == #[trigger] px[k],
            forall|a: int, b: int|
                0 <= a < b < entries@.len() ==> (#[trigger] entries@[a]).color != (#[trigger] entries@[b]).color,
        decreases n - i,
    {
        let p = frame.pixels[i];
        proof {
            lemma_count_in_bound(px.take(i as int), p);
        }
        if p.a != 0 {
            let found = find_color(&entries, p);
            if let Some(j) = found {
                let old_entries = Ghost(entries@);
                let c = entries[j].count;
                entries.set(j, ColorCount { color: p, count: c + 1 });
                proof {
                    assert forall|e: int| 0 <= e < entries@.len() implies (#[trigger] entries@[e]).count
                        == count_in(px.take(i + 1), entries@[e].color) by {
                        lemma_count_in_step(px, i as int, entries@[e].color);
                        if e != j {
                            assert(entries@[e] == old_entries@[e]);
                        }
                    }
                    assert forall|a: int, b: int| 0 <= a < b < entries@.len() implies (#[trigger] entries@[a]).color
                        != (#[trigger] entries@[b]).color by {
                        assert(old_entries@[a].color != old_entries@[b].color);
                    }
                    assert forall|k: int| 0 <= k < i + 1 && px[k].a != 0 implies exists|e: int|
                        0 <= e < entries@.len() && (#[trigger] entries@[e]).color == #[trigger] px[k] by {
                        if k < i {
                            let e = choose|e: int| 0 <= e < old_entries@.len() && (#[trigger] old_entries@[e]).color == px[k];
                            assert(entries@[e].color == px[k]);
                        } else {
                            assert(entries@[j as int].color == px[k]);
                        }
                    }
                }
            } else {
                let old_entries = Ghost(entries@);
                entries.push(ColorCount { color: p, count: 1 });
                proof {
                    if count_in(px.take(i as int), p) > 0 {
                        lemma_count_in_occurs(px.take(i as int), p);
                        let k = choose|k: int| 0 <= k < i && px.take(i as int)[k] == p;
                        assert(px[k] == p);
                        let e = choose|e: int| 0 <= e < old_entries@.len() && (#[trigger] old_entries@[e]).color == px[k];
                    }
                    assert forall|e: int| 0 <= e < entries@.len() implies (#[trigger] entries@[e]).count
                        == count_in(px.take(i + 1), entries@[e].color) by {
                        lemma_count_in_step(px, i as int, entries@[e].color);
                    }
                    assert forall|a: int, b: int| 0 <= a < b < entries@.len() implies (#[trigger] entries@[a]).color
                        != (#[trigger] entries@[b]).color by {
                        if b < old_entries@.len() {
                            assert(old_entries@[a].color != old_entries@[b].color);
                        }
                    }
                    assert forall|k: int| 0 <= k < i + 1 && px[k].a != 0 implies exists|e: int|
                        0 <= e < entries@.len() && (#[trigger] entries@[e]).color == #[trigger] px[k] by {
                        if k < i {
                            let e = choose|e: int| 0 <= e < old_entries@.len() && (#[trigger] old_entries@[e]).color == px[k];
                            assert(entries@[e].color == px[k]);
                        } else {
                            assert(entries@[old_entries@.len() as int].color == px[k]);
                        }
                    }
                }
            }
        } else {
            proof {
                assert forall|e: int| 0 <= e < entries@.len() implies (#[trigger] entries@[e]).count
                    == count_in(px.take(i + 1), entries@[e].color) by {
                    lemma_count_in_step(px, i as int, entries@[e].color);
                }
                assert forall|k: int| 0 <= k < i + 1 && px[k].a != 0 implies exists|e: int|
                    0 <= e < entries@.len() && (#[trigger] entries@[e]).color == #[trigger] px[k] by {
                    assert(k < i);
                }
            }
        }
        i = i + 1;
    }
    assert(px.take(n as int) =~= px);
    entries
}

fn best_index(rest: &Vec<ColorCount>) -> (m: usize)
    requires
        rest@.len() > 0,
        forall|a: int, b: int| 0 <= a < b < rest@.len() ==> (#[trigger] rest@[a]).color != (#[trigger] rest@[b]).color,
    ensures
        m < rest@.len(),
        forall|t: int| 0 <= t < rest@.len() && t != m ==> ranks_before(rest@[m as int], #[trigger] rest@[t]),
{
    let mut m: usize = 0;
    let mut j: usize = 1;
    while j < rest.len()
        invariant
            1 <= j <= rest@.len(),
            m < j,
            forall|a: int, b: int| 0 <= a < b < rest@.len() ==> (#[trigger] rest@[a]).color != (#[trigger] rest@[b]).color,
            forall|t: int| 0 <= t < j && t != m ==> ranks_before(rest@[m as int], #[trigger] rest@[t]),
        decreases rest@.len() - j,
    {
        if ranks_first(rest[j], rest[m]) {
            proof {
                assert forall|t: int| 0 <= t < j + 1 && t != j implies ranks_before(rest@[j as int], #[trigger] rest@[t]) by {
                    if t != m {
                        assert(ranks_before(rest@[m as int], rest@[t]));
                    }
                }
            }
            m = j;
        } else {
            proof {
                if m < j {
                    assert(rest@[m as int].color != rest@[j as int].color);
                }
            }
        }
        j = j + 1;
    }
    m
}

/// The colors of `frame` that some pixel with non-zero alpha holds, each with
/// its pixel count, most frequent first and equal counts in color order.
pub fn rank_colors(frame: &Frame) -> (r: Vec<ColorCount>)
    ensures
        is_ranking(frame.pixels@, r@),
        r@ == ranking(frame.pixels@),
{
    let ghost px = frame.pixels@;
    let mut rest = count_colors(frame);
    let ghost all = rest@;
    let mut out: Vec<ColorCount> = Vec::new();
    while rest.len() > 0
        invariant
            px == frame.pixels@,
            forall|i: int|
                0 <= i < all.len() ==> {
                    &&& (#[trigger] all[i]).color.a != 0
                    &&& all[i].count == count_in(px, all[i].color)
                    &&& all[i].count > 0
                },
            forall|k: int|
                0 <= k < px.len() && px[k].a != 0 ==> exists|i: int|
                    0 <= i < all.len() && (#[trigger] all[i]).color == #[trigger] px[k],
            forall|x: ColorCount| all.contains(x) <==> (out@.contains(x) || rest@.contains(x)),
            forall|i: int, j: int| 0 <= i < j < out@.len() ==> ranks_before(#[trigger] out@[i], #[trigger] out@[j]),
            forall|i: int, t: int| 0 <= i < out@.len() && 0 <= t < rest@.len() ==> ranks_before(#[trigger] out@[i], #[trigger] rest@[t]),
            forall|a: int, b: int| 0 <= a < b < rest@.len() ==> (#[trigger] rest@[a]).color != (#[trigger] rest@[b]).color,
        decreases rest@.len(),
    {
        let m = best_index(&rest);
        let ghost old_rest = rest@;
        let ghost old_out = out@;
        let e = rest.remove(m);
        out.push(e);
        proof {
            assert forall|x: ColorCount| all.contains(x) <==> (out@.contains(x) || rest@.contains(x)) by {
                if old_rest.contains(x) && x != e {
                    let t = choose|t: int| 0 <= t < old_rest.len() && old_rest[t] == x;
                    if t < m {
                        assert(rest@[t] == x);
                    } else {
                        assert(rest@[t - 1] == x);
                    }
                }
                if old_out.contains(x) {
                    let t = choose|t: int| 0 <= t < old_out.len() && old_out[t] == x;
                    assert(out@[t] == x);
                }
                if x == e {
                    assert(out@[old_out.len() as int] == x);
                }
                if rest@.contains(x) {
                    let t = choose|t: int| 0 <= t < rest@.len() && rest@[t] == x;
                    if t < m {
                        assert(old_rest[t] == x);
                    } else {
                        assert(old_rest[t + 1] == x);
                    }
                }
                if out@.contains(x) {
                    let t = choose|t: int| 0 <= t < out@.len() && out@[t] == x;
                    if t < old_out.len() {
                        assert(old_out[t] == x);
                    } else {
                        assert(old_rest[m as int] == x);
                    }
                }
            }
            assert forall|i: int, j: int| 0 <= i < j < out@.len() implies ranks_before(#[trigger] out@[i], #[trigger] out@[j]) by {
                if j == old_out.len() {
                    assert(ranks_before(old_out[i], old_rest[m as int]));
                }
            }
            assert forall|i: int, t: int| 0 <= i < out@.len() && 0 <= t < rest@.len() implies ranks_before(#[trigger] out@[i], #[trigger] rest@[t]) by {
                let u = if t < m { t } else { t + 1 };
                assert(rest@[t] == old_rest[u]);
                if i == old_out.len() {
                    assert(ranks_before(old_rest[m as int], old_rest[u]));
                } else {
                    assert(ranks_before(old_out[i], old_rest[u]));
                }
            }
            assert forall|a: int, b: int| 0 <= a < b < rest@.len() implies (#[trigger] rest@[a]).color != (#[trigger] rest@[b]).color by {
                let ua = if a < m { a } else { a + 1 };
                let ub = if b < m { b } else { b + 1 };
                assert(old_rest[ua].color != old_rest[ub].color);
            }
        }
    }
    proof {
        assert forall|i: int| 0 <= i < out@.len() implies {
            &&& (#[trigger] out@[i]).color.a != 0
            &&& out@[i].count == count_in(px, out@[i].color)
            &&& out@[i].count > 0
        } by {
            assert(out@.contains(out@[i]));
            assert(all.contains(out@[i]));
            let t = choose|t: int| 0 <= t < all.len() && all[t] == out@[i];
        }
        assert forall|k: int| 0 <= k < px.len() && px[k].a != 0 implies exists|i: int|
            0 <= i < out@.len() && (#[trigger] out@[i]).color == #[trigger] px[k] by {
            let t = choose|t: int| 0 <= t < all.len() && (#[trigger] all[t]).color == px[k];
            assert(all.contains(all[t]));
            assert(out@.contains(all[t]) || rest@.contains(all[t]));
            let i = choose|i: int| 0 <= i < out@.len() && out@[i] == all[t];
            assert(out@[i].color == px[k]);
        }
        assert(is_ranking(px, out@));
        lemma_ranking_unique(px, out@, ranking(px));
    }
    out
}

/// The occupancy mask of color `c` in `frame`: one row per pixel row, holding 1
/// where the pixel equals `c` in all four channels and 0 elsewhere.
pub open spec fn mask_of(frame: Frame, c: Rgba) -> Seq<Seq<i8>> {
    Seq::new(
        frame.height as nat,
        |y: int|
            Seq::new(
                frame.width as nat,
                |x: int|
                    if frame.pixel(x, y) == c {
                        1i8
                    } else {
                        0i8
                    },
            ),
    )
}

proof fn lemma_cell_index(x: int, y: int, w: int, h: int)
    requires
        0 <= x < w,
        0 <= y < h,
    ensures
        0 <= y * w + x < h * w,
        y * w + x + 1 <= (y + 1) * w,
{
    assert(y * w + x < h * w) by (nonlinear_arith)
        requires
            0 <= x < w,
            0 <= y < h,
    ;
    assert(0 <= y * w) by (nonlinear_arith)
        requires
            0 <= x < w,
            0 <= y,
    ;
    assert((y + 1) * w == y * w + w) by (nonlinear_arith);
}

/// Builds the occupancy mask of `color` in `frame`.
pub fn occupancy_mask(frame: &Frame, color: Rgba) -> (m: Vec<Vec<i8>>)
    requires
        frame.wf(),
    ensures
        m.deep_view() == mask_of(*frame, color),
{
    let w = frame.width as usize;
    let h = frame.height as usize;
    let n = frame.pixels.len();
    let mut m: Vec<Vec<i8>> = Vec::new();
    let mut y: usize = 0;
    let mut k: usize = 0;
    while y < h
        invariant
            frame.wf(),
            n == frame.pixels@.len(),
            w == frame.width,
            h == frame.height,
            y <= h,
            k == y * w,
            m@.len() == y,
            forall|r: int| 0 <= r < y ==> (#[trigger] m@[r])@ == mask_of(*frame, color)[r],
        decreases h - y,
    {
        let mut row: Vec<i8> = Vec::new();
        let mut x: usize = 0;
        while x < w
            invariant
                frame.wf(),
                n == frame.pixels@.len(),
                w == frame.width,
                h == frame.height,
                y < h,
                x <= w,
                k == y * w + x,
                row@.len() == x,
                forall|c: int| 0 <= c < x ==> #[trigger] row@[c] == mask_of(*frame, color)[y as int][c],
            decreases w - x,
        {
            proof {
                lemma_cell_index(x as int, y as int, w as int, h as int);
            }
            if frame.pixels[k] == color {
                row.push(1);
            } else {
                row.push(0);
            }
            x = x + 1;
            k = k + 1;
        }
        proof {
            assert(row@ =~= mask_of(*frame, color)[y as int]);
            assert((y + 1) * w == y * w + w) by (nonlinear_arith);
        }
        m.push(row);
        y = y + 1;
    }
    assert forall|r: int| 0 <= r < m@.len() implies #[trigger] m.deep_view()[r] == mask_of(*frame, color)[r] by {
        assert(m@[r].deep_view() =~= m@[r]@);
    }
    assert(m.deep_view() =~= mask_of(*frame, color));
    m
}

/// Over the colors of a ranking, the occupancy masks cover exactly the pixels
/// with non-zero alpha, and no pixel is set in the masks of two colors.
pub proof fn lemma_masks_partition(frame: Frame, r: Seq<ColorCount>, x: int, y: int)
    requires
        frame.wf(),
        is_ranking(frame.pixels@, r),
        0 <= x < frame.width,
        0 <= y < frame.height,
    ensures
        frame.pixel(x, y).a != 0 <==> exists|i: int| 0 <= i < r.len() && #[trigger] mask_of(frame, r[i].color)[y][x] == 1,
        forall|i: int, j: int|
            0 <= i < r.len() && 0 <= j < r.len() && i != j ==> !(#[trigger] mask_of(frame, r[i].color)[y][x] == 1
                && #[trigger] mask_of(frame, r[j].color)[y][x] == 1),
{
    lemma_cell_index(x, y, frame.width as int, frame.height as int);
    let k = y * frame.width + x;
    if frame.pixel(x, y).a != 0 {
        let i = choose|i: int| 0 <= i < r.len() && (#[trigger] r[i]).color == frame.pixels@[k];
        assert(mask_of(frame, r[i].color)[y][x] == 1);
    }
    assert forall|i: int| 0 <= i < r.len() && #[trigger] mask_of(frame, r[i].color)[y][x] == 1 implies frame.pixel(x, y).a != 0 by {
        assert(r[i].color.a != 0);
    }
    assert forall|i: int, j: int|
        0 <= i < r.len() && 0 <= j < r.len() && i != j implies !(#[trigger] mask_of(frame, r[i].color)[y][x] == 1
            && #[trigger] mask_of(frame, r[j].color)[y][x] == 1) by {
        if i < j {
            assert(ranks_before(r[i], r[j]));
        } else {
            assert(ranks_before(r[j], r[i]));
        }
    }
}

/// Two sequences that are strictly in rank order and hold the same entries are equal.
proof fn lemma_sorted_unique(s1: Seq<ColorCount>, s2: Seq<ColorCount>)
    requires
        forall|i: int, j: int| 0 <= i < j < s1.len() ==> ranks_before(#[trigger] s1[i], #[trigger] s1[j]),
        forall|i: int, j: int| 0 <= i < j < s2.len() ==> ranks_before(#[trigger] s2[i], #[trigger] s2[j]),
        forall|x: ColorCount| s1.contains(x) <==> s2.contains(x),
    ensures
        s1 == s2,
    decreases s1.len(),
{
    if s1.len() == 0 {
        if s2.len() > 0 {
            assert(s2.contains(s2[0]));
        }
        assert(s1 =~= s2);
    } else {
        assert(s1.contains(s1[0]));
        assert(s2.len() > 0);
        assert(s2.contains(s2[0]));
        let i = choose|i: int| 0 <= i < s1.len() && s1[i] == s2[0];
        let j = choose|j: int| 0 <= j < s2.len() && s2[j] == s1[0];
        if i > 0 {
            assert(ranks_before(s1[0], s1[i]));
            if j > 0 {
                assert(ranks_before(s2[0], s2[j]));
            }
        }
        if j > 0 {
            assert(ranks_before(s2[0], s2[j]));
        }
        assert(s1[0] == s2[0]);
        let t1 = s1.drop_first();
        let t2 = s2.drop_first();
        assert forall|x: ColorCount| t1.contains(x) <==> t2.contains(x) by {
            if t1.contains(x) {
                let a = choose|a: int| 0 <= a < t1.len() && t1[a] == x;
                assert(ranks_before(s1[0], s1[a + 1]));
                assert(s1.contains(x));
                let b = choose|b: int| 0 <= b < s2.len() && s2[b] == x;
                if b == 0 {
                    assert(false);
                }
                assert(t2[b - 1] == x);
            }
            if t2.contains(x) {
                let a = choose|a: int| 0 <= a < t2.len() && t2[a] == x;
                assert(ranks_before(s2[0], s2[a + 1]));
                assert(s2.contains(x));
                let b = choose|b: int| 0 <= b < s1.len() && s1[b] == x;
                if b == 0 {
                    assert(false);
                }
                assert(t1[b - 1] == x);
            }
        }
        assert forall|i: int, j: int| 0 <= i < j < t1.len() implies ranks_before(#[trigger] t1[i], #[trigger] t1[j]) by {
            assert(ranks_before(s1[i + 1], s1[j + 1]));
        }
        assert forall|i: int, j: int| 0 <= i < j < t2.len() implies ranks_before(#[trigger] t2[i], #[trigger] t2[j]) by {
            assert(ranks_before(s2[i + 1], s2[j + 1]));
        }
        lemma_sorted_unique(t1, t2);
        assert forall|k: int| 0 <= k < s1.len() implies s1[k] == s2[k] by {
            if k > 0 {
                assert(s1[k] == t1[k - 1]);
                assert(s2[k] == t2[k - 1]);
            }
        }
        assert(s1 =~= s2);
    }
}

/// The ranked colors of a pixel sequence are determined by the pixels alone:
/// any two rankings of the same pixels are equal.
pub proof fn lemma_ranking_unique(px: Seq<Rgba>, r1: Seq<ColorCount>, r2: Seq<ColorCount>)
    requires
        is_ranking(px, r1),
        is_ranking(px, r2),
    ensures
        r1 == r2,
{
    assert forall|x: ColorCount| r1.contains(x) implies r2.contains(x) by {
        let i = choose|i: int| 0 <= i < r1.len() && r1[i] == x;
        assert(r1[i].count > 0);
        lemma_count_in_occurs(px, x.color);
        let k = choose|k: int| 0 <= k < px.len() && px[k] == x.color;
        let j = choose|j: int| 0 <= j < r2.len() && r2[j].color == px[k];
        assert(r2[j] == x);
    }
    assert forall|x: ColorCount| r2.contains(x) implies r1.contains(x) by {
        let i = choose|i: int| 0 <= i < r2.len() && r2[i] == x;
        assert(r2[i].count > 0);
        lemma_count_in_occurs(px, x.color);
        let k = choose|k: int| 0 <= k < px.len() && px[k] == x.color;
        let j = choose|j: int| 0 <= j < r1.len() && r1[j].color == px[k];
        assert(r1[j] == x);
    }
    lemma_sorted_unique(r1, r2);
}

} // verus!
