//! Path fragments: one filled outline per color of a frame.
use crate::raster::{count_in, is_ranking, lemma_count_in_occurs, mask_of, occupancy_mask, rank_colors, ranking, ColorCount, Frame, Rgba};
use crate::text::{decimal, opacity_text, push_decimal, OpacityTable};
use rayon::iter::{IntoParallelRefIterator, ParallelIterator};
use vstd::prelude::*;
use vstd::string::*;

verus! {

/// What the contour tracer draws for a grid of cells: path commands that outline
/// every region of cells set to 1.
pub uninterp spec fn traced_outline(bits: Seq<Seq<i8>>, closepaths: bool) -> Seq<char>;

/// Relies on `contour_tracing::array::bits_to_paths`, which turns a grid of 0/1
/// cells into SVG path commands. It indexes the first row and every row up to the
/// first row's length, so the grid must be non-empty and rectangular.
#[verifier::external_body]
fn trace_outline(bits: Vec<Vec<i8>>, closepaths: bool) -> (r: String)
    requires
        bits@.len() > 0,
        bits@[0]@.len() > 0,
        forall|i: int| 0 <= i < bits@.len() ==> (#[trigger] bits@[i])@.len() == bits@[0]@.len(),
    ensures
        r@ == traced_outline(bits.deep_view(), closepaths),
{
    contour_tracing::array::bits_to_paths(bits, closepaths)
}

/// The opening of a path element with its fill color.
pub open spec fn fill_text(c: Rgba) -> Seq<char> {
    "<path fill=\"rgb("@ + decimal(c.r as nat) + ","@ + decimal(c.g as nat) + ","@ + decimal(c.b as nat)
        + ")\""@
}

/// The opacity attribute: none for a fully opaque color, else the table's text.
pub open spec fn opacity_attr(c: Rgba) -> Seq<char> {
    if c.a == 255 {
        Seq::empty()
    } else {
        " opacity=\""@ + opacity_text(c.a as nat) + "\""@
    }
}

/// The path element that fills the cells of `frame` holding color `c`, with
/// holes kept open by closed sub-paths.
pub open spec fn fragment_text(frame: Frame, c: Rgba) -> Seq<char> {
    fill_text(c) + opacity_attr(c) + " d=\""@ + traced_outline(mask_of(frame, c), true) + "\"/>\n"@
}

/// One path element per ranked color of `frame`, in rank order.
pub open spec fn fragments(frame: Frame) -> Seq<Seq<char>> {
    ranking(frame.pixels@).map_values(|e: ColorCount| fragment_text(frame, e.color))
}

/// The texts of `parts` one after another.
pub open spec fn joined(parts: Seq<Seq<char>>) -> Seq<char>
    decreases parts.len(),
{
    if parts.len() == 0 {
        Seq::empty()
    } else {
        joined(parts.drop_last()) + parts.last()
    }
}

/// The views of a list of strings.
pub open spec fn texts(v: Seq<String>) -> Seq<Seq<char>> {
    v.map_values(|s: String| s@)
}

/// Builds the path element for `color` in `frame`.
pub fn path_fragment(frame: &Frame, color: Rgba, table: &OpacityTable) -> (r: String)
    requires
        frame.wf(),
        table.wf(),
        frame.width > 0,
        frame.height > 0,
    ensures
        r@ == fragment_text(*frame, color),
{
    let mut s = String::new();
    s.append("<path fill=\"rgb(");
    push_decimal(&mut s, color.r as u32);
    s.append(",");
    push_decimal(&mut s, color.g as u32);
    s.append(",");
    push_decimal(&mut s, color.b as u32);
    s.append(")\"");
    if color.a != 255 {
        s.append(" opacity=\"");
        s.append(table.lookup(color.a).as_str());
        s.append("\"");
    }
    s.append(" d=\"");
    let bits = occupancy_mask(frame, color);
    proof {
        let d = bits.deep_view();
        let mk = mask_of(*frame, color);
        assert(d == mk);
        assert(d.len() == bits@.len());
        assert(mk.len() == frame.height);
        assert forall|i: int| 0 <= i < bits@.len() implies (#[trigger] bits@[i])@.len() == frame.width by {
            assert(bits@[i].deep_view() =~= bits@[i]@);
            assert(d[i] == bits@[i].deep_view());
            assert(mk[i].len() == frame.width);
        }
        assert(bits@[0]@.len() == frame.width);
    }
    let outline = trace_outline(bits, true);
    s.append(outline.as_str());
    s.append("\"/>\n");
    s
}

/// Relies on rayon's `par_iter().map(..).collect()` over a slice: each color is
/// handed to `path_fragment` on a worker thread, and collecting an indexed
/// parallel iterator into a `Vec` keeps the input's order.
#[verifier::external_body]
fn par_path_fragments(frame: &Frame, ranked: &Vec<ColorCount>, table: &OpacityTable) -> (r: Vec<String>)
    requires
        frame.wf(),
        table.wf(),
        frame.width > 0,
        frame.height > 0,
    ensures
        r@.len() == ranked@.len(),
        forall|i: int| 0 <= i < r@.len() ==> (#[trigger] r@[i])@ == fragment_text(*frame, ranked@[i].color),
{
    ranked.par_iter().map(|c| path_fragment(frame, c.color, table)).collect()
}

/// The path elements of `frame`, one per color with non-zero alpha, most
/// frequent color first.
pub fn generate_paths(frame: &Frame, table: &OpacityTable) -> (r: Vec<String>)
    requires
        frame.wf(),
        table.wf(),
    ensures
        texts(r@) == fragments(*frame),
{
    let ranked = rank_colors(frame);
    if ranked.len() == 0 {
        let out: Vec<String> = Vec::new();
        assert(texts(out@) =~= fragments(*frame));
        return out;
    }
    proof {
        lemma_frame_not_empty(*frame, ranked@[0].color);
    }
    let out = par_path_fragments(frame, &ranked, table);
    assert(texts(out@) =~= fragments(*frame));
    out
}

proof fn lemma_frame_not_empty(frame: Frame, c: Rgba)
    requires
        frame.wf(),
        count_in(frame.pixels@, c) > 0,
    ensures
        frame.width > 0,
        frame.height > 0,
{
    lemma_count_in_occurs(frame.pixels@, c);
    let w = frame.width as int;
    let h = frame.height as int;
    assert(w * h > 0);
    assert(w > 0 && h > 0) by (nonlinear_arith)
        requires
            w * h > 0,
            w >= 0,
            h >= 0,
    ;
}

/// Appends every string of `parts` to `s`, in order.
pub fn push_all(s: &mut String, parts: &Vec<String>)
    ensures
        final(s)@ == old(s)@ + joined(texts(parts@)),
{
    let mut i: usize = 0;
    while i < parts.len()
        invariant
            i <= parts@.len(),
            s@ == old(s)@ + joined(texts(parts@.take(i as int))),
        decreases parts@.len() - i,
    {
        proof {
            let t = texts(parts@.take(i + 1));
            assert(t.drop_last() =~= texts(parts@.take(i as int)));
        }
        s.append(parts[i].as_str());
        i = i + 1;
    }
    assert(parts@.take(parts@.len() as int) =~= parts@);
}

/// A pixel whose alpha is neither 0 nor 255 is drawn by a path element that
/// carries an opacity attribute with the table's text for exactly that alpha.
pub proof fn lemma_translucent_has_opacity(frame: Frame, r: Seq<ColorCount>, k: int)
    requires
        frame.wf(),
        is_ranking(frame.pixels@, r),
        0 <= k < frame.pixels@.len(),
        0 < frame.pixels@[k].a < 255,
    ensures
        exists|i: int|
            0 <= i < r.len() && (#[trigger] r[i]).color == frame.pixels@[k] && fragment_text(frame, r[i].color)
                == fill_text(r[i].color) + " opacity=\""@ + opacity_text(frame.pixels@[k].a as nat) + "\""@
                + " d=\""@ + traced_outline(mask_of(frame, r[i].color), true) + "\"/>\n"@,
{
    let i = choose|i: int| 0 <= i < r.len() && (#[trigger] r[i]).color == frame.pixels@[k];
    let c = r[i].color;
    assert(fragment_text(frame, c) =~= fill_text(c) + " opacity=\""@ + opacity_text(c.a as nat) + "\""@ + " d=\""@
        + traced_outline(mask_of(frame, c), true) + "\"/>\n"@);
}

} // verus!
