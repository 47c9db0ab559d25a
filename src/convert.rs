//! Icon containers and their conversion into one vector document per state.
use crate::outline::{fill_text, fragments, generate_paths, joined, push_all, texts, traced_outline};
use crate::raster::{count_in, is_ranking, lemma_ranking_unique, mask_of, ranking, ColorCount, Frame, Rgba};
use crate::text::{decimal, push_decimal, OpacityTable};
use rayon::iter::{IntoParallelRefIterator, ParallelIterator};
use vstd::prelude::*;
use vstd::string::*;

verus! {

/// A named animation state and its frames.
#[derive(Clone, Debug)]
pub struct IconState {
    pub name: String,
    pub images: Vec<Frame>,
}

/// A decoded icon: its states, in file order.
#[derive(Clone, Debug)]
pub struct Icon {
    pub states: Vec<IconState>,
}

impl Icon {
    /// Every frame of every state holds one pixel per cell.
    pub open spec fn wf(&self) -> bool {
        forall|i: int, j: int|
            0 <= i < self.states@.len() && 0 <= j < self.states@[i].images@.len()
                ==> (#[trigger] self.states@[i].images@[j]).wf()
    }
}

/// The vector document made for one state.
#[derive(Clone, PartialEq, Eq, PartialOrd, Ord, Debug)]
pub struct SVGState {
    pub name: String,
    pub svg: String,
}

/// Why a conversion failed.
#[derive(Debug)]
pub enum Error {
    /// The named state has no frame to draw.
    NoFirstStateImage(String),
}

/// Every state has at least one frame.
pub open spec fn all_have_frames(states: Seq<IconState>) -> bool {
    forall|i: int| 0 <= i < states.len() ==> (#[trigger] states[i]).images@.len() > 0
}

/// `e` reports the first state of `states` that has no frame.
pub open spec fn reports_first_missing(states: Seq<IconState>, e: Error) -> bool {
    exists|k: int|
        0 <= k < states.len() && (#[trigger] states[k]).images@.len() == 0 && (forall|j: int|
            0 <= j < k ==> (#[trigger] states[j]).images@.len() > 0) && (e matches Error::NoFirstStateImage(n)
            && n@ == states[k].name@)
}

/// The path elements of all frames, one after another.
pub open spec fn paths_text(frame: Frame) -> Seq<char> {
    joined(fragments(frame))
}

/// The standalone document of a frame: a root element with a view box of the
/// frame's size and crisp edges, then the frame's path elements.
pub open spec fn svg_document(frame: Frame) -> Seq<char> {
    "<svg xmlns=\"http://www.w3.org/2000/svg\" width=\"auto\" height=\"auto\" viewBox=\"0 0 "@ + decimal(
        frame.width as nat,
    ) + " "@ + decimal(frame.height as nat) + "\" shape-rendering=\"crispEdges\">\n"@ + paths_text(frame)
        + "</svg>\n"@
}

/// The symbol of a frame under the identifier `id`, to be placed inside a larger document.
pub open spec fn symbol_document(id: Seq<char>, frame: Frame) -> Seq<char> {
    "<symbol id=\""@ + id + "\" width=\"auto\" height=\"auto\" viewBox=\"0 0 "@ + decimal(frame.width as nat)
        + " "@ + decimal(frame.height as nat) + "\">\n"@ + paths_text(frame) + "</symbol>\n"@
}

/// `v` holds, for each state in order, its name and the document of its first frame.
pub open spec fn documents_of(states: Seq<IconState>, v: Seq<SVGState>) -> bool {
    &&& v.len() == states.len()
    &&& forall|i: int|
        0 <= i < v.len() ==> {
            &&& (#[trigger] v[i]).name@ == states[i].name@
            &&& v[i].svg@ == svg_document(states[i].images@[0])
        }
}

/// The identifier of a state: its renamed name where a rename lists it, else
/// its own name. The renames are read in order and the first entry for a name
/// wins; a list built from a map holds each name once, so there it is the
/// map's entry.
pub open spec fn renamed(renames: Seq<(String, String)>, name: Seq<char>) -> Seq<char>
    decreases renames.len(),
{
    if renames.len() == 0 {
        name
    } else if renames[0].0@ == name {
        renames[0].1@
    } else {
        renamed(renames.drop_first(), name)
    }
}

/// `v` holds, for each state in order, the symbol of its first frame under the
/// identifier that `renames` gives its name.
pub open spec fn symbols_of(states: Seq<IconState>, renames: Seq<(String, String)>, v: Seq<String>) -> bool {
    &&& v.len() == states.len()
    &&& forall|i: int|
        0 <= i < v.len() ==> (#[trigger] v[i])@ == symbol_document(
            renamed(renames, states[i].name@),
            states[i].images@[0],
        )
}

/// Finds the first state without frames.
pub fn check_frames(icon: &Icon) -> (r: Result<(), Error>)
    ensures
        r is Ok <==> all_have_frames(icon.states@),
        r matches Err(e) ==> reports_first_missing(icon.states@, e),
{
    let mut i: usize = 0;
    while i < icon.states.len()
        invariant
            i <= icon.states@.len(),
            forall|j: int| 0 <= j < i ==> (#[trigger] icon.states@[j]).images@.len() > 0,
        decreases icon.states@.len() - i,
    {
        if icon.states[i].images.len() == 0 {
            let e = Error::NoFirstStateImage(icon.states[i].name.clone());
            assert(reports_first_missing(icon.states@, e)) by {
                assert(icon.states@[i as int].images@.len() == 0);
            }
            return Err(e);
        }
        i = i + 1;
    }
    Ok(())
}

/// The path elements of a state's first frame.
pub fn first_frame_paths(state: &IconState, table: &OpacityTable) -> (r: Vec<String>)
    requires
        table.wf(),
        state.images@.len() > 0,
        state.images@[0].wf(),
    ensures
        texts(r@) == fragments(state.images@[0]),
{
    generate_paths(&state.images[0], table)
}

/// Relies on rayon's `par_iter().map(..).collect()` over a slice: each state is
/// handed to `first_frame_paths` on a worker thread, and collecting an indexed
/// parallel iterator into a `Vec` keeps the input's order.
#[verifier::external_body]
fn par_first_frame_paths(states: &Vec<IconState>, table: &OpacityTable) -> (r: Vec<Vec<String>>)
    requires
        table.wf(),
        forall|i: int|
            0 <= i < states@.len() ==> (#[trigger] states@[i]).images@.len() > 0 && states@[i].images@[0].wf(),
    ensures
        r@.len() == states@.len(),
        forall|i: int| 0 <= i < r@.len() ==> texts((#[trigger] r@[i])@) == fragments(states@[i].images@[0]),
{
    states.par_iter().map(|s| first_frame_paths(s, table)).collect()
}

fn push_view_box(s: &mut String, frame: &Frame)
    ensures
        final(s)@ == old(s)@ + "\" width=\"auto\" height=\"auto\" viewBox=\"0 0 "@ + decimal(
            frame.width as nat,
        ) + " "@ + decimal(frame.height as nat),
{
    s.append("\" width=\"auto\" height=\"auto\" viewBox=\"0 0 ");
    push_decimal(s, frame.width);
    s.append(" ");
    push_decimal(s, frame.height);
}

/// The standalone document of `frame`, given its path elements.
fn wrap_svg(frame: &Frame, paths: &Vec<String>) -> (r: String)
    requires
        texts(paths@) == fragments(*frame),
    ensures
        r@ == svg_document(*frame),
{
    let mut s = String::new();
    s.append("<svg xmlns=\"http://www.w3.org/2000/svg");
    push_view_box(&mut s, frame);
    s.append("\" shape-rendering=\"crispEdges\">\n");
    push_all(&mut s, paths);
    s.append("</svg>\n");
    proof {
        reveal_strlit("<svg xmlns=\"http://www.w3.org/2000/svg");
        reveal_strlit("\" width=\"auto\" height=\"auto\" viewBox=\"0 0 ");
        reveal_strlit("<svg xmlns=\"http://www.w3.org/2000/svg\" width=\"auto\" height=\"auto\" viewBox=\"0 0 ");
    }
    assert(s@ =~= svg_document(*frame));
    s
}

/// The symbol of `frame` under `id`, given its path elements.
fn wrap_symbol(id: &String, frame: &Frame, paths: &Vec<String>) -> (r: String)
    requires
        texts(paths@) == fragments(*frame),
    ensures
        r@ == symbol_document(id@, *frame),
{
    let mut s = String::new();
    s.append("<symbol id=\"");
    s.append(id.as_str());
    push_view_box(&mut s, frame);
    s.append("\">\n");
    push_all(&mut s, paths);
    s.append("</symbol>\n");
    proof {
        reveal_strlit("\" width=\"auto\" height=\"auto\" viewBox=\"0 0 ");
        reveal_strlit("\"");
        reveal_strlit(" width=\"auto\" height=\"auto\" viewBox=\"0 0 ");
        assert("\" width=\"auto\" height=\"auto\" viewBox=\"0 0 "@ =~= "\""@
            + " width=\"auto\" height=\"auto\" viewBox=\"0 0 "@);
    }
    assert(s@ =~= symbol_document(id@, *frame));
    s
}

/// The identifier for the state named `name`: the first rename of that name, or the name itself.
pub fn rename_of(renames: &Vec<(String, String)>, name: &String) -> (r: String)
    ensures
        r@ == renamed(renames@, name@),
{
    let mut i: usize = 0;
    assert(renames@.skip(0) =~= renames@);
    while i < renames.len()
        invariant
            i <= renames@.len(),
            renamed(renames@, name@) == renamed(renames@.skip(i as int), name@),
        decreases renames@.len() - i,
    {
        proof {
            let rest = renames@.skip(i as int);
            assert(rest[0] == renames@[i as int]);
            assert(rest.drop_first() =~= renames@.skip(i + 1));
        }
        if renames[i].0 == *name {
            return renames[i].1.clone();
        }
        i = i + 1;
    }
    proof {
        assert(renames@.skip(i as int).len() == 0);
    }
    name.clone()
}

/// Converts every state of `icon` into a standalone document of its first
/// frame, in state order; fails on the first state without frames.
pub fn dmi2svg(icon: &Icon) -> (r: Result<Vec<SVGState>, Error>)
    requires
        icon.wf(),
    ensures
        r is Ok <==> all_have_frames(icon.states@),
        r matches Err(e) ==> reports_first_missing(icon.states@, e),
        r matches Ok(v) ==> documents_of(icon.states@, v@),
{
    match check_frames(icon) {
        Err(e) => {
            return Err(e);
        },
        Ok(()) => {},
    }
    let table = OpacityTable::new();
    proof {
        assert forall|i: int| 0 <= i < icon.states@.len() implies (#[trigger] icon.states@[i]).images@.len() > 0
            && icon.states@[i].images@[0].wf() by {
            assert(icon.states@[i].images@.len() > 0);
        }
    }
    let paths = par_first_frame_paths(&icon.states, &table);
    let mut out: Vec<SVGState> = Vec::new();
    let mut i: usize = 0;
    while i < icon.states.len()
        invariant
            all_have_frames(icon.states@),
            paths@.len() == icon.states@.len(),
            forall|k: int| 0 <= k < paths@.len() ==> texts((#[trigger] paths@[k])@) == fragments(icon.states@[k].images@[0]),
            i <= icon.states@.len(),
            out@.len() == i,
            forall|k: int|
                0 <= k < i ==> {
                    &&& (#[trigger] out@[k]).name@ == icon.states@[k].name@
                    &&& out@[k].svg@ == svg_document(icon.states@[k].images@[0])
                },
        decreases icon.states@.len() - i,
    {
        let state = &icon.states[i];
        assert(state.images@.len() > 0);
        let svg = wrap_svg(&state.images[0], &paths[i]);
        out.push(SVGState { name: state.name.clone(), svg });
        i = i + 1;
    }
    Ok(out)
}

/// Converts every state of `icon` into a symbol of its first frame, under the
/// identifier that `renames` gives its name, in state order; fails on the first
/// state without frames.
pub fn dmi2svg_symbol_map(icon: &Icon, renames: &Vec<(String, String)>) -> (r: Result<Vec<String>, Error>)
    requires
        icon.wf(),
    ensures
        r is Ok <==> all_have_frames(icon.states@),
        r matches Err(e) ==> reports_first_missing(icon.states@, e),
        r matches Ok(v) ==> symbols_of(icon.states@, renames@, v@),
{
    match check_frames(icon) {
        Err(e) => {
            return Err(e);
        },
        Ok(()) => {},
    }
    let table = OpacityTable::new();
    proof {
        assert forall|i: int| 0 <= i < icon.states@.len() implies (#[trigger] icon.states@[i]).images@.len() > 0
            && icon.states@[i].images@[0].wf() by {
            assert(icon.states@[i].images@.len() > 0);
        }
    }
    let paths = par_first_frame_paths(&icon.states, &table);
    let mut out: Vec<String> = Vec::new();
    let mut i: usize = 0;
    while i < icon.states.len()
        invariant
            all_have_frames(icon.states@),
            paths@.len() == icon.states@.len(),
            forall|k: int| 0 <= k < paths@.len() ==> texts((#[trigger] paths@[k])@) == fragments(icon.states@[k].images@[0]),
            i <= icon.states@.len(),
            out@.len() == i,
            forall|k: int|
                0 <= k < i ==> (#[trigger] out@[k])@ == symbol_document(
                    renamed(renames@, icon.states@[k].name@),
                    icon.states@[k].images@[0],
                ),
        decreases icon.states@.len() - i,
    {
        let state = &icon.states[i];
        assert(state.images@.len() > 0);
        let id = rename_of(renames, &state.name);
        let symbol = wrap_symbol(&id, &state.images[0], &paths[i]);
        out.push(symbol);
        i = i + 1;
    }
    Ok(out)
}

/// Converts every state of `icon` into a symbol of its first frame, under the
/// state's own name, in state order; fails on the first state without frames.
pub fn dmi2svg_symbol(icon: &Icon) -> (r: Result<Vec<String>, Error>)
    requires
        icon.wf(),
    ensures
        r is Ok <==> all_have_frames(icon.states@),
        r matches Err(e) ==> reports_first_missing(icon.states@, e),
        r matches Ok(v) ==> symbols_of(icon.states@, Seq::empty(), v@),
{
    let renames: Vec<(String, String)> = Vec::new();
    assert(renames@ =~= Seq::empty());
    dmi2svg_symbol_map(icon, &renames)
}

/// Two conversions of the same states give the same documents, byte for byte.
pub proof fn lemma_documents_deterministic(states: Seq<IconState>, v1: Seq<SVGState>, v2: Seq<SVGState>)
    requires
        documents_of(states, v1),
        documents_of(states, v2),
    ensures
        v1.len() == v2.len(),
        forall|i: int| 0 <= i < v1.len() ==> (#[trigger] v1[i]).svg@ == v2[i].svg@ && v1[i].name@ == v2[i].name@,
{
}

proof fn lemma_count_in_all(s: Seq<Rgba>, c: Rgba)
    requires
        forall|k: int| 0 <= k < s.len() ==> s[k] == c,
    ensures
        count_in(s, c) == s.len(),
    decreases s.len(),
{
    if s.len() > 0 {
        lemma_count_in_all(s.drop_last(), c);
    }
}

/// A frame of one opaque color all over gives one path element, without an
/// opacity attribute, and a document whose view box is the frame's size.
pub proof fn lemma_solid_frame(frame: Frame, c: Rgba)
    requires
        frame.wf(),
        frame.width > 0,
        frame.height > 0,
        frame.pixels@.len() <= usize::MAX,
        c.a == 255,
        forall|k: int| 0 <= k < frame.pixels@.len() ==> frame.pixels@[k] == c,
    ensures
        ranking(frame.pixels@) == seq![ColorCount { color: c, count: frame.pixels@.len() as usize }],
        fragments(frame).len() == 1,
        fragments(frame)[0] == fill_text(c) + " d=\""@ + traced_outline(mask_of(frame, c), true) + "\"/>\n"@,
        svg_document(frame) == "<svg xmlns=\"http://www.w3.org/2000/svg\" width=\"auto\" height=\"auto\" viewBox=\"0 0 "@
            + decimal(frame.width as nat) + " "@ + decimal(frame.height as nat)
            + "\" shape-rendering=\"crispEdges\">\n"@ + fragments(frame)[0] + "</svg>\n"@,
{
    let px = frame.pixels@;
    let cc = ColorCount { color: c, count: px.len() as usize };
    let r = seq![cc];
    lemma_count_in_all(px, c);
    assert(px.len() > 0) by (nonlinear_arith)
        requires
            px.len() == frame.width as nat * frame.height as nat,
            frame.width > 0,
            frame.height > 0,
    ;
    assert forall|k: int| 0 <= k < px.len() && px[k].a != 0 implies exists|i: int|
        0 <= i < r.len() && (#[trigger] r[i]).color == #[trigger] px[k] by {
        assert(r[0].color == px[k]);
    }
    assert(is_ranking(px, r));
    lemma_ranking_unique(px, r, ranking(px));
    let f = fragments(frame);
    assert(f.len() == 1);
    assert(f[0] =~= fill_text(c) + " d=\""@ + traced_outline(mask_of(frame, c), true) + "\"/>\n"@);
    assert(f.drop_last() =~= Seq::<Seq<char>>::empty());
    assert(joined(f.drop_last()) =~= Seq::<char>::empty());
    assert(f.last() == f[0]);
    assert(joined(f) =~= f[0]);
    assert(svg_document(frame) =~= "<svg xmlns=\"http://www.w3.org/2000/svg\" width=\"auto\" height=\"auto\" viewBox=\"0 0 "@
        + decimal(frame.width as nat) + " "@ + decimal(frame.height as nat)
        + "\" shape-rendering=\"crispEdges\">\n"@ + f[0] + "</svg>\n"@);
}

} // verus!
