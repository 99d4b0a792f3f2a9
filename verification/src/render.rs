//! Rendering decisions: label classification, stroke parameters, glyph
//! placement, outline-to-path conversion and arrow geometry.
//!
//! Everything here is exact integer arithmetic on canvas coordinates; the
//! rasterizer and the text shaper consume these values unchanged.

use vstd::prelude::*;
use crate::{Pos, COORD_BOUND, coord_ok};

verus! {

/// A color, as red, green, blue and alpha channels.
#[derive(Clone, Copy, PartialEq, Eq, Structural, Debug)]
pub struct Rgba {
    pub r: u8,
    pub g: u8,
    pub b: u8,
    pub a: u8,
}

/// The byte is an ASCII decimal digit.
pub open spec fn is_ascii_digit(c: u8) -> bool {
    0x30 <= c <= 0x39
}

/// The byte is an ASCII letter.
pub open spec fn is_ascii_alpha(c: u8) -> bool {
    (0x41 <= c <= 0x5a) || (0x61 <= c <= 0x7a)
}

/// The warm pink fill of all-digit labels.
pub open spec fn digit_fill() -> Rgba {
    Rgba { r: 255, g: 175, b: 195, a: 230 }
}

/// The blue fill of all-letter labels.
pub open spec fn alpha_fill() -> Rgba {
    Rgba { r: 150, g: 175, b: 255, a: 230 }
}

/// The yellow fill of every other label.
pub open spec fn symbol_fill() -> Rgba {
    Rgba { r: 255, g: 240, b: 100, a: 230 }
}

/// The fill color a whole label is classified to: warm pink when every byte
/// is a decimal digit, blue when every byte is a letter, yellow otherwise.
pub open spec fn spec_fill_color(l: Seq<u8>) -> Rgba {
    if forall|i: int| 0 <= i < l.len() ==> is_ascii_digit(#[trigger] l[i]) {
        digit_fill()
    } else if forall|i: int| 0 <= i < l.len() ==> is_ascii_alpha(#[trigger] l[i]) {
        alpha_fill()
    } else {
        symbol_fill()
    }
}

/// Classifies a whole label to its fill color.
pub fn classify_fill(label: &Vec<u8>) -> (r: Rgba)
    ensures
        r == spec_fill_color(label@),
{
    let mut all_digit = true;
    let mut all_alpha = true;
    let mut i: usize = 0;
    while i < label.len()
        invariant
            0 <= i <= label@.len(),
            all_digit == forall|k: int| 0 <= k < i ==> is_ascii_digit(#[trigger] label@[k]),
            all_alpha == forall|k: int| 0 <= k < i ==> is_ascii_alpha(#[trigger] label@[k]),
        decreases label@.len() - i,
    {
        let c = label[i];
        if !(0x30 <= c && c <= 0x39) {
            all_digit = false;
        }
        if !((0x41 <= c && c <= 0x5a) || (0x61 <= c && c <= 0x7a)) {
            all_alpha = false;
        }
        i = i + 1;
    }
    if all_digit {
        Rgba { r: 255, g: 175, b: 195, a: 230 }
    } else if all_alpha {
        Rgba { r: 150, g: 175, b: 255, a: 230 }
    } else {
        Rgba { r: 255, g: 240, b: 100, a: 230 }
    }
}

/// The dark color every glyph outline is stroked with, whatever its fill.
pub fn label_stroke_color() -> (r: Rgba)
    ensures
        r == (Rgba { r: 42, g: 12, b: 12, a: 250 }),
{
    Rgba { r: 42, g: 12, b: 12, a: 250 }
}

/// The stroke width of glyph outlines: the font size over 24, rounded to
/// the nearest whole number, halves away from zero.
pub fn stroke_width(font_size: u64) -> (r: u64)
    requires
        font_size <= 0xffff_ffff,
    ensures
        r == (font_size + 12) / 24,
{
    (font_size + 12) / 24
}

/// The miter limit of glyph outlines: the font size over 24, rounded up.
pub fn miter_limit(font_size: u64) -> (r: u64)
    requires
        font_size <= 0xffff_ffff,
    ensures
        r == (font_size + 23) / 24,
{
    (font_size + 23) / 24
}

/// Places an outline point on the canvas: the outline's y axis is flipped
/// (outline space is y-up, the canvas y-down), then the node's canvas
/// position and the glyph's own pen offset translate it.
pub fn glyph_transform(node: Pos, pen: Pos, p: Pos) -> (r: Pos)
    requires
        coord_ok(node),
        coord_ok(pen),
        coord_ok(p),
    ensures
        r.x == p.x + node.x + pen.x,
        r.y == -p.y + node.y + pen.y,
{
    Pos { x: p.x + node.x + pen.x, y: -p.y + node.y + pen.y }
}

/// One command of a vector outline or of a device-space path.
#[derive(Clone, Copy, PartialEq, Eq, Structural, Debug)]
pub enum PathCmd {
    /// Opens a subpath at the point.
    MoveTo(Pos),
    /// A straight segment to the point.
    LineTo(Pos),
    /// A quadratic segment with one control point.
    QuadTo(Pos, Pos),
    /// A cubic segment with two control points.
    CurveTo(Pos, Pos, Pos),
    /// Seals the current subpath.
    Close,
}

/// Converts an outline to a drawable path: the commands carry over one for
/// one, and an outline with no drawable geometry yields nothing rather than
/// an error, so the caller skips such a glyph silently.
pub fn to_path(cmds: &Vec<PathCmd>) -> (r: Option<Vec<PathCmd>>)
    ensures
        r is None <==> cmds@.len() == 0,
        r matches Some(p) ==> p@ == cmds@,
{
    if cmds.len() == 0 {
        return None;
    }
    let mut out: Vec<PathCmd> = Vec::new();
    let mut i: usize = 0;
    while i < cmds.len()
        invariant
            0 <= i <= cmds@.len(),
            out@ == cmds@.subrange(0, i as int),
        decreases cmds@.len() - i,
    {
        out.push(cmds[i]);
        proof {
            assert(out@ =~= cmds@.subrange(0, i + 1));
        }
        i = i + 1;
    }
    proof {
        assert(out@ =~= cmds@);
    }
    Some(out)
}

/// Half of a value, rounded toward zero.
pub open spec fn half_toward_zero(v: int) -> int {
    if v >= 0 {
        v / 2
    } else {
        -((-v) / 2)
    }
}

/// The midpoint of a segment, in whole pixels, each component rounded
/// toward zero.
pub open spec fn midpoint(a: Pos, b: Pos) -> Pos {
    Pos { x: half_toward_zero(a.x + b.x) as i64, y: half_toward_zero(a.y + b.y) as i64 }
}

/// Builds a directed arrow path: one straight segment from `start` to
/// `end`, and two wing segments that both originate at the midpoint of the
/// segment and run to the given wing tips.  The caller computes the wing
/// tips, each rotated fifteen degrees off the segment's direction and
/// pointing backward toward `start`.
pub fn arrow_path(start: Pos, end: Pos, wing1: Pos, wing2: Pos) -> (r: Vec<PathCmd>)
    requires
        coord_ok(start),
        coord_ok(end),
    ensures
        r@.len() == 6,
        r@[0] == PathCmd::MoveTo(start),
        r@[1] == PathCmd::LineTo(end),
        r@[2] == PathCmd::MoveTo(midpoint(start, end)),
        r@[3] == PathCmd::LineTo(wing1),
        r@[4] == PathCmd::MoveTo(midpoint(start, end)),
        r@[5] == PathCmd::LineTo(wing2),
{
    let mid = Pos { x: (start.x + end.x) / 2, y: (start.y + end.y) / 2 };
    let mut out: Vec<PathCmd> = Vec::new();
    out.push(PathCmd::MoveTo(start));
    out.push(PathCmd::LineTo(end));
    out.push(PathCmd::MoveTo(mid));
    out.push(PathCmd::LineTo(wing1));
    out.push(PathCmd::MoveTo(mid));
    out.push(PathCmd::LineTo(wing2));
    out
}

/// A shaped glyph within a run: its own offset and its horizontal advance.
#[derive(Clone, Copy, PartialEq, Eq, Structural, Debug)]
pub struct ShapedGlyph {
    pub x: i64,
    pub y: i64,
    pub advance: i64,
}

/// Largest magnitude of a glyph offset or advance.
pub const GLYPH_BOUND: i64 = 0x10_0000;

/// The sum of the first `n` glyph advances.
pub open spec fn adv_sum(gs: Seq<ShapedGlyph>, n: int) -> int
    decreases n,
{
    if n <= 0 {
        0
    } else {
        adv_sum(gs, n - 1) + gs[n - 1].advance
    }
}

/// The advance sum over a bounded run stays bounded.
proof fn lemma_adv_sum_bound(gs: Seq<ShapedGlyph>, n: int)
    requires
        0 <= n <= gs.len(),
        forall|k: int| 0 <= k < gs.len() ==> -GLYPH_BOUND <= (#[trigger] gs[k]).advance
            <= GLYPH_BOUND,
    ensures
        -n * GLYPH_BOUND <= adv_sum(gs, n) <= n * GLYPH_BOUND,
    decreases n,
{
    if n > 0 {
        lemma_adv_sum_bound(gs, n - 1);
    }
}

/// The pen position of every glyph of a run: the run's origin, plus the
/// glyph's own offset, plus the advances of all the glyphs before it; the
/// vertical component is the run's baseline plus the glyph's own offset.
pub fn pen_positions(glyphs: &Vec<ShapedGlyph>, run_x: i64, run_y: i64) -> (r: Vec<Pos>)
    requires
        -COORD_BOUND <= run_x <= COORD_BOUND,
        -COORD_BOUND <= run_y <= COORD_BOUND,
        glyphs@.len() <= 0x10_0000,
        forall|k: int| 0 <= k < glyphs@.len() ==> {
            &&& -GLYPH_BOUND <= (#[trigger] glyphs@[k]).x <= GLYPH_BOUND
            &&& -GLYPH_BOUND <= glyphs@[k].y <= GLYPH_BOUND
            &&& -GLYPH_BOUND <= glyphs@[k].advance <= GLYPH_BOUND
        },
    ensures
        r@.len() == glyphs@.len(),
        forall|i: int| 0 <= i < r@.len() ==> (#[trigger] r@[i]).x == run_x + glyphs@[i].x
            + adv_sum(glyphs@, i),
        forall|i: int| 0 <= i < r@.len() ==> (#[trigger] r@[i]).y == run_y + glyphs@[i].y,
{
    let mut out: Vec<Pos> = Vec::new();
    let mut acc: i64 = 0;
    let mut i: usize = 0;
    while i < glyphs.len()
        invariant
            0 <= i <= glyphs@.len(),
            glyphs@.len() <= 0x10_0000,
            -COORD_BOUND <= run_x <= COORD_BOUND,
            -COORD_BOUND <= run_y <= COORD_BOUND,
            forall|k: int| 0 <= k < glyphs@.len() ==> {
                &&& -GLYPH_BOUND <= (#[trigger] glyphs@[k]).x <= GLYPH_BOUND
                &&& -GLYPH_BOUND <= glyphs@[k].y <= GLYPH_BOUND
                &&& -GLYPH_BOUND <= glyphs@[k].advance <= GLYPH_BOUND
            },
            acc == adv_sum(glyphs@, i as int),
            out@.len() == i,
            forall|k: int| 0 <= k < i ==> (#[trigger] out@[k]).x == run_x + glyphs@[k].x
                + adv_sum(glyphs@, k),
            forall|k: int| 0 <= k < i ==> (#[trigger] out@[k]).y == run_y + glyphs@[k].y,
        decreases glyphs@.len() - i,
    {
        proof {
            lemma_adv_sum_bound(glyphs@, i as int);
        }
        let g = glyphs[i];
        out.push(Pos { x: run_x + g.x + acc, y: run_y + g.y });
        acc = acc + g.advance;
        i = i + 1;
    }
    out
}

} // verus!
