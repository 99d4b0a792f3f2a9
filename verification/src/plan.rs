//! The draw plan: what the orchestrator decides before anything is drawn.
//!
//! The node map, an optional edge list and an optional token path are turned
//! into one fixed sequence of draw operations: every node label first, in
//! sorted label order, then every graph edge, then the path overlay.  The
//! order is total, so occlusion at overlapping coordinates is deterministic.

use vstd::prelude::*;
use crate::bytes::{lex_lt, bytes_lt, clone_bytes};
use crate::labels::{spawn_label, door_label, spawn_label_bytes, door_label_bytes};
use crate::nodemap::NodeMap;
use crate::render::{Rgba, spec_fill_color, classify_fill};
use crate::{Pos, Failure};

verus! {

/// Canonicalizes one path or edge token: a token sorting before the digit
/// zero stands for the spawn label, a token at or past the colon but before
/// the letter A stands for the door label, and every other token is used
/// verbatim.
pub open spec fn spec_conv_vert(t: Seq<u8>) -> Seq<u8> {
    if lex_lt(t, seq![0x30u8]) {
        spawn_label()
    } else if !lex_lt(t, seq![0x3au8]) && lex_lt(t, seq![0x41u8]) {
        door_label()
    } else {
        t
    }
}

/// Canonicalizes one token to the label it names.
pub fn conv_vert(t: &Vec<u8>) -> (r: Vec<u8>)
    ensures
        r@ == spec_conv_vert(t@),
{
    let zero: Vec<u8> = vec![0x30u8];
    let colon: Vec<u8> = vec![0x3au8];
    let letter_a: Vec<u8> = vec![0x41u8];
    proof {
        assert(zero@ =~= seq![0x30u8]);
        assert(colon@ =~= seq![0x3au8]);
        assert(letter_a@ =~= seq![0x41u8]);
    }
    if bytes_lt(t, &zero) {
        spawn_label_bytes()
    } else if !bytes_lt(t, &colon) && bytes_lt(t, &letter_a) {
        door_label_bytes()
    } else {
        clone_bytes(t)
    }
}

/// The hyphen-separated tokens of a byte string; an empty string is one
/// empty token, and adjacent hyphens hold an empty token between them.
pub open spec fn spec_split(s: Seq<u8>) -> Seq<Seq<u8>>
    decreases s.len(),
{
    match first_hyphen(s) {
        None => seq![s],
        Some(p) => if p < s.len() {
            seq![s.take(p as int)] + spec_split(s.subrange(p as int + 1, s.len() as int))
        } else {
            seq![s]
        },
    }
}

/// The distance to the first hyphen, where the string has one.
pub open spec fn first_hyphen(s: Seq<u8>) -> Option<nat>
    decreases s.len(),
{
    if s.len() == 0 {
        None
    } else if s[0] == 0x2d {
        Some(0)
    } else {
        match first_hyphen(s.drop_first()) {
            Some(p) => Some((p + 1) as nat),
            None => None,
        }
    }
}

/// The first hyphen at or after `m` is exactly at `m`, or absent.
proof fn lemma_first_hyphen_exact(s: Seq<u8>, m: int)
    requires
        0 <= m <= s.len(),
        forall|k: int| 0 <= k < m ==> #[trigger] s[k] != 0x2d,
        m == s.len() || s[m] == 0x2d,
    ensures
        m == s.len() ==> first_hyphen(s) is None,
        m < s.len() ==> first_hyphen(s) == Some(m as nat),
    decreases m,
{
    if m > 0 {
        lemma_first_hyphen_exact(s.drop_first(), m - 1);
    }
}

/// Splits a byte string at its hyphens, in order.
pub fn split_hyphens(s: &Vec<u8>) -> (r: Vec<Vec<u8>>)
    ensures
        r@.map_values(|t: Vec<u8>| t@) == spec_split(s@),
{
    let mut out: Vec<Vec<u8>> = Vec::new();
    let mut start: usize = 0;
    let mut cur: Vec<u8> = Vec::new();
    let mut i: usize = 0;
    let n = s.len();
    proof {
        assert(s@.subrange(0, n as int) =~= s@);
        assert(out@.map_values(|t: Vec<u8>| t@) + spec_split(s@) =~~= spec_split(s@));
        assert(cur@ =~= s@.subrange(0, 0));
    }
    while i < n
        invariant
            0 <= start <= i <= n,
            n == s@.len(),
            cur@ == s@.subrange(start as int, i as int),
            forall|k: int| start <= k < i ==> #[trigger] s@[k] != 0x2d,
            out@.map_values(|t: Vec<u8>| t@) + spec_split(
                s@.subrange(start as int, n as int),
            ) == spec_split(s@),
        decreases n - i,
    {
        if s[i] == 0x2d {
            proof {
                let suffix = s@.subrange(start as int, n as int);
                assert(forall|k: int|
                    0 <= k < i - start ==> #[trigger] suffix[k] == s@[start + k]);
                lemma_first_hyphen_exact(suffix, i - start);
                assert(suffix.take(i - start) =~= s@.subrange(start as int, i as int));
                assert(suffix.subrange(i - start + 1, suffix.len() as int) =~= s@.subrange(
                    i + 1,
                    n as int,
                ));
            }
            let ghost pre_out = out@;
            out.push(cur);
            proof {
                assert(out@.map_values(|t: Vec<u8>| t@) =~~= pre_out.map_values(
                    |t: Vec<u8>| t@,
                ) + seq![s@.subrange(start as int, i as int)]);
            }
            cur = Vec::new();
            start = i + 1;
            proof {
                assert(cur@ =~= s@.subrange(start as int, start as int));
                assert(out@.map_values(|t: Vec<u8>| t@) + spec_split(
                    s@.subrange(start as int, n as int),
                ) =~~= spec_split(s@));
            }
        } else {
            cur.push(s[i]);
            proof {
                assert(cur@ =~= s@.subrange(start as int, i + 1));
            }
        }
        i = i + 1;
    }
    proof {
        let suffix = s@.subrange(start as int, n as int);
        assert(forall|k: int| 0 <= k < n - start ==> #[trigger] suffix[k] == s@[start + k]);
        lemma_first_hyphen_exact(suffix, n - start);
        assert(spec_split(suffix) == seq![suffix]);
        assert(cur@ == suffix);
    }
    let ghost pre_out = out@;
    out.push(cur);
    proof {
        assert(out@.map_values(|t: Vec<u8>| t@) =~~= pre_out.map_values(|t: Vec<u8>| t@)
            + seq![s@.subrange(start as int, n as int)]);
        assert(out@.map_values(|t: Vec<u8>| t@) =~~= spec_split(s@));
    }
    out
}

/// One label to draw: its text, its canvas position, and the fill its
/// classification picked.  Every label is stroked with the same dark color
/// and width, whatever its fill.
pub struct LabelDraw {
    pub label: Vec<u8>,
    pub pos: Pos,
    pub fill: Rgba,
}

/// One arrow to draw, in canvas coordinates.
pub struct ArrowDraw {
    pub from: Pos,
    pub to: Pos,
    pub color: Rgba,
    pub width: u64,
}

/// Everything one render pass draws, in order: all labels, then all graph
/// edges, then the path overlay.
pub struct DrawPlan {
    pub labels: Vec<LabelDraw>,
    pub arrows: Vec<ArrowDraw>,
}

/// The stroke color of graph-derived edges.
pub open spec fn edge_color() -> Rgba {
    Rgba { r: 190, g: 190, b: 250, a: 180 }
}

/// The stroke color of the explicit path overlay.
pub open spec fn overlay_color() -> Rgba {
    Rgba { r: 120, g: 250, b: 120, a: 230 }
}

/// The labels an edge list resolves through the node map, in order.
pub open spec fn edge_resolved(m: NodeMap, a: Seq<u8>, b: Seq<u8>) -> bool {
    m.spec_get(spec_conv_vert(a)) is Some && m.spec_get(spec_conv_vert(b)) is Some
}

/// Builds the draw plan: every node label in sorted order, then one arrow
/// per graph edge, then one arrow per consecutive token pair of the path
/// overlay.  An edge endpoint or path token naming a label absent from the
/// node map fails the whole plan; nothing is drawn partially.
pub fn build_draw_plan(m: &NodeMap, edges: &Vec<(Vec<u8>, Vec<u8>)>, tokens: &Vec<Vec<u8>>) -> (r:
    Result<DrawPlan, Failure>)
    ensures
        r is Err <==> ((exists|i: int|
            0 <= i < edges@.len() && !edge_resolved(
                *m,
                (#[trigger] edges@[i]).0@,
                edges@[i].1@,
            )) || (exists|i: int|
            0 <= i && i + 1 < tokens@.len() && m.spec_get(
                spec_conv_vert((#[trigger] tokens@[i])@),
            ) is None) || (exists|i: int|
            0 < i < tokens@.len() && m.spec_get(
                spec_conv_vert((#[trigger] tokens@[i])@),
            ) is None)),
        r matches Err(f) ==> f == Failure::UnresolvedReference,
        r matches Ok(p) ==> {
            &&& p.labels@.len() == m.entries@.len()
            &&& forall|i: int| 0 <= i < p.labels@.len() ==> {
                &&& (#[trigger] p.labels@[i]).label@ == m.entries@[i].label@
                &&& p.labels@[i].pos == m.entries@[i].pos
                &&& p.labels@[i].fill == spec_fill_color(m.entries@[i].label@)
            }
            &&& p.arrows@.len() == edges@.len() + (if tokens@.len() >= 2 {
                tokens@.len() - 1
            } else {
                0int
            })
            &&& forall|i: int| 0 <= i < edges@.len() ==> {
                &&& (#[trigger] p.arrows@[i]).from == m.spec_get(
                    spec_conv_vert(edges@[i].0@),
                ).unwrap()
                &&& p.arrows@[i].to == m.spec_get(spec_conv_vert(edges@[i].1@)).unwrap()
                &&& p.arrows@[i].color == edge_color()
                &&& p.arrows@[i].width == 4
            }
            &&& forall|i: int| 0 <= i && i + 1 < tokens@.len() ==> {
                &&& (#[trigger] p.arrows@[edges@.len() + i]).from == m.spec_get(
                    spec_conv_vert(tokens@[i]@),
                ).unwrap()
                &&& p.arrows@[edges@.len() + i].to == m.spec_get(
                    spec_conv_vert(tokens@[i + 1]@),
                ).unwrap()
                &&& p.arrows@[edges@.len() + i].color == overlay_color()
                &&& p.arrows@[edges@.len() + i].width == 6
            }
        },
{
    let mut labels: Vec<LabelDraw> = Vec::new();
    let mut i: usize = 0;
    let n = m.len();
    while i < n
        invariant
            0 <= i <= n,
            n == m.entries@.len(),
            labels@.len() == i,
            forall|k: int| 0 <= k < i ==> {
                &&& (#[trigger] labels@[k]).label@ == m.entries@[k].label@
                &&& labels@[k].pos == m.entries@[k].pos
                &&& labels@[k].fill == spec_fill_color(m.entries@[k].label@)
            },
        decreases n - i,
    {
        let e = &m.entries[i];
        let fill = classify_fill(&e.label);
        labels.push(LabelDraw { label: clone_bytes(&e.label), pos: e.pos, fill: fill });
        i = i + 1;
    }
    let mut arrows: Vec<ArrowDraw> = Vec::new();
    let mut i: usize = 0;
    while i < edges.len()
        invariant
            0 <= i <= edges@.len(),
            arrows@.len() == i,
            forall|k: int| 0 <= k < i ==> edge_resolved(*m, (#[trigger] edges@[k]).0@, edges@[k].1@),
            forall|k: int| 0 <= k < i ==> {
                &&& (#[trigger] arrows@[k]).from == m.spec_get(
                    spec_conv_vert(edges@[k].0@),
                ).unwrap()
                &&& arrows@[k].to == m.spec_get(spec_conv_vert(edges@[k].1@)).unwrap()
                &&& arrows@[k].color == edge_color()
                &&& arrows@[k].width == 4
            },
        decreases edges@.len() - i,
    {
        let a = conv_vert(&edges[i].0);
        let b = conv_vert(&edges[i].1);
        let pa = match m.get(&a) {
            None => {
                return Err(Failure::UnresolvedReference);
            },
            Some(p) => p,
        };
        let pb = match m.get(&b) {
            None => {
                return Err(Failure::UnresolvedReference);
            },
            Some(p) => p,
        };
        arrows.push(
            ArrowDraw { from: pa, to: pb, color: Rgba { r: 190, g: 190, b: 250, a: 180 }, width: 4 },
        );
        i = i + 1;
    }
    if tokens.len() >= 2 {
        let mut i: usize = 0;
        let last = tokens.len() - 1;
        while i < last
            invariant
                tokens@.len() >= 2,
                last == tokens@.len() - 1,
                0 <= i <= tokens@.len() - 1,
                arrows@.len() == edges@.len() + i,
                forall|k: int| 0 <= k < edges@.len() ==> edge_resolved(
                    *m,
                    (#[trigger] edges@[k]).0@,
                    edges@[k].1@,
                ),
                forall|k: int| 0 <= k < edges@.len() ==> {
                    &&& (#[trigger] arrows@[k]).from == m.spec_get(
                        spec_conv_vert(edges@[k].0@),
                    ).unwrap()
                    &&& arrows@[k].to == m.spec_get(spec_conv_vert(edges@[k].1@)).unwrap()
                    &&& arrows@[k].color == edge_color()
                    &&& arrows@[k].width == 4
                },
                i > 0 ==> forall|k: int| 0 <= k <= i && k < tokens@.len() ==> m.spec_get(
                    spec_conv_vert((#[trigger] tokens@[k])@),
                ) is Some,
                forall|k: int| 0 <= k < i ==> {
                    &&& (#[trigger] arrows@[edges@.len() + k]).from == m.spec_get(
                        spec_conv_vert(tokens@[k]@),
                    ).unwrap()
                    &&& arrows@[edges@.len() + k].to == m.spec_get(
                        spec_conv_vert(tokens@[k + 1]@),
                    ).unwrap()
                    &&& arrows@[edges@.len() + k].color == overlay_color()
                    &&& arrows@[edges@.len() + k].width == 6
                },
            decreases tokens@.len() - i,
        {
            let a = conv_vert(&tokens[i]);
            let b = conv_vert(&tokens[i + 1]);
            let pa = match m.get(&a) {
                None => {
                    return Err(Failure::UnresolvedReference);
                },
                Some(p) => p,
            };
            let pb = match m.get(&b) {
                None => {
                    return Err(Failure::UnresolvedReference);
                },
                Some(p) => p,
            };
            arrows.push(
                ArrowDraw {
                    from: pa,
                    to: pb,
                    color: Rgba { r: 120, g: 250, b: 120, a: 230 },
                    width: 6,
                },
            );
            i = i + 1;
        }
        proof {
            assert(i == last && i > 0);
            assert(forall|k: int|
                0 <= k < tokens@.len() ==> m.spec_get(
                    spec_conv_vert((#[trigger] tokens@[k])@),
                ) is Some);
        }
        return Ok(DrawPlan { labels: labels, arrows: arrows });
    }
    Ok(DrawPlan { labels: labels, arrows: arrows })
}

} // verus!
