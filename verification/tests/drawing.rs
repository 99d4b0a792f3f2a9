use lobby_graph::nodemap::NodeMap;
use lobby_graph::plan::{build_draw_plan, conv_vert, split_hyphens};
use lobby_graph::render::{
    arrow_path, classify_fill, glyph_transform, label_stroke_color, miter_limit, pen_positions,
    stroke_width, to_path, PathCmd, Rgba, ShapedGlyph,
};
use lobby_graph::{Failure, Pos};

fn b(s: &str) -> Vec<u8> {
    s.as_bytes().to_vec()
}

#[test]
fn token_canonicalization() {
    assert_eq!(conv_vert(&b("-")), b("\u{21ba}"));
    assert_eq!(conv_vert(&b("")), b("\u{21ba}"));
    assert_eq!(conv_vert(&b(":")), b("\u{2665}"));
    assert_eq!(conv_vert(&b("@")), b("\u{2665}"));
    assert_eq!(conv_vert(&b("5")), b("5"));
    assert_eq!(conv_vert(&b("B")), b("B"));
    assert_eq!(conv_vert(&b("0")), b("0"));
    assert_eq!(conv_vert(&b("A")), b("A"));
}

#[test]
fn hyphen_splitting() {
    let toks = split_hyphens(&b("A-B--C"));
    assert_eq!(toks, vec![b("A"), b("B"), b(""), b("C")]);
    assert_eq!(split_hyphens(&b("")), vec![b("")]);
    assert_eq!(split_hyphens(&b("XY")), vec![b("XY")]);
}

#[test]
fn classification_fills() {
    assert_eq!(classify_fill(&b("7")), Rgba { r: 255, g: 175, b: 195, a: 230 });
    assert_eq!(classify_fill(&b("123")), Rgba { r: 255, g: 175, b: 195, a: 230 });
    assert_eq!(classify_fill(&b("B")), Rgba { r: 150, g: 175, b: 255, a: 230 });
    assert_eq!(classify_fill(&b("\u{2665}")), Rgba { r: 255, g: 240, b: 100, a: 230 });
    assert_eq!(classify_fill(&b("A1")), Rgba { r: 255, g: 240, b: 100, a: 230 });
    // the stroke does not depend on the fill
    assert_eq!(label_stroke_color(), Rgba { r: 42, g: 12, b: 12, a: 250 });
    assert_eq!(stroke_width(96), 4);
    assert_eq!(miter_limit(96), 4);
    assert_eq!(stroke_width(100), 4);
    assert_eq!(miter_limit(100), 5);
}

#[test]
fn glyph_transform_flips_y() {
    let r = glyph_transform(Pos { x: 10, y: 20 }, Pos { x: 1, y: 2 }, Pos { x: 5, y: 7 });
    assert_eq!(r, Pos { x: 16, y: 15 });
}

#[test]
fn empty_outline_yields_no_path() {
    assert_eq!(to_path(&Vec::<PathCmd>::new()), None);
    let cmds = vec![PathCmd::MoveTo(Pos { x: 0, y: 0 }), PathCmd::Close];
    assert_eq!(to_path(&cmds), Some(cmds));
}

#[test]
fn arrow_wings_originate_at_midpoint() {
    let w1 = Pos { x: -8, y: 16 };
    let w2 = Pos { x: -8, y: -16 };
    let cmds = arrow_path(Pos { x: 0, y: 0 }, Pos { x: 100, y: 0 }, w1, w2);
    assert_eq!(
        cmds,
        vec![
            PathCmd::MoveTo(Pos { x: 0, y: 0 }),
            PathCmd::LineTo(Pos { x: 100, y: 0 }),
            PathCmd::MoveTo(Pos { x: 50, y: 0 }),
            PathCmd::LineTo(w1),
            PathCmd::MoveTo(Pos { x: 50, y: 0 }),
            PathCmd::LineTo(w2),
        ]
    );
}

#[test]
fn pen_positions_accumulate_advances() {
    let glyphs = vec![
        ShapedGlyph { x: 1, y: 0, advance: 10 },
        ShapedGlyph { x: 2, y: 1, advance: 20 },
        ShapedGlyph { x: 3, y: 2, advance: 30 },
    ];
    let pens = pen_positions(&glyphs, 100, 200);
    assert_eq!(
        pens,
        vec![
            Pos { x: 101, y: 200 },
            Pos { x: 112, y: 201 },
            Pos { x: 133, y: 202 },
        ]
    );
}

#[test]
fn draw_plan_spans_start_to_one() {
    let mut nm = NodeMap::new();
    nm.insert(b("START"), Pos { x: 0, y: 0 });
    nm.insert(b("1"), Pos { x: 100, y: 0 });
    let edges = vec![(b("START"), b("1"))];
    let plan = build_draw_plan(&nm, &edges, &Vec::new()).unwrap();
    assert_eq!(plan.labels.len(), 2);
    // labels come in sorted order: "1" before "START"
    assert_eq!(plan.labels[0].label, b("1"));
    assert_eq!(plan.labels[1].label, b("START"));
    assert_eq!(plan.arrows.len(), 1);
    assert_eq!(plan.arrows[0].from, Pos { x: 0, y: 0 });
    assert_eq!(plan.arrows[0].to, Pos { x: 100, y: 0 });
    assert_eq!(plan.arrows[0].width, 4);
    // the arrow's straight segment and wings, as drawn on the canvas
    let cmds = arrow_path(
        plan.arrows[0].from,
        plan.arrows[0].to,
        Pos { x: -8, y: 16 },
        Pos { x: -8, y: -16 },
    );
    assert_eq!(cmds[0], PathCmd::MoveTo(Pos { x: 0, y: 0 }));
    assert_eq!(cmds[1], PathCmd::LineTo(Pos { x: 100, y: 0 }));
    assert_eq!(cmds[2], PathCmd::MoveTo(Pos { x: 50, y: 0 }));
}

#[test]
fn draw_plan_orders_and_styles_overlay() {
    let mut nm = NodeMap::new();
    nm.insert(b("\u{21ba}"), Pos { x: 0, y: 0 });
    nm.insert(b("1"), Pos { x: 10, y: 0 });
    nm.insert(b("B"), Pos { x: 20, y: 0 });
    let edges = vec![(b("1"), b("B"))];
    let tokens = split_hyphens(&b("--1-B"));
    let plan = build_draw_plan(&nm, &edges, &tokens).unwrap();
    // one graph edge, then three overlay segments
    assert_eq!(plan.arrows.len(), 4);
    assert_eq!(plan.arrows[0].width, 4);
    assert_eq!(plan.arrows[0].color, Rgba { r: 190, g: 190, b: 250, a: 180 });
    for k in 1..4 {
        assert_eq!(plan.arrows[k].width, 6);
        assert_eq!(plan.arrows[k].color, Rgba { r: 120, g: 250, b: 120, a: 230 });
    }
    // "" and "-"-split tokens canonicalize to the spawn
    assert_eq!(plan.arrows[1].from, Pos { x: 0, y: 0 });
    assert_eq!(plan.arrows[1].to, Pos { x: 0, y: 0 });
    assert_eq!(plan.arrows[2].from, Pos { x: 0, y: 0 });
    assert_eq!(plan.arrows[2].to, Pos { x: 10, y: 0 });
    assert_eq!(plan.arrows[3].from, Pos { x: 10, y: 0 });
    assert_eq!(plan.arrows[3].to, Pos { x: 20, y: 0 });
}

#[test]
fn draw_plan_fails_on_unknown_label() {
    let mut nm = NodeMap::new();
    nm.insert(b("1"), Pos { x: 0, y: 0 });
    let edges = vec![(b("1"), b("2"))];
    assert!(matches!(
        build_draw_plan(&nm, &edges, &Vec::new()),
        Err(Failure::UnresolvedReference)
    ));
    let tokens = vec![b("1"), b("9")];
    assert!(matches!(
        build_draw_plan(&nm, &Vec::new(), &tokens),
        Err(Failure::UnresolvedReference)
    ));
}
