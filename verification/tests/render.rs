use svgpath::lexer::Lexer;
use svgpath::number::Number;
use svgpath::path::{Path, PSExporter, PathVisitor, Segment};
use svgpath::svg::parse;

fn num(i: u64) -> Number {
    Number { neg: false, int_part: i, frac_part: 0, frac_len: 0 }
}

fn render(path: &Path) -> String {
    let mut ps = PSExporter::new();
    ps.render_all(path);
    String::from_utf8(ps.into_bytes()).unwrap()
}

#[test]
fn end_to_end_document_renders_four_lines() {
    let doc = b"<svg><path d=\"M0 0 L10 0 L10 10 Z\"/></svg>".to_vec();
    let path = parse(doc, 4096).unwrap();
    let text = render(&path);
    assert_eq!(text, "0 0 moveto\n10 0 lineto\n10 10 lineto\nclosepath\n");
    assert_eq!(text.lines().count(), 4);
}

#[test]
fn fields_are_truncated_toward_zero() {
    let path = vec![
        Segment::MoveTo {
            x: Number { neg: true, int_part: 3, frac_part: 7, frac_len: 1 },
            y: Number { neg: false, int_part: 0, frac_part: 9, frac_len: 1 },
        },
        Segment::MoveTo {
            x: Number { neg: true, int_part: 0, frac_part: 5, frac_len: 1 },
            y: num(12),
        },
    ];
    assert_eq!(render(&path), "-3 0 moveto\n0 12 moveto\n");
}

#[test]
fn horizontal_and_vertical_lines_render_one_field() {
    let path = vec![
        Segment::LineTo { x: Some(num(5)), y: None },
        Segment::LineTo { x: None, y: Some(num(7)) },
        Segment::LineTo { x: Some(num(1)), y: Some(num(2)) },
    ];
    assert_eq!(render(&path), "5 horz\n7 vert\n1 2 lineto\n");
}

#[test]
fn smooth_curves_render_their_present_fields() {
    let path = vec![
        Segment::CurveTo {
            c1x: None,
            c1y: None,
            c2x: num(1),
            c2y: num(2),
            x: num(3),
            y: num(4),
        },
        Segment::QuadTo { cx: None, cy: None, x: num(5), y: num(6) },
        Segment::ArcTo {
            rx: num(25),
            ry: num(25),
            rot: num(0),
            large: num(1),
            sweep: num(0),
            x: num(50),
            y: num(25),
        },
    ];
    assert_eq!(render(&path), "1 2 3 4 curveto\n5 6 quadto\n25 25 0 1 0 50 25 arcto\n");
}

#[test]
fn reparsing_rendered_fields_recovers_truncated_values() {
    let doc = b"<p d='M -17.9 4.25 L 100.5 -0.75'/>".to_vec();
    let path = parse(doc, 4096).unwrap();
    let text = render(&path);
    assert_eq!(text, "-17 4 moveto\n100 0 lineto\n");
    // Re-parse each line's numeric fields with the tokenizer itself.
    let mut reparsed: Vec<Number> = Vec::new();
    for line in text.lines() {
        let mut lx = Lexer::new(line.as_bytes().to_vec(), 3);
        while let Some(n) = lx.next_number() {
            reparsed.push(n);
        }
    }
    assert_eq!(
        reparsed,
        vec![
            Number { neg: true, int_part: 17, frac_part: 0, frac_len: 0 },
            num(4),
            num(100),
            num(0),
        ]
    );
    // Rendering the reparsed values changes nothing: the renderer is
    // lossy only once.
    let path2 = vec![
        Segment::MoveTo { x: reparsed[0], y: reparsed[1] },
        Segment::LineTo { x: Some(reparsed[2]), y: Some(reparsed[3]) },
    ];
    assert_eq!(render(&path2), text);
}

#[test]
fn visitor_replays_a_collected_path() {
    let doc = b"<p d='M1 2 L3 4 Z'/>".to_vec();
    let collected = parse(doc, 4096).unwrap();
    // Replay into another collector.
    let mut copy: Path = Vec::new();
    copy.visit_all(&collected);
    assert_eq!(copy, collected);
    // Replay into the renderer; it matches rendering directly.
    let mut ps = PSExporter::new();
    ps.visit_all(&collected);
    assert_eq!(
        String::from_utf8(ps.into_bytes()).unwrap(),
        render(&collected)
    );
}

#[test]
fn collector_visit_appends_in_order() {
    let mut path: Path = Vec::new();
    path.visit(Segment::ClosePath);
    path.visit(Segment::MoveTo { x: num(1), y: num(2) });
    assert_eq!(
        path,
        vec![Segment::ClosePath, Segment::MoveTo { x: num(1), y: num(2) }]
    );
}

#[test]
fn empty_document_renders_nothing() {
    let path = parse(Vec::new(), 1).unwrap();
    assert_eq!(path, Vec::<Segment>::new());
    assert_eq!(render(&path), "");
}
