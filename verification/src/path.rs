//! Drawing segments and their consumers.
//!
//! A `Segment` is one path-drawing primitive; its ordering in a `Path`
//! defines the drawn shape. A `PathVisitor` is any sink of segments: a
//! `Path` collects them, and `PSExporter` renders each as one text line
//! whose numeric fields are truncated toward zero.

use crate::number::{push_field, spec_render_num, Number};
use vstd::prelude::*;

verus! {

/// One path-drawing primitive. An absent optional field is a value the
/// grammar omitted: the unset leg of a pure horizontal or vertical
/// line, or the control point a smooth curve mirrors from the previous
/// segment. Letter case (absolute against relative coordinates) is a
/// renderer concern and is not recorded.
#[derive(Clone, Copy, PartialEq, Eq, Debug)]
pub enum Segment {
    MoveTo { x: Number, y: Number },
    LineTo { x: Option<Number>, y: Option<Number> },
    QuadTo { cx: Option<Number>, cy: Option<Number>, x: Number, y: Number },
    CurveTo {
        c1x: Option<Number>,
        c1y: Option<Number>,
        c2x: Number,
        c2y: Number,
        x: Number,
        y: Number,
    },
    ArcTo { rx: Number, ry: Number, rot: Number, large: Number, sweep: Number, x: Number, y: Number },
    ClosePath,
}

/// An ordered sequence of segments.
pub type Path = Vec<Segment>;

/// A sink for decoded segments, handed one segment per call in path
/// order.
pub trait PathVisitor {
    fn visit(&mut self, segment: Segment);

    /// Replay a collected path into this sink, in order.
    fn visit_all(&mut self, path: &Path) {
        let mut i: usize = 0;
        while i < path.len()
            decreases path@.len() - i,
        {
            let s = path[i];
            self.visit(s);
            i += 1;
        }
    }
}

impl PathVisitor for Vec<Segment> {
    /// Collect: append the segment.
    fn visit(&mut self, segment: Segment) {
        self.push(segment);
    }
}

/// One rendered numeric field with its separating space.
pub open spec fn spec_field(n: Number) -> Seq<u8> {
    spec_render_num(n) + seq![32u8]
}

/// An optional field: absent values render as nothing.
pub open spec fn spec_opt_field(n: Option<Number>) -> Seq<u8> {
    match n {
        Some(v) => spec_field(v),
        None => Seq::<u8>::empty(),
    }
}

/// The line rendered for one segment: its present numeric fields, each
/// truncated toward zero and followed by a space, then a keyword and a
/// newline. A pure horizontal or vertical line keeps its one field and
/// the keyword `horz` or `vert`.
pub open spec fn spec_render_segment(s: Segment) -> Seq<u8> {
    match s {
        Segment::MoveTo { x, y } => spec_field(x) + spec_field(y) + seq![
            109u8,
            111,
            118,
            101,
            116,
            111,
            10,
        ],
        Segment::LineTo { x: Some(x), y: Some(y) } => spec_field(x) + spec_field(y) + seq![
            108u8,
            105,
            110,
            101,
            116,
            111,
            10,
        ],
        Segment::LineTo { x: Some(x), y: None } => spec_field(x) + seq![104u8, 111, 114, 122, 10],
        Segment::LineTo { x: None, y: Some(y) } => spec_field(y) + seq![118u8, 101, 114, 116, 10],
        Segment::LineTo { x: None, y: None } => seq![108u8, 105, 110, 101, 116, 111, 10],
        Segment::QuadTo { cx, cy, x, y } => spec_opt_field(cx) + spec_opt_field(cy) + spec_field(x)
            + spec_field(y) + seq![113u8, 117, 97, 100, 116, 111, 10],
        Segment::CurveTo { c1x, c1y, c2x, c2y, x, y } => spec_opt_field(c1x) + spec_opt_field(c1y)
            + spec_field(c2x) + spec_field(c2y) + spec_field(x) + spec_field(y) + seq![
            99u8,
            117,
            114,
            118,
            101,
            116,
            111,
            10,
        ],
        Segment::ArcTo { rx, ry, rot, large, sweep, x, y } => spec_field(rx) + spec_field(ry)
            + spec_field(rot) + spec_field(large) + spec_field(sweep) + spec_field(x) + spec_field(
            y,
        ) + seq![97u8, 114, 99, 116, 111, 10],
        Segment::ClosePath => seq![99u8, 108, 111, 115, 101, 112, 97, 116, 104, 10],
    }
}

/// The text rendered for a whole path, one line per segment.
pub open spec fn spec_render_path(p: Seq<Segment>) -> Seq<u8>
    decreases p.len(),
{
    if p.len() == 0 {
        Seq::<u8>::empty()
    } else {
        spec_render_segment(p[0]) + spec_render_path(p.skip(1))
    }
}

/// Append one optional field.
fn push_opt_field(out: &mut Vec<u8>, n: Option<Number>)
    ensures
        final(out)@ == old(out)@ + spec_opt_field(n),
{
    match n {
        Some(v) => {
            push_field(out, v);
        },
        None => {
            proof {
                assert(out@ =~= old(out)@ + spec_opt_field(n));
            }
        },
    }
}

/// Append a move-to line.
fn render_moveto(out: &mut Vec<u8>, x: Number, y: Number)
    ensures
        final(out)@ == old(out)@ + spec_render_segment((Segment::MoveTo { x, y })),
{
    push_field(out, x);
    push_field(out, y);
    out.push(109);
    out.push(111);
    out.push(118);
    out.push(101);
    out.push(116);
    out.push(111);
    out.push(10);
    proof {
        assert(out@ =~= old(out)@ + spec_render_segment((Segment::MoveTo { x, y })));
    }
}

/// Append a line-to line, or its one-field `horz`/`vert` form.
fn render_lineto(out: &mut Vec<u8>, x: Option<Number>, y: Option<Number>)
    ensures
        final(out)@ == old(out)@ + spec_render_segment((Segment::LineTo { x, y })),
{
    push_opt_field(out, x);
    push_opt_field(out, y);
    match (x, y) {
        (Some(_), None) => {
            out.push(104);
            out.push(111);
            out.push(114);
            out.push(122);
            out.push(10);
        },
        (None, Some(_)) => {
            out.push(118);
            out.push(101);
            out.push(114);
            out.push(116);
            out.push(10);
        },
        _ => {
            out.push(108);
            out.push(105);
            out.push(110);
            out.push(101);
            out.push(116);
            out.push(111);
            out.push(10);
        },
    }
    proof {
        assert(out@ =~= old(out)@ + spec_render_segment((Segment::LineTo { x, y })));
    }
}

/// Append a quad-to line.
fn render_quadto(out: &mut Vec<u8>, cx: Option<Number>, cy: Option<Number>, x: Number, y: Number)
    ensures
        final(out)@ == old(out)@ + spec_render_segment((Segment::QuadTo { cx, cy, x, y })),
{
    push_opt_field(out, cx);
    push_opt_field(out, cy);
    push_field(out, x);
    push_field(out, y);
    out.push(113);
    out.push(117);
    out.push(97);
    out.push(100);
    out.push(116);
    out.push(111);
    out.push(10);
    proof {
        assert(out@ =~= old(out)@ + spec_render_segment((Segment::QuadTo { cx, cy, x, y })));
    }
}

/// Append a curve-to line.
#[verifier::rlimit(100)]
fn render_curveto(
    out: &mut Vec<u8>,
    c1x: Option<Number>,
    c1y: Option<Number>,
    c2x: Number,
    c2y: Number,
    x: Number,
    y: Number,
)
    ensures
        final(out)@ == old(out)@ + spec_render_segment(
            (Segment::CurveTo { c1x, c1y, c2x, c2y, x, y }),
        ),
{
    push_opt_field(out, c1x);
    push_opt_field(out, c1y);
    push_field(out, c2x);
    push_field(out, c2y);
    push_field(out, x);
    push_field(out, y);
    out.push(99);
    out.push(117);
    out.push(114);
    out.push(118);
    out.push(101);
    out.push(116);
    out.push(111);
    out.push(10);
    proof {
        let o = old(out)@;
        let f1 = spec_opt_field(c1x);
        let f2 = spec_opt_field(c1y);
        let f3 = spec_field(c2x);
        let f4 = spec_field(c2y);
        let f5 = spec_field(x);
        let f6 = spec_field(y);
        let kw = seq![99u8, 117, 114, 118, 101, 116, 111, 10];
        assert(out@ =~= o + f1 + f2 + f3 + f4 + f5 + f6 + kw);
        vstd::seq_lib::lemma_concat_associative(o, f1, f2);
        vstd::seq_lib::lemma_concat_associative(o, f1 + f2, f3);
        vstd::seq_lib::lemma_concat_associative(o, f1 + f2 + f3, f4);
        vstd::seq_lib::lemma_concat_associative(o, f1 + f2 + f3 + f4, f5);
        vstd::seq_lib::lemma_concat_associative(o, f1 + f2 + f3 + f4 + f5, f6);
        vstd::seq_lib::lemma_concat_associative(o, f1 + f2 + f3 + f4 + f5 + f6, kw);
    }
}

/// Append an arc-to line.
#[verifier::rlimit(100)]
fn render_arcto(
    out: &mut Vec<u8>,
    rx: Number,
    ry: Number,
    rot: Number,
    large: Number,
    sweep: Number,
    x: Number,
    y: Number,
)
    ensures
        final(out)@ == old(out)@ + spec_render_segment(
            (Segment::ArcTo { rx, ry, rot, large, sweep, x, y }),
        ),
{
    push_field(out, rx);
    push_field(out, ry);
    push_field(out, rot);
    push_field(out, large);
    push_field(out, sweep);
    push_field(out, x);
    push_field(out, y);
    out.push(97);
    out.push(114);
    out.push(99);
    out.push(116);
    out.push(111);
    out.push(10);
    proof {
        let o = old(out)@;
        let f1 = spec_field(rx);
        let f2 = spec_field(ry);
        let f3 = spec_field(rot);
        let f4 = spec_field(large);
        let f5 = spec_field(sweep);
        let f6 = spec_field(x);
        let f7 = spec_field(y);
        let kw = seq![97u8, 114, 99, 116, 111, 10];
        assert(out@ =~= o + f1 + f2 + f3 + f4 + f5 + f6 + f7 + kw);
        vstd::seq_lib::lemma_concat_associative(o, f1, f2);
        vstd::seq_lib::lemma_concat_associative(o, f1 + f2, f3);
        vstd::seq_lib::lemma_concat_associative(o, f1 + f2 + f3, f4);
        vstd::seq_lib::lemma_concat_associative(o, f1 + f2 + f3 + f4, f5);
        vstd::seq_lib::lemma_concat_associative(o, f1 + f2 + f3 + f4 + f5, f6);
        vstd::seq_lib::lemma_concat_associative(o, f1 + f2 + f3 + f4 + f5 + f6, f7);
        vstd::seq_lib::lemma_concat_associative(o, f1 + f2 + f3 + f4 + f5 + f6 + f7, kw);
    }
}

/// Append a close-path line.
fn render_closepath(out: &mut Vec<u8>)
    ensures
        final(out)@ == old(out)@ + spec_render_segment(Segment::ClosePath),
{
    out.push(99);
    out.push(108);
    out.push(111);
    out.push(115);
    out.push(101);
    out.push(112);
    out.push(97);
    out.push(116);
    out.push(104);
    out.push(10);
    proof {
        assert(out@ =~= old(out)@ + spec_render_segment(Segment::ClosePath));
    }
}

/// Renders segments as text: one line per segment, space-separated
/// numeric fields truncated toward zero, then a keyword. The text
/// accumulates in memory; the caller takes it with `into_bytes` and
/// writes it wherever it pleases.
pub struct PSExporter {
    out: Vec<u8>,
}

impl PSExporter {
    /// The text produced so far.
    pub closed spec fn rendered(self) -> Seq<u8> {
        self.out@
    }

    /// A renderer with empty output.
    pub fn new() -> (r: PSExporter)
        ensures
            r.rendered() == Seq::<u8>::empty(),
    {
        let r = PSExporter { out: Vec::new() };
        proof {
            assert(r.rendered() =~= Seq::<u8>::empty());
        }
        r
    }

    /// Append the line for one segment.
    pub fn render(&mut self, segment: Segment)
        ensures
            final(self).rendered() == old(self).rendered() + spec_render_segment(segment),
    {
        match segment {
            Segment::MoveTo { x, y } => render_moveto(&mut self.out, x, y),
            Segment::LineTo { x, y } => render_lineto(&mut self.out, x, y),
            Segment::QuadTo { cx, cy, x, y } => render_quadto(&mut self.out, cx, cy, x, y),
            Segment::CurveTo { c1x, c1y, c2x, c2y, x, y } => render_curveto(
                &mut self.out,
                c1x,
                c1y,
                c2x,
                c2y,
                x,
                y,
            ),
            Segment::ArcTo { rx, ry, rot, large, sweep, x, y } => render_arcto(
                &mut self.out,
                rx,
                ry,
                rot,
                large,
                sweep,
                x,
                y,
            ),
            Segment::ClosePath => render_closepath(&mut self.out),
        }
    }

    /// Render every segment of a path, in order.
    pub fn render_all(&mut self, path: &Path)
        ensures
            final(self).rendered() == old(self).rendered() + spec_render_path(path@),
    {
        let ghost base = old(self).rendered();
        proof {
            assert(path@.take(0) =~= Seq::<Segment>::empty());
            assert(base + spec_render_path(path@.take(0)) =~= base);
        }
        let mut i: usize = 0;
        while i < path.len()
            invariant
                0 <= i <= path@.len(),
                self.rendered() == base + spec_render_path(path@.take(i as int)),
            decreases path@.len() - i,
        {
            let s = path[i];
            self.render(s);
            i += 1;
            proof {
                lemma_render_path_take(path@, i as int);
                assert(base + (spec_render_path(path@.take(i - 1)) + spec_render_segment(
                    path@[i - 1],
                )) =~= (base + spec_render_path(path@.take(i - 1))) + spec_render_segment(
                    path@[i - 1],
                ));
            }
        }
        proof {
            assert(path@.take(path@.len() as int) =~= path@);
        }
    }

    /// The rendered text.
    pub fn into_bytes(self) -> (r: Vec<u8>)
        ensures
            r@ == self.rendered(),
    {
        self.out
    }
}

/// Extending the rendered prefix by one segment appends that segment's
/// line.
proof fn lemma_render_path_take(p: Seq<Segment>, i: int)
    requires
        0 < i <= p.len(),
    ensures
        spec_render_path(p.take(i)) == spec_render_path(p.take(i - 1)) + spec_render_segment(
            p[i - 1],
        ),
    decreases i,
{
    if i == 1 {
        assert(p.take(0) =~= Seq::<Segment>::empty());
        assert(p.take(1).skip(1) =~= Seq::<Segment>::empty());
        assert(p.take(1)[0] == p[0]);
        assert(spec_render_path(Seq::<Segment>::empty()) == Seq::<u8>::empty());
        assert(spec_render_path(p.take(1)) =~= spec_render_segment(p[0]) + Seq::<u8>::empty());
        assert(Seq::<u8>::empty() + spec_render_segment(p[0]) =~= spec_render_segment(p[0]));
        assert(spec_render_segment(p[0]) + Seq::<u8>::empty() =~= spec_render_segment(p[0]));
    } else {
        lemma_render_path_take(p.skip(1), i - 1);
        assert(p.take(i).skip(1) =~= p.skip(1).take(i - 1));
        assert(p.take(i - 1).skip(1) =~= p.skip(1).take(i - 2));
        assert(p.take(i)[0] == p[0]);
        assert(p.take(i - 1)[0] == p[0]);
        assert(p.skip(1)[i - 2] == p[i - 1]);
        assert(spec_render_path(p.take(i)) == spec_render_segment(p[0]) + spec_render_path(
            p.skip(1).take(i - 1),
        ));
        assert(spec_render_path(p.take(i - 1)) == spec_render_segment(p[0]) + spec_render_path(
            p.skip(1).take(i - 2),
        ));
        assert(spec_render_segment(p[0]) + (spec_render_path(p.skip(1).take(i - 2))
            + spec_render_segment(p[i - 1])) =~= (spec_render_segment(p[0]) + spec_render_path(
            p.skip(1).take(i - 2),
        )) + spec_render_segment(p[i - 1]));
    }
}

impl PathVisitor for PSExporter {
    /// Render: append the segment's line.
    fn visit(&mut self, segment: Segment) {
        self.render(segment);
    }
}

} // verus!
