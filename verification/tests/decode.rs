use svgpath::lexer::Lexer;
use svgpath::number::Number;
use svgpath::path::{Path, Segment};
use svgpath::svg::{parse, parse_d, SvgError};

fn num(i: u64) -> Number {
    Number { neg: false, int_part: i, frac_part: 0, frac_len: 0 }
}

fn decode(data: &str) -> Result<Path, SvgError> {
    let mut lx = Lexer::new(data.as_bytes().to_vec(), 4096);
    let mut path: Path = Vec::new();
    parse_d(&mut lx, &mut path).map(|()| path)
}

#[test]
fn implicit_repeat_of_moveto_is_lineto() {
    let path = decode("M 10,10 20 20 30 30").unwrap();
    assert_eq!(
        path,
        vec![
            Segment::MoveTo { x: num(10), y: num(10) },
            Segment::LineTo { x: Some(num(20)), y: Some(num(20)) },
            Segment::LineTo { x: Some(num(30)), y: Some(num(30)) },
        ]
    );
}

#[test]
fn horizontal_line_leaves_y_unset() {
    let path = decode("H 5").unwrap();
    assert_eq!(path, vec![Segment::LineTo { x: Some(num(5)), y: None }]);
}

#[test]
fn vertical_line_leaves_x_unset() {
    let path = decode("V 7").unwrap();
    assert_eq!(path, vec![Segment::LineTo { x: None, y: Some(num(7)) }]);
}

#[test]
fn closepath_takes_no_arguments() {
    assert_eq!(decode("Z").unwrap(), vec![Segment::ClosePath]);
    assert_eq!(decode("z").unwrap(), vec![Segment::ClosePath]);
    assert_eq!(decode("M 1 2 Z").unwrap().len(), 2);
}

#[test]
fn minus_sign_separates_numbers() {
    let path = decode("M0 0L10-10").unwrap();
    assert_eq!(
        path,
        vec![
            Segment::MoveTo { x: num(0), y: num(0) },
            Segment::LineTo {
                x: Some(num(10)),
                y: Some(Number { neg: true, int_part: 10, frac_part: 0, frac_len: 0 }),
            },
        ]
    );
}

#[test]
fn smooth_commands_leave_control_points_unset() {
    let path = decode("C 1 2 3 4 5 6 S 7 8 9 10 Q 1 2 3 4 T 5 6").unwrap();
    assert_eq!(
        path,
        vec![
            Segment::CurveTo {
                c1x: Some(num(1)),
                c1y: Some(num(2)),
                c2x: num(3),
                c2y: num(4),
                x: num(5),
                y: num(6),
            },
            Segment::CurveTo {
                c1x: None,
                c1y: None,
                c2x: num(7),
                c2y: num(8),
                x: num(9),
                y: num(10),
            },
            Segment::QuadTo { cx: Some(num(1)), cy: Some(num(2)), x: num(3), y: num(4) },
            Segment::QuadTo { cx: None, cy: None, x: num(5), y: num(6) },
        ]
    );
}

#[test]
fn arc_takes_seven_arguments() {
    let path = decode("A 25 25 0 1 0 50 25").unwrap();
    assert_eq!(
        path,
        vec![Segment::ArcTo {
            rx: num(25),
            ry: num(25),
            rot: num(0),
            large: num(1),
            sweep: num(0),
            x: num(50),
            y: num(25),
        }]
    );
}

#[test]
fn lowercase_commands_decode_like_uppercase() {
    assert_eq!(decode("m 1 2 l 3 4").unwrap(), decode("M 1 2 L 3 4").unwrap());
    assert_eq!(decode("h 5").unwrap(), decode("H 5").unwrap());
}

#[test]
fn implicit_repeat_keeps_the_current_command() {
    let path = decode("L 1 2 3 4 V 5 6").unwrap();
    assert_eq!(
        path,
        vec![
            Segment::LineTo { x: Some(num(1)), y: Some(num(2)) },
            Segment::LineTo { x: Some(num(3)), y: Some(num(4)) },
            Segment::LineTo { x: None, y: Some(num(5)) },
            Segment::LineTo { x: None, y: Some(num(6)) },
        ]
    );
}

#[test]
fn decoding_stops_at_a_quote() {
    let path = decode("M 1 2'rest").unwrap();
    assert_eq!(path, vec![Segment::MoveTo { x: num(1), y: num(2) }]);
    let path = decode("M 1 2\"rest").unwrap();
    assert_eq!(path, vec![Segment::MoveTo { x: num(1), y: num(2) }]);
}

#[test]
fn unknown_letter_fails_without_a_segment_for_it() {
    let mut lx = Lexer::new(b"M0 0 X5 5".to_vec(), 4096);
    let mut path: Path = Vec::new();
    let r = parse_d(&mut lx, &mut path);
    assert_eq!(r, Err(SvgError::MalformedNumber));
    assert_eq!(path, vec![Segment::MoveTo { x: num(0), y: num(0) }]);
}

#[test]
fn argument_after_closepath_fails() {
    let mut lx = Lexer::new(b"Z 5".to_vec(), 4096);
    let mut path: Path = Vec::new();
    let r = parse_d(&mut lx, &mut path);
    assert_eq!(r, Err(SvgError::NumberAfterClose));
    assert_eq!(path, vec![Segment::ClosePath]);
}

#[test]
fn short_argument_list_fails() {
    assert_eq!(decode("M 1"), Err(SvgError::MalformedNumber));
    assert_eq!(decode("C 1 2 3"), Err(SvgError::MalformedNumber));
}

#[test]
fn comma_must_abut_its_number() {
    // The tokenizer consumes one comma after whitespace; a further gap
    // leaves an empty numeric token.
    assert_eq!(decode("M 10, 10"), Err(SvgError::MalformedNumber));
}

#[test]
fn fractions_are_kept_exactly() {
    let path = decode("M 1.25 .5").unwrap();
    assert_eq!(
        path,
        vec![Segment::MoveTo {
            x: Number { neg: false, int_part: 1, frac_part: 25, frac_len: 2 },
            y: Number { neg: false, int_part: 0, frac_part: 5, frac_len: 1 },
        }]
    );
}

#[test]
fn number_edge_cases() {
    // A trailing dot is a valid literal; a lone sign or dot is not.
    assert_eq!(
        decode("M 5. 6").unwrap()[0],
        Segment::MoveTo { x: num(5), y: num(6) }
    );
    assert_eq!(decode("M - 5"), Err(SvgError::MalformedNumber));
    assert_eq!(decode("M . 5"), Err(SvgError::MalformedNumber));
    // A second dot or a second sign spoils the token.
    assert_eq!(decode("M 1.2.3 4"), Err(SvgError::MalformedNumber));
    assert_eq!(decode("M -+5 1"), Err(SvgError::MalformedNumber));
    // Scientific notation is deliberately not recognized.
    assert_eq!(decode("M 1e5 0"), Err(SvgError::MalformedNumber));
    // A digit run too large for a u64 is malformed, not wrapped.
    assert_eq!(decode("M 99999999999999999999 0"), Err(SvgError::MalformedNumber));
    // A leading plus sign is accepted.
    assert_eq!(decode("M +5 6").unwrap()[0], Segment::MoveTo { x: num(5), y: num(6) });
}

#[test]
fn document_collects_all_path_data() {
    let doc = b"<svg><path d=\"M0 0 L10 0\"/><path d='M5 5'/></svg>".to_vec();
    let path = parse(doc, 4096).unwrap();
    assert_eq!(
        path,
        vec![
            Segment::MoveTo { x: num(0), y: num(0) },
            Segment::LineTo { x: Some(num(10)), y: Some(num(0)) },
            Segment::MoveTo { x: num(5), y: num(5) },
        ]
    );
}

#[test]
fn declarations_comments_and_other_attributes_are_skipped() {
    let mut text = String::from("<?xml version=\"1.0\"?>\n");
    text.push_str("<!DOCTYPE svg>\n");
    text.push_str("<!-- a comment -->\n");
    text.push_str("<svg width=\"10\" height='20'>");
    text.push_str("<path fill='red' d=\"M1 2\" stroke=\"blue\"/>");
    text.push_str("</svg>");
    let doc = text.into_bytes();
    let path = parse(doc, 4096).unwrap();
    assert_eq!(path, vec![Segment::MoveTo { x: num(1), y: num(2) }]);
}

#[test]
fn mismatched_quotes_are_markup_errors() {
    let doc = b"<svg><path d='M1 2\"/></svg>".to_vec();
    assert_eq!(parse(doc, 4096), Err(SvgError::Markup));
    let doc = b"<svg><path d=\"M1 2\" x='a\"/></svg>".to_vec();
    assert_eq!(parse(doc, 4096), Err(SvgError::Markup));
}

#[test]
fn missing_equals_is_a_markup_error() {
    let doc = b"<svg><path d \"M1 2\"/></svg>".to_vec();
    assert_eq!(parse(doc, 4096), Err(SvgError::Markup));
}

#[test]
fn bad_path_data_fails_the_document() {
    let doc = b"<svg><path d=\"M0 0 X5 5\"/></svg>".to_vec();
    assert_eq!(parse(doc, 4096), Err(SvgError::MalformedNumber));
}

#[test]
fn chunk_size_does_not_change_the_decoding() {
    let doc = b"<svg stroke='none'><path d=\"M 10,10 20 20 30 30 c1 2 3 4 5 6 Z\"/><g><path d='h-12.5v7z'/></g></svg>";
    let whole = parse(doc.to_vec(), 4096);
    for chunk in [0usize, 1, 2, 3, 5, 7, 64] {
        assert_eq!(parse(doc.to_vec(), chunk), whole);
    }
    assert!(whole.is_ok());
    assert_eq!(whole.unwrap().len(), 8);
}

#[test]
fn tokens_survive_refills() {
    // A number far longer than one refill chunk still parses whole.
    let mut text = String::from("<p d='M ");
    text.push_str(&"1".repeat(19));
    text.push_str(" 2'/>");
    let path = parse(text.as_bytes().to_vec(), 1).unwrap();
    assert_eq!(
        path,
        vec![Segment::MoveTo { x: num(1111111111111111111), y: num(2) }]
    );
}

#[test]
fn eof_is_idempotent() {
    let mut lx = Lexer::new(Vec::new(), 1);
    assert!(lx.eof());
    assert!(lx.eof());
    let mut lx = Lexer::new(b"a".to_vec(), 1);
    assert!(!lx.eof());
    assert_eq!(lx.getc(), b'a');
    assert!(lx.eof());
    assert!(lx.eof());
}

#[test]
fn lexer_primitives_work() {
    let mut lx = Lexer::new(b"  hello=world".to_vec(), 2);
    let name = lx.next(b" \t\r\n\0=".as_slice());
    assert_eq!(name, b"hello".to_vec());
    assert!(lx.consume(b'='));
    assert!(!lx.consume(b'='));
    let value = lx.next(b" \t\r\n\0=".as_slice());
    assert_eq!(value, b"world".to_vec());
    assert!(lx.eof());
}

#[test]
fn next_number_reports_malformed_tokens() {
    let mut lx = Lexer::new(b"12.5,-3 nonsense".to_vec(), 4);
    assert_eq!(
        lx.next_number(),
        Some(Number { neg: false, int_part: 12, frac_part: 5, frac_len: 1 })
    );
    assert_eq!(
        lx.next_number(),
        Some(Number { neg: true, int_part: 3, frac_part: 0, frac_len: 0 })
    );
    assert_eq!(lx.next_number(), None);
}
