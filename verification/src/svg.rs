//! The path grammar interpreter and the minimal document scanner.
//!
//! Path data is a run of single-letter commands, each followed by a
//! fixed count of numeric arguments. A bare argument group repeats the
//! current command — except that a move-to repeats as a line-to, and a
//! close-path, which takes no arguments, cannot repeat. Letter case
//! (absolute against relative coordinates) is preserved into the
//! repetition rule but not recorded in the segment.
//!
//! The scanner walks a minimal XML shape — tags, comments and
//! declarations, `name="value"` attribute pairs — and hands every `d`
//! attribute value to the interpreter.

use crate::lexer::{scan_len, space_len, spec_next_number, Lexer};
use crate::number::Number;
use crate::path::{Path, Segment};
use vstd::prelude::*;

verus! {

/// Why decoding failed. Failures are fatal for the document: path data
/// has no safe point to resynchronize at.
#[derive(Clone, Copy, PartialEq, Eq, Debug)]
pub enum SvgError {
    /// A numeric argument was missing, ran past the input, or was not a
    /// plain decimal literal — an unknown command letter is swept into
    /// the argument token and reported here too.
    MalformedNumber,
    /// A bare argument group followed a close-path command, which takes
    /// no arguments and cannot repeat.
    NumberAfterClose,
    /// The document markup was not the minimal XML shape expected: a
    /// construct misses its `>`, an attribute its `=` or its quotes, or
    /// the closing quote does not match the opening one.
    Markup,
}

/// The twenty recognized command letters, both cases.
pub open spec fn is_cmd_letter(b: u8) -> bool {
    b == 77 || b == 109 || b == 90 || b == 122 || b == 76 || b == 108 || b == 72 || b == 104 || b
        == 86 || b == 118 || b == 67 || b == 99 || b == 83 || b == 115 || b == 81 || b == 113 || b
        == 84 || b == 116 || b == 65 || b == 97
}

/// A command letter folded to upper case.
pub open spec fn fold_letter(b: u8) -> u8 {
    if 97 <= b && b <= 122 {
        (b - 32) as u8
    } else {
        b
    }
}

/// The count of numeric arguments a folded command letter takes.
pub open spec fn arity(c: u8) -> nat {
    if c == 77 {
        2
    } else if c == 76 {
        2
    } else if c == 72 {
        1
    } else if c == 86 {
        1
    } else if c == 67 {
        6
    } else if c == 83 {
        4
    } else if c == 81 {
        4
    } else if c == 84 {
        2
    } else if c == 65 {
        7
    } else {
        0
    }
}

/// The command a bare argument group repeats after `b` has run: only a
/// move-to repeats otherwise, as a line-to of the same case.
pub open spec fn next_cmd(b: u8) -> u8 {
    if b == 77 {
        76
    } else if b == 109 {
        108
    } else {
        b
    }
}

/// Read `k` numbers in sequence from `s`.
pub open spec fn spec_numbers(s: Seq<u8>, k: nat) -> Option<(Seq<Number>, Seq<u8>)>
    decreases k,
{
    if k == 0 {
        Some((Seq::<Number>::empty(), s))
    } else {
        match spec_next_number(s) {
            Some((n, r)) => match spec_numbers(r, (k - 1) as nat) {
                Some((ns, r2)) => Some((seq![n] + ns, r2)),
                None => None,
            },
            None => None,
        }
    }
}

/// A token that parses as a number holds at least one byte.
proof fn lemma_parse_decimal_some_len(t: Seq<u8>)
    ensures
        crate::number::spec_parse_decimal(t) is Some ==> t.len() >= 1,
{
}

/// A successful number read consumes at least one byte.
pub proof fn lemma_next_number_len(s: Seq<u8>)
    ensures
        spec_next_number(s) matches Some(p) ==> p.1.len() < s.len(),
{
    crate::lexer::lemma_space_len(s);
    let t = s.skip(space_len(s));
    let u = if t.len() > 0 && t[0] == 44 {
        t.skip(1)
    } else {
        t
    };
    let neg = u.len() > 0 && u[0] == 45;
    let v = if neg {
        u.skip(1)
    } else {
        u
    };
    crate::lexer::lemma_scan_len(v, crate::lexer::num_delims());
    let k = scan_len(v, crate::lexer::num_delims());
    let tok = (if neg {
        seq![45u8]
    } else {
        Seq::<u8>::empty()
    }) + v.take(k);
    lemma_parse_decimal_some_len(tok);
}

/// Reading `k` numbers consumes at least `k` bytes and yields `k`
/// numbers.
pub proof fn lemma_numbers_len(s: Seq<u8>, k: nat)
    ensures
        spec_numbers(s, k) matches Some(p) ==> p.0.len() == k && p.1.len() + k <= s.len(),
    decreases k,
{
    if k > 0 {
        lemma_next_number_len(s);
        match spec_next_number(s) {
            Some((n, r)) => {
                lemma_numbers_len(r, (k - 1) as nat);
            },
            None => {},
        }
    }
}

/// The segment a folded command letter builds from its arguments.
pub open spec fn make_segment(c: u8, ns: Seq<Number>) -> Segment
    recommends
        ns.len() == arity(c),
{
    if c == 77 {
        Segment::MoveTo { x: ns[0], y: ns[1] }
    } else if c == 76 {
        Segment::LineTo { x: Some(ns[0]), y: Some(ns[1]) }
    } else if c == 72 {
        Segment::LineTo { x: Some(ns[0]), y: None }
    } else if c == 86 {
        Segment::LineTo { x: None, y: Some(ns[0]) }
    } else if c == 67 {
        Segment::CurveTo {
            c1x: Some(ns[0]),
            c1y: Some(ns[1]),
            c2x: ns[2],
            c2y: ns[3],
            x: ns[4],
            y: ns[5],
        }
    } else if c == 83 {
        Segment::CurveTo { c1x: None, c1y: None, c2x: ns[0], c2y: ns[1], x: ns[2], y: ns[3] }
    } else if c == 81 {
        Segment::QuadTo { cx: Some(ns[0]), cy: Some(ns[1]), x: ns[2], y: ns[3] }
    } else if c == 84 {
        Segment::QuadTo { cx: None, cy: None, x: ns[0], y: ns[1] }
    } else if c == 65 {
        Segment::ArcTo {
            rx: ns[0],
            ry: ns[1],
            rot: ns[2],
            large: ns[3],
            sweep: ns[4],
            x: ns[5],
            y: ns[6],
        }
    } else {
        Segment::ClosePath
    }
}

/// One command's arguments read from `s`: the segment built under
/// letter `c`, and the bytes left.
pub open spec fn spec_args(s: Seq<u8>, c: u8) -> Option<(Segment, Seq<u8>)> {
    match spec_numbers(s, arity(fold_letter(c))) {
        Some((ns, r)) => Some((make_segment(fold_letter(c), ns), r)),
        None => None,
    }
}

/// The segments decoded from path data `s` under current command
/// `cmd`, with either the bytes left at the terminating quote or end
/// of input, or the error met. Segments decoded before a failure are
/// kept: nothing is emitted for the malformed token itself.
pub open spec fn spec_path(s: Seq<u8>, cmd: u8) -> (Seq<Segment>, Result<Seq<u8>, SvgError>)
    decreases s.len(),
    when is_cmd_letter(cmd)
{
    let t = s.skip(space_len(s));
    if t.len() == 0 {
        (Seq::<Segment>::empty(), Ok(t))
    } else if t[0] == 39 || t[0] == 34 {
        (Seq::<Segment>::empty(), Ok(t))
    } else if is_cmd_letter(t[0]) {
        let c = t[0];
        match spec_args(t.skip(1), c) {
            None => (Seq::<Segment>::empty(), Err(SvgError::MalformedNumber)),
            Some((seg, r)) => {
                proof {
                    crate::lexer::lemma_space_len(s);
                    lemma_numbers_len(t.skip(1), arity(fold_letter(c)));
                }
                let (segs, out) = spec_path(r, next_cmd(c));
                (seq![seg] + segs, out)
            },
        }
    } else if fold_letter(cmd) == 90 {
        (Seq::<Segment>::empty(), Err(SvgError::NumberAfterClose))
    } else {
        match spec_args(t, cmd) {
            None => (Seq::<Segment>::empty(), Err(SvgError::MalformedNumber)),
            Some((seg, r)) => {
                proof {
                    crate::lexer::lemma_space_len(s);
                    lemma_numbers_len(t, arity(fold_letter(cmd)));
                }
                let (segs, out) = spec_path(r, next_cmd(cmd));
                (seq![seg] + segs, out)
            },
        }
    }
}

/// Decoding path data consumes bytes, never makes them.
pub proof fn lemma_path_len(s: Seq<u8>, cmd: u8)
    requires
        is_cmd_letter(cmd),
    ensures
        spec_path(s, cmd).1 matches Ok(rest) ==> rest.len() <= s.len(),
    decreases s.len(),
{
    crate::lexer::lemma_space_len(s);
    let t = s.skip(space_len(s));
    if t.len() == 0 || t[0] == 39 || t[0] == 34 {
    } else if is_cmd_letter(t[0]) {
        let c = t[0];
        match spec_args(t.skip(1), c) {
            None => {},
            Some((seg, r)) => {
                lemma_numbers_len(t.skip(1), arity(fold_letter(c)));
                lemma_path_len(r, next_cmd(c));
            },
        }
    } else if fold_letter(cmd) == 90 {
    } else {
        match spec_args(t, cmd) {
            None => {},
            Some((seg, r)) => {
                lemma_numbers_len(t, arity(fold_letter(cmd)));
                lemma_path_len(r, next_cmd(cmd));
            },
        }
    }
}

/// Whitespace and `>`: what ends a tag name.
pub open spec fn name_delims() -> Seq<u8> {
    seq![32u8, 9, 13, 10, 0, 62]
}

/// Whitespace and `=`: what ends an attribute name.
pub open spec fn attr_delims() -> Seq<u8> {
    seq![32u8, 9, 13, 10, 0, 61]
}

/// The two quote characters.
pub open spec fn quote_delims() -> Seq<u8> {
    seq![39u8, 34]
}

/// The attributes of one open tag, read from just after its name: the
/// segments of every `d` attribute met, and either the bytes left
/// after the closing `>`, or the error met.
pub open spec fn spec_attrs(s: Seq<u8>) -> (Seq<Segment>, Result<Seq<u8>, SvgError>)
    decreases s.len(),
{
    let t = s.skip(space_len(s));
    if t.len() == 0 {
        (Seq::<Segment>::empty(), Err(SvgError::Markup))
    } else if t[0] == 62 {
        (Seq::<Segment>::empty(), Ok(t.skip(1)))
    } else if t[0] == 47 {
        let u = t.skip(1);
        let u2 = u.skip(scan_len(u, seq![62u8]));
        if u2.len() == 0 {
            (Seq::<Segment>::empty(), Err(SvgError::Markup))
        } else {
            (Seq::<Segment>::empty(), Ok(u2.skip(1)))
        }
    } else {
        let n = t.take(scan_len(t, attr_delims()));
        let t2 = t.skip(scan_len(t, attr_delims()));
        let t3 = t2.skip(space_len(t2));
        if t3.len() == 0 || t3[0] != 61 {
            (Seq::<Segment>::empty(), Err(SvgError::Markup))
        } else {
            let t4 = t3.skip(1);
            let t5 = t4.skip(space_len(t4));
            if t5.len() == 0 || !(t5[0] == 39 || t5[0] == 34) {
                (Seq::<Segment>::empty(), Err(SvgError::Markup))
            } else {
                let q = t5[0];
                let t6 = t5.skip(1);
                if n == seq![100u8] {
                    let (segs, pr) = spec_path(t6, 77);
                    match pr {
                        Err(e) => (segs, Err(e)),
                        Ok(rest) => {
                            if rest.len() > 0 && rest[0] == q {
                                proof {
                                    crate::lexer::lemma_space_len(s);
                                    crate::lexer::lemma_scan_len(t, attr_delims());
                                    crate::lexer::lemma_space_len(t2);
                                    crate::lexer::lemma_space_len(t4);
                                    lemma_path_len(t6, 77);
                                }
                                let (segs2, r2) = spec_attrs(rest.skip(1));
                                (segs + segs2, r2)
                            } else {
                                (segs, Err(SvgError::Markup))
                            }
                        },
                    }
                } else {
                    let val_t = t6.skip(space_len(t6));
                    let rest = val_t.skip(scan_len(val_t, quote_delims()));
                    if rest.len() > 0 && rest[0] == q {
                        proof {
                            crate::lexer::lemma_space_len(s);
                            crate::lexer::lemma_scan_len(t, attr_delims());
                            crate::lexer::lemma_space_len(t2);
                            crate::lexer::lemma_space_len(t4);
                            crate::lexer::lemma_space_len(t6);
                            crate::lexer::lemma_scan_len(val_t, quote_delims());
                        }
                        spec_attrs(rest.skip(1))
                    } else {
                        (Seq::<Segment>::empty(), Err(SvgError::Markup))
                    }
                }
            }
        }
    }
}

/// Reading an attribute run consumes at least the closing `>`.
pub proof fn lemma_attrs_len(s: Seq<u8>)
    ensures
        spec_attrs(s).1 matches Ok(rest) ==> rest.len() < s.len(),
    decreases s.len(),
{
    crate::lexer::lemma_space_len(s);
    let t = s.skip(space_len(s));
    if t.len() == 0 || t[0] == 62 {
    } else if t[0] == 47 {
        let u = t.skip(1);
        crate::lexer::lemma_scan_len(u, seq![62u8]);
    } else {
        let n = t.take(scan_len(t, attr_delims()));
        crate::lexer::lemma_scan_len(t, attr_delims());
        let t2 = t.skip(scan_len(t, attr_delims()));
        crate::lexer::lemma_space_len(t2);
        let t3 = t2.skip(space_len(t2));
        if t3.len() > 0 && t3[0] == 61 {
            let t4 = t3.skip(1);
            crate::lexer::lemma_space_len(t4);
            let t5 = t4.skip(space_len(t4));
            if t5.len() > 0 && (t5[0] == 39 || t5[0] == 34) {
                let q = t5[0];
                let t6 = t5.skip(1);
                if n == seq![100u8] {
                    let (segs, pr) = spec_path(t6, 77);
                    match pr {
                        Err(e) => {},
                        Ok(rest) => {
                            lemma_path_len(t6, 77);
                            if rest.len() > 0 && rest[0] == q {
                                lemma_attrs_len(rest.skip(1));
                            }
                        },
                    }
                } else {
                    crate::lexer::lemma_space_len(t6);
                    let val_t = t6.skip(space_len(t6));
                    crate::lexer::lemma_scan_len(val_t, quote_delims());
                    let rest = val_t.skip(scan_len(val_t, quote_delims()));
                    if rest.len() > 0 && rest[0] == q {
                        lemma_attrs_len(rest.skip(1));
                    }
                }
            }
        }
    }
}

/// The whole document, read as a run of text, skipped constructs
/// (`<!...>`, `<?...>`, `</...>`) and open tags with attributes: the
/// segments of every `d` attribute in document order, and whether the
/// markup was well shaped.
pub open spec fn spec_elements(s: Seq<u8>) -> (Seq<Segment>, Result<(), SvgError>)
    decreases s.len(),
{
    let t = s.skip(scan_len(s, seq![60u8]));
    if t.len() == 0 {
        (Seq::<Segment>::empty(), Ok(()))
    } else {
        proof {
            crate::lexer::lemma_scan_len(s, seq![60u8]);
        }
        let v = t.skip(1);
        if v.len() > 0 && (v[0] == 33 || v[0] == 63) {
            let w = v.skip(1);
            let w2 = w.skip(scan_len(w, seq![62u8]));
            if w2.len() == 0 {
                (Seq::<Segment>::empty(), Err(SvgError::Markup))
            } else {
                proof {
                    crate::lexer::lemma_scan_len(w, seq![62u8]);
                }
                spec_elements(w2.skip(1))
            }
        } else if v.len() > 0 && v[0] == 47 {
            let w = v.skip(1);
            let w2 = w.skip(scan_len(w, seq![62u8]));
            if w2.len() == 0 {
                (Seq::<Segment>::empty(), Err(SvgError::Markup))
            } else {
                proof {
                    crate::lexer::lemma_scan_len(w, seq![62u8]);
                }
                spec_elements(w2.skip(1))
            }
        } else {
            let v1 = v.skip(space_len(v));
            let v2 = v1.skip(scan_len(v1, name_delims()));
            let (segs, ar) = spec_attrs(v2);
            match ar {
                Ok(rest) => {
                    proof {
                        crate::lexer::lemma_space_len(v);
                        crate::lexer::lemma_scan_len(v1, name_delims());
                        lemma_attrs_len(v2);
                    }
                    let (segs2, r2) = spec_elements(rest);
                    (segs + segs2, r2)
                },
                Err(e) => (segs, Err(e)),
            }
        }
    }
}

/// Whether `b` is a recognized command letter.
fn cmd_letter_byte(b: u8) -> (r: bool)
    ensures
        r == is_cmd_letter(b),
{
    b == 77 || b == 109 || b == 90 || b == 122 || b == 76 || b == 108 || b == 72 || b == 104 || b
        == 86 || b == 118 || b == 67 || b == 99 || b == 83 || b == 115 || b == 81 || b == 113 || b
        == 84 || b == 116 || b == 65 || b == 97
}

/// Fold a command letter to upper case.
fn fold_byte(b: u8) -> (r: u8)
    ensures
        r == fold_letter(b),
{
    if 97 <= b && b <= 122 {
        b - 32
    } else {
        b
    }
}

/// The command a bare argument group repeats.
fn next_cmd_byte(b: u8) -> (r: u8)
    ensures
        r == next_cmd(b),
{
    if b == 77 {
        76
    } else if b == 109 {
        108
    } else {
        b
    }
}

/// Read one numeric argument or fail.
fn want_number(lx: &mut Lexer) -> (r: Result<Number, SvgError>)
    requires
        old(lx).wf(),
    ensures
        final(lx).wf(),
        ({
            let res = spec_next_number(old(lx).remaining());
            match r {
                Ok(n) => res matches Some(p) && p.0 == n && final(lx).remaining() == p.1,
                Err(e) => res is None && e == SvgError::MalformedNumber,
            }
        }),
{
    match lx.next_number() {
        Some(n) => Ok(n),
        None => Err(SvgError::MalformedNumber),
    }
}

/// Read the arguments of a moveto command and append its segment.
fn read_args_moveto(lx: &mut Lexer, path: &mut Path, Ghost(c): Ghost<u8>) -> (r: Result<
    (),
    SvgError,
>)
    requires
        old(lx).wf(),
        is_cmd_letter(c),
        fold_letter(c) == 77,
    ensures
        final(lx).wf(),
        ({
            let res = spec_args(old(lx).remaining(), c);
            match r {
                Ok(()) => res matches Some(p) && final(path)@ == old(path)@.push(p.0)
                    && final(lx).remaining() == p.1,
                Err(e) => res is None && e == SvgError::MalformedNumber
                    && final(path)@ == old(path)@,
            }
        }),
{
    proof {
        reveal_with_fuel(spec_numbers, 3);
    }
    let n0 = match want_number(lx) {
        Ok(n) => n,
        Err(e) => {
            return Err(e);
        },
    };
    let n1 = match want_number(lx) {
        Ok(n) => n,
        Err(e) => {
            return Err(e);
        },
    };
    path.push(Segment::MoveTo { x: n0, y: n1 });
    Ok(())
}

/// Read the arguments of a lineto command and append its segment.
fn read_args_lineto(lx: &mut Lexer, path: &mut Path, Ghost(c): Ghost<u8>) -> (r: Result<
    (),
    SvgError,
>)
    requires
        old(lx).wf(),
        is_cmd_letter(c),
        fold_letter(c) == 76,
    ensures
        final(lx).wf(),
        ({
            let res = spec_args(old(lx).remaining(), c);
            match r {
                Ok(()) => res matches Some(p) && final(path)@ == old(path)@.push(p.0)
                    && final(lx).remaining() == p.1,
                Err(e) => res is None && e == SvgError::MalformedNumber
                    && final(path)@ == old(path)@,
            }
        }),
{
    proof {
        reveal_with_fuel(spec_numbers, 3);
    }
    let n0 = match want_number(lx) {
        Ok(n) => n,
        Err(e) => {
            return Err(e);
        },
    };
    let n1 = match want_number(lx) {
        Ok(n) => n,
        Err(e) => {
            return Err(e);
        },
    };
    path.push(Segment::LineTo { x: Some(n0), y: Some(n1) });
    Ok(())
}

/// Read the arguments of a horz command and append its segment.
fn read_args_horz(lx: &mut Lexer, path: &mut Path, Ghost(c): Ghost<u8>) -> (r: Result<
    (),
    SvgError,
>)
    requires
        old(lx).wf(),
        is_cmd_letter(c),
        fold_letter(c) == 72,
    ensures
        final(lx).wf(),
        ({
            let res = spec_args(old(lx).remaining(), c);
            match r {
                Ok(()) => res matches Some(p) && final(path)@ == old(path)@.push(p.0)
                    && final(lx).remaining() == p.1,
                Err(e) => res is None && e == SvgError::MalformedNumber
                    && final(path)@ == old(path)@,
            }
        }),
{
    proof {
        reveal_with_fuel(spec_numbers, 2);
    }
    let n0 = match want_number(lx) {
        Ok(n) => n,
        Err(e) => {
            return Err(e);
        },
    };
    path.push(Segment::LineTo { x: Some(n0), y: None });
    Ok(())
}

/// Read the arguments of a vert command and append its segment.
fn read_args_vert(lx: &mut Lexer, path: &mut Path, Ghost(c): Ghost<u8>) -> (r: Result<
    (),
    SvgError,
>)
    requires
        old(lx).wf(),
        is_cmd_letter(c),
        fold_letter(c) == 86,
    ensures
        final(lx).wf(),
        ({
            let res = spec_args(old(lx).remaining(), c);
            match r {
                Ok(()) => res matches Some(p) && final(path)@ == old(path)@.push(p.0)
                    && final(lx).remaining() == p.1,
                Err(e) => res is None && e == SvgError::MalformedNumber
                    && final(path)@ == old(path)@,
            }
        }),
{
    proof {
        reveal_with_fuel(spec_numbers, 2);
    }
    let n0 = match want_number(lx) {
        Ok(n) => n,
        Err(e) => {
            return Err(e);
        },
    };
    path.push(Segment::LineTo { x: None, y: Some(n0) });
    Ok(())
}

/// Read the arguments of a curveto command and append its segment.
fn read_args_curveto(lx: &mut Lexer, path: &mut Path, Ghost(c): Ghost<u8>) -> (r: Result<
    (),
    SvgError,
>)
    requires
        old(lx).wf(),
        is_cmd_letter(c),
        fold_letter(c) == 67,
    ensures
        final(lx).wf(),
        ({
            let res = spec_args(old(lx).remaining(), c);
            match r {
                Ok(()) => res matches Some(p) && final(path)@ == old(path)@.push(p.0)
                    && final(lx).remaining() == p.1,
                Err(e) => res is None && e == SvgError::MalformedNumber
                    && final(path)@ == old(path)@,
            }
        }),
{
    proof {
        reveal_with_fuel(spec_numbers, 7);
    }
    let n0 = match want_number(lx) {
        Ok(n) => n,
        Err(e) => {
            return Err(e);
        },
    };
    let n1 = match want_number(lx) {
        Ok(n) => n,
        Err(e) => {
            return Err(e);
        },
    };
    let n2 = match want_number(lx) {
        Ok(n) => n,
        Err(e) => {
            return Err(e);
        },
    };
    let n3 = match want_number(lx) {
        Ok(n) => n,
        Err(e) => {
            return Err(e);
        },
    };
    let n4 = match want_number(lx) {
        Ok(n) => n,
        Err(e) => {
            return Err(e);
        },
    };
    let n5 = match want_number(lx) {
        Ok(n) => n,
        Err(e) => {
            return Err(e);
        },
    };
    path.push(Segment::CurveTo {
            c1x: Some(n0),
            c1y: Some(n1),
            c2x: n2,
            c2y: n3,
            x: n4,
            y: n5,
        });
    Ok(())
}

/// Read the arguments of a smooth_curveto command and append its segment.
fn read_args_smooth_curveto(lx: &mut Lexer, path: &mut Path, Ghost(c): Ghost<u8>) -> (r: Result<
    (),
    SvgError,
>)
    requires
        old(lx).wf(),
        is_cmd_letter(c),
        fold_letter(c) == 83,
    ensures
        final(lx).wf(),
        ({
            let res = spec_args(old(lx).remaining(), c);
            match r {
                Ok(()) => res matches Some(p) && final(path)@ == old(path)@.push(p.0)
                    && final(lx).remaining() == p.1,
                Err(e) => res is None && e == SvgError::MalformedNumber
                    && final(path)@ == old(path)@,
            }
        }),
{
    proof {
        reveal_with_fuel(spec_numbers, 5);
    }
    let n0 = match want_number(lx) {
        Ok(n) => n,
        Err(e) => {
            return Err(e);
        },
    };
    let n1 = match want_number(lx) {
        Ok(n) => n,
        Err(e) => {
            return Err(e);
        },
    };
    let n2 = match want_number(lx) {
        Ok(n) => n,
        Err(e) => {
            return Err(e);
        },
    };
    let n3 = match want_number(lx) {
        Ok(n) => n,
        Err(e) => {
            return Err(e);
        },
    };
    path.push(Segment::CurveTo { c1x: None, c1y: None, c2x: n0, c2y: n1, x: n2, y: n3 });
    Ok(())
}

/// Read the arguments of a quadto command and append its segment.
fn read_args_quadto(lx: &mut Lexer, path: &mut Path, Ghost(c): Ghost<u8>) -> (r: Result<
    (),
    SvgError,
>)
    requires
        old(lx).wf(),
        is_cmd_letter(c),
        fold_letter(c) == 81,
    ensures
        final(lx).wf(),
        ({
            let res = spec_args(old(lx).remaining(), c);
            match r {
                Ok(()) => res matches Some(p) && final(path)@ == old(path)@.push(p.0)
                    && final(lx).remaining() == p.1,
                Err(e) => res is None && e == SvgError::MalformedNumber
                    && final(path)@ == old(path)@,
            }
        }),
{
    proof {
        reveal_with_fuel(spec_numbers, 5);
    }
    let n0 = match want_number(lx) {
        Ok(n) => n,
        Err(e) => {
            return Err(e);
        },
    };
    let n1 = match want_number(lx) {
        Ok(n) => n,
        Err(e) => {
            return Err(e);
        },
    };
    let n2 = match want_number(lx) {
        Ok(n) => n,
        Err(e) => {
            return Err(e);
        },
    };
    let n3 = match want_number(lx) {
        Ok(n) => n,
        Err(e) => {
            return Err(e);
        },
    };
    path.push(Segment::QuadTo { cx: Some(n0), cy: Some(n1), x: n2, y: n3 });
    Ok(())
}

/// Read the arguments of a smooth_quadto command and append its segment.
fn read_args_smooth_quadto(lx: &mut Lexer, path: &mut Path, Ghost(c): Ghost<u8>) -> (r: Result<
    (),
    SvgError,
>)
    requires
        old(lx).wf(),
        is_cmd_letter(c),
        fold_letter(c) == 84,
    ensures
        final(lx).wf(),
        ({
            let res = spec_args(old(lx).remaining(), c);
            match r {
                Ok(()) => res matches Some(p) && final(path)@ == old(path)@.push(p.0)
                    && final(lx).remaining() == p.1,
                Err(e) => res is None && e == SvgError::MalformedNumber
                    && final(path)@ == old(path)@,
            }
        }),
{
    proof {
        reveal_with_fuel(spec_numbers, 3);
    }
    let n0 = match want_number(lx) {
        Ok(n) => n,
        Err(e) => {
            return Err(e);
        },
    };
    let n1 = match want_number(lx) {
        Ok(n) => n,
        Err(e) => {
            return Err(e);
        },
    };
    path.push(Segment::QuadTo { cx: None, cy: None, x: n0, y: n1 });
    Ok(())
}

/// Read the arguments of a arcto command and append its segment.
fn read_args_arcto(lx: &mut Lexer, path: &mut Path, Ghost(c): Ghost<u8>) -> (r: Result<
    (),
    SvgError,
>)
    requires
        old(lx).wf(),
        is_cmd_letter(c),
        fold_letter(c) == 65,
    ensures
        final(lx).wf(),
        ({
            let res = spec_args(old(lx).remaining(), c);
            match r {
                Ok(()) => res matches Some(p) && final(path)@ == old(path)@.push(p.0)
                    && final(lx).remaining() == p.1,
                Err(e) => res is None && e == SvgError::MalformedNumber
                    && final(path)@ == old(path)@,
            }
        }),
{
    proof {
        reveal_with_fuel(spec_numbers, 8);
    }
    let n0 = match want_number(lx) {
        Ok(n) => n,
        Err(e) => {
            return Err(e);
        },
    };
    let n1 = match want_number(lx) {
        Ok(n) => n,
        Err(e) => {
            return Err(e);
        },
    };
    let n2 = match want_number(lx) {
        Ok(n) => n,
        Err(e) => {
            return Err(e);
        },
    };
    let n3 = match want_number(lx) {
        Ok(n) => n,
        Err(e) => {
            return Err(e);
        },
    };
    let n4 = match want_number(lx) {
        Ok(n) => n,
        Err(e) => {
            return Err(e);
        },
    };
    let n5 = match want_number(lx) {
        Ok(n) => n,
        Err(e) => {
            return Err(e);
        },
    };
    let n6 = match want_number(lx) {
        Ok(n) => n,
        Err(e) => {
            return Err(e);
        },
    };
    path.push(Segment::ArcTo {
            rx: n0,
            ry: n1,
            rot: n2,
            large: n3,
            sweep: n4,
            x: n5,
            y: n6,
        });
    Ok(())
}

/// Read the arguments of command `c` and append its one segment.
fn read_args(lx: &mut Lexer, path: &mut Path, c: u8) -> (r: Result<(), SvgError>)
    requires
        old(lx).wf(),
        is_cmd_letter(c),
    ensures
        final(lx).wf(),
        ({
            let res = spec_args(old(lx).remaining(), c);
            match r {
                Ok(()) => res matches Some(p) && final(path)@ == old(path)@.push(p.0)
                    && final(lx).remaining() == p.1,
                Err(e) => res is None && e == SvgError::MalformedNumber
                    && final(path)@ == old(path)@,
            }
        }),
{
    let f = fold_byte(c);
    if f == 77 {
        read_args_moveto(lx, path, Ghost(c))
    } else if f == 76 {
        read_args_lineto(lx, path, Ghost(c))
    } else if f == 72 {
        read_args_horz(lx, path, Ghost(c))
    } else if f == 86 {
        read_args_vert(lx, path, Ghost(c))
    } else if f == 67 {
        read_args_curveto(lx, path, Ghost(c))
    } else if f == 83 {
        read_args_smooth_curveto(lx, path, Ghost(c))
    } else if f == 81 {
        read_args_quadto(lx, path, Ghost(c))
    } else if f == 84 {
        read_args_smooth_quadto(lx, path, Ghost(c))
    } else if f == 65 {
        read_args_arcto(lx, path, Ghost(c))
    } else {
        assert(f == 90);
        path.push(Segment::ClosePath);
        Ok(())
    }
}

/// Decode path data until a quote or the end of input, appending each
/// decoded segment to `path`; `cmd` is the current command letter.
#[verifier::rlimit(100)]
#[verifier::spinoff_prover]
fn parse_d_rec(lx: &mut Lexer, path: &mut Path, cmd: u8) -> (r: Result<(), SvgError>)
    requires
        old(lx).wf(),
        is_cmd_letter(cmd),
    ensures
        final(lx).wf(),
        final(path)@ == old(path)@ + spec_path(old(lx).remaining(), cmd).0,
        match r {
            Ok(()) => spec_path(old(lx).remaining(), cmd).1 == Ok::<Seq<u8>, SvgError>(
                final(lx).remaining(),
            ),
            Err(e) => spec_path(old(lx).remaining(), cmd).1 == Err::<Seq<u8>, SvgError>(e),
        },
    decreases old(lx).remaining().len(),
{
    let ghost s = lx.remaining();
    let ghost p0 = path@;
    proof {
        crate::lexer::lemma_space_len(s);
    }
    lx.skip();
    let ghost t = lx.remaining();
    let e = lx.eof();
    if e {
        proof {
            assert(p0 + spec_path(s, cmd).0 =~= p0);
        }
        return Ok(());
    }
    let b = lx.peek();
    if b == 39 || b == 34 {
        proof {
            assert(p0 + spec_path(s, cmd).0 =~= p0);
        }
        return Ok(());
    }
    if cmd_letter_byte(b) {
        let c = lx.getc();
        match read_args(lx, path, c) {
            Err(er) => {
                proof {
                    assert(p0 + spec_path(s, cmd).0 =~= p0);
                }
                Err(er)
            },
            Ok(()) => {
                proof {
                    lemma_numbers_len(t.skip(1), arity(fold_letter(c)));
                    assert(lx.remaining().len() < s.len());
                }
                let r2 = parse_d_rec(lx, path, next_cmd_byte(c));
                proof {
                    let seg = spec_args(t.skip(1), c)->Some_0.0;
                    let tail = spec_path(spec_args(t.skip(1), c)->Some_0.1, next_cmd(c)).0;
                    assert(p0.push(seg) + tail =~= p0 + (seq![seg] + tail));
                }
                r2
            },
        }
    } else if fold_byte(cmd) == 90 {
        proof {
            assert(p0 + spec_path(s, cmd).0 =~= p0);
        }
        Err(SvgError::NumberAfterClose)
    } else {
        match read_args(lx, path, cmd) {
            Err(er) => {
                proof {
                    assert(p0 + spec_path(s, cmd).0 =~= p0);
                }
                Err(er)
            },
            Ok(()) => {
                proof {
                    assert(arity(fold_letter(cmd)) >= 1);
                    lemma_numbers_len(t, arity(fold_letter(cmd)));
                    assert(lx.remaining().len() < s.len());
                }
                let r2 = parse_d_rec(lx, path, next_cmd_byte(cmd));
                proof {
                    let seg = spec_args(t, cmd)->Some_0.0;
                    let tail = spec_path(spec_args(t, cmd)->Some_0.1, next_cmd(cmd)).0;
                    assert(p0.push(seg) + tail =~= p0 + (seq![seg] + tail));
                }
                r2
            },
        }
    }
}

/// Decode one path-data value: the tokenizer stands just after the
/// opening quote, and decoding stops before the closing quote or at the
/// end of input. Decoded segments are appended to `path` in order; on
/// failure the segments decoded before the malformed token remain, and
/// nothing is appended for that token.
pub fn parse_d(lx: &mut Lexer, path: &mut Path) -> (r: Result<(), SvgError>)
    requires
        old(lx).wf(),
    ensures
        final(lx).wf(),
        final(path)@ == old(path)@ + spec_path(old(lx).remaining(), 77).0,
        match r {
            Ok(()) => spec_path(old(lx).remaining(), 77).1 == Ok::<Seq<u8>, SvgError>(
                final(lx).remaining(),
            ),
            Err(e) => spec_path(old(lx).remaining(), 77).1 == Err::<Seq<u8>, SvgError>(e),
        },
{
    parse_d_rec(lx, path, 77)
}

/// The byte `<`, for `until`.
fn lt_bytes() -> (r: Vec<u8>)
    ensures
        r@ == seq![60u8],
{
    let mut v: Vec<u8> = Vec::new();
    v.push(60);
    proof {
        assert(v@ =~= seq![60u8]);
    }
    v
}

/// The byte `>`, for `until`.
fn gt_bytes() -> (r: Vec<u8>)
    ensures
        r@ == seq![62u8],
{
    let mut v: Vec<u8> = Vec::new();
    v.push(62);
    proof {
        assert(v@ =~= seq![62u8]);
    }
    v
}

/// The tag-name delimiters, for `next`.
fn name_bytes() -> (r: Vec<u8>)
    ensures
        r@ == name_delims(),
{
    let mut v: Vec<u8> = Vec::new();
    v.push(32);
    v.push(9);
    v.push(13);
    v.push(10);
    v.push(0);
    v.push(62);
    proof {
        assert(v@ =~= name_delims());
    }
    v
}

/// The attribute-name delimiters, for `next`.
fn attr_bytes() -> (r: Vec<u8>)
    ensures
        r@ == attr_delims(),
{
    let mut v: Vec<u8> = Vec::new();
    v.push(32);
    v.push(9);
    v.push(13);
    v.push(10);
    v.push(0);
    v.push(61);
    proof {
        assert(v@ =~= attr_delims());
    }
    v
}

/// The two quotes, for `next`.
fn quote_bytes() -> (r: Vec<u8>)
    ensures
        r@ == quote_delims(),
{
    let mut v: Vec<u8> = Vec::new();
    v.push(39);
    v.push(34);
    proof {
        assert(v@ =~= quote_delims());
    }
    v
}

/// Read one tag's `name="value"` attribute pairs up to the closing `>`
/// (or `/...>`), decoding every `d` attribute into `path`.
#[verifier::rlimit(100)]
#[verifier::spinoff_prover]
fn parse_attrs(lx: &mut Lexer, path: &mut Path) -> (r: Result<(), SvgError>)
    requires
        old(lx).wf(),
    ensures
        final(lx).wf(),
        final(path)@ == old(path)@ + spec_attrs(old(lx).remaining()).0,
        match r {
            Ok(()) => spec_attrs(old(lx).remaining()).1 == Ok::<Seq<u8>, SvgError>(
                final(lx).remaining(),
            ),
            Err(e) => spec_attrs(old(lx).remaining()).1 == Err::<Seq<u8>, SvgError>(e),
        },
    decreases old(lx).remaining().len(),
{
    let ghost s = lx.remaining();
    let ghost p0 = path@;
    proof {
        crate::lexer::lemma_space_len(s);
    }
    lx.skip();
    let ghost t = lx.remaining();
    let e = lx.eof();
    if e {
        proof {
            assert(p0 + spec_attrs(s).0 =~= p0);
        }
        return Err(SvgError::Markup);
    }
    let b = lx.peek();
    if b == 62 {
        let _g = lx.getc();
        proof {
            assert(p0 + spec_attrs(s).0 =~= p0);
        }
        return Ok(());
    }
    if b == 47 {
        let _g = lx.getc();
        let ghost u = lx.remaining();
        let dgt = gt_bytes();
        proof {
            crate::lexer::lemma_scan_len(u, seq![62u8]);
        }
        lx.until(dgt.as_slice());
        let ghost u2 = lx.remaining();
        let okg = lx.consume(62);
        proof {
            assert(seq![62u8][0] == 62);
            assert(u2.len() > 0 ==> u2[0] == 62);
            assert(okg == (u2.len() > 0));
            assert(p0 + spec_attrs(s).0 =~= p0);
        }
        if !okg {
            return Err(SvgError::Markup);
        }
        return Ok(());
    }
    // An attribute pair: name, `=`, quoted value.
    let dattr = attr_bytes();
    proof {
        assert(t.skip(0) =~= t);
        crate::lexer::lemma_scan_len(t, attr_delims());
    }
    let name = lx.next(dattr.as_slice());
    let ghost t2 = lx.remaining();
    let is_d = name.len() == 1 && name[0] == 100;
    proof {
        if is_d {
            assert(name@ =~= seq![100u8]);
        } else if name@ == seq![100u8] {
            assert(name@.len() == 1);
            assert(name@[0] == 100);
            assert(false);
        }
        crate::lexer::lemma_space_len(t2);
    }
    lx.skip();
    let ghost t3 = lx.remaining();
    let got_eq = lx.consume(61);
    if !got_eq {
        proof {
            assert(p0 + spec_attrs(s).0 =~= p0);
        }
        return Err(SvgError::Markup);
    }
    let ghost t4 = lx.remaining();
    proof {
        crate::lexer::lemma_space_len(t4);
    }
    lx.skip();
    let ghost t5 = lx.remaining();
    let e2 = lx.eof();
    if e2 {
        proof {
            assert(p0 + spec_attrs(s).0 =~= p0);
        }
        return Err(SvgError::Markup);
    }
    let q = lx.getc();
    if !(q == 39 || q == 34) {
        proof {
            assert(p0 + spec_attrs(s).0 =~= p0);
        }
        return Err(SvgError::Markup);
    }
    let ghost t6 = lx.remaining();
    if is_d {
        match parse_d(lx, path) {
            Err(er) => {
                proof {
                    assert(spec_attrs(s).0 == spec_path(t6, 77).0);
                }
                Err(er)
            },
            Ok(()) => {
                let ghost rest = lx.remaining();
                let okq = lx.consume(q);
                if !okq {
                    proof {
                        assert(spec_path(t6, 77).1 == Ok::<Seq<u8>, SvgError>(rest));
                        assert(!(rest.len() > 0 && rest[0] == q));
                        assert(spec_attrs(s).0 == spec_path(t6, 77).0);
                        assert(spec_attrs(s).1 == Err::<Seq<u8>, SvgError>(SvgError::Markup));
                    }
                    return Err(SvgError::Markup);
                }
                proof {
                    lemma_path_len(t6, 77);
                    assert(lx.remaining().len() < s.len());
                }
                let r2 = parse_attrs(lx, path);
                proof {
                    let a = spec_path(t6, 77).0;
                    let b2 = spec_attrs(rest.skip(1)).0;
                    assert((p0 + a) + b2 =~= p0 + (a + b2));
                }
                r2
            },
        }
    } else {
        let dq = quote_bytes();
        proof {
            crate::lexer::lemma_space_len(t6);
            crate::lexer::lemma_scan_len(
                t6.skip(space_len(t6)),
                quote_delims(),
            );
        }
        let _val = lx.next(dq.as_slice());
        let ghost rest = lx.remaining();
        let okq = lx.consume(q);
        if !okq {
            proof {
                assert(p0 + spec_attrs(s).0 =~= p0);
            }
            return Err(SvgError::Markup);
        }
        proof {
            assert(lx.remaining().len() < s.len());
        }
        let r2 = parse_attrs(lx, path);
        proof {
            assert(spec_attrs(s).0 == spec_attrs(rest.skip(1)).0);
        }
        r2
    }
}

/// Walk the document: text runs, skipped constructs, and open tags
/// whose attributes are read by `parse_attrs`, to the end of input.
#[verifier::rlimit(100)]
#[verifier::spinoff_prover]
fn parse_elements(lx: &mut Lexer, path: &mut Path) -> (r: Result<(), SvgError>)
    requires
        old(lx).wf(),
    ensures
        final(lx).wf(),
        final(path)@ == old(path)@ + spec_elements(old(lx).remaining()).0,
        match r {
            Ok(()) => spec_elements(old(lx).remaining()).1 == Ok::<(), SvgError>(()),
            Err(e) => spec_elements(old(lx).remaining()).1 == Err::<(), SvgError>(e),
        },
    decreases old(lx).remaining().len(),
{
    let ghost s = lx.remaining();
    let ghost p0 = path@;
    let dlt = lt_bytes();
    proof {
        crate::lexer::lemma_scan_len(s, seq![60u8]);
    }
    lx.until(dlt.as_slice());
    let ghost t = lx.remaining();
    let e = lx.eof();
    if e {
        proof {
            assert(p0 + spec_elements(s).0 =~= p0);
        }
        return Ok(());
    }
    let _lt = lx.getc();
    let ghost v = lx.remaining();
    let bang = lx.consume(33);
    let quest = if bang {
        false
    } else {
        lx.consume(63)
    };
    if bang || quest {
        let ghost w = lx.remaining();
        let dgt = gt_bytes();
        proof {
            crate::lexer::lemma_scan_len(w, seq![62u8]);
        }
        lx.until(dgt.as_slice());
        let ghost w2 = lx.remaining();
        let okg = lx.consume(62);
        proof {
            assert(seq![62u8][0] == 62);
            assert(w2.len() > 0 ==> w2[0] == 62);
            assert(okg == (w2.len() > 0));
        }
        if !okg {
            proof {
                assert(p0 + spec_elements(s).0 =~= p0);
            }
            return Err(SvgError::Markup);
        }
        proof {
            assert(lx.remaining() == w2.skip(1));
            assert(lx.remaining().len() < s.len());
        }
        let r2 = parse_elements(lx, path);
        return r2;
    }
    let slash = lx.consume(47);
    if slash {
        let ghost w = lx.remaining();
        let dgt = gt_bytes();
        proof {
            crate::lexer::lemma_scan_len(w, seq![62u8]);
        }
        lx.until(dgt.as_slice());
        let ghost w2 = lx.remaining();
        let okg = lx.consume(62);
        proof {
            assert(seq![62u8][0] == 62);
            assert(w2.len() > 0 ==> w2[0] == 62);
            assert(okg == (w2.len() > 0));
        }
        if !okg {
            proof {
                assert(p0 + spec_elements(s).0 =~= p0);
            }
            return Err(SvgError::Markup);
        }
        proof {
            assert(lx.remaining() == w2.skip(1));
            assert(lx.remaining().len() < s.len());
        }
        let r2 = parse_elements(lx, path);
        return r2;
    }
    // An open tag: name, then attributes, then the rest of the document.
    let dn = name_bytes();
    proof {
        crate::lexer::lemma_space_len(v);
        crate::lexer::lemma_scan_len(v.skip(space_len(v)), name_delims());
    }
    let _name = lx.next(dn.as_slice());
    let ghost v2 = lx.remaining();
    match parse_attrs(lx, path) {
        Err(er) => {
            proof {
                assert(spec_elements(s).0 == spec_attrs(v2).0);
            }
            Err(er)
        },
        Ok(()) => {
            let ghost rest = lx.remaining();
            proof {
                lemma_attrs_len(v2);
                assert(lx.remaining().len() < s.len());
            }
            let r2 = parse_elements(lx, path);
            proof {
                let a = spec_attrs(v2).0;
                let b2 = spec_elements(rest).0;
                assert((p0 + a) + b2 =~= p0 + (a + b2));
            }
            r2
        },
    }
}

/// Decode a whole document: the segments of every `d` attribute, in
/// document order. The result is a function of the document bytes
/// alone — `chunk` only sets how many bytes each buffer refill takes
/// from the source, so feeding the input byte by byte or page by page
/// decodes the same segments.
pub fn parse(data: Vec<u8>, chunk: usize) -> (r: Result<Path, SvgError>)
    ensures
        ({
            let res = spec_elements(data@);
            match r {
                Ok(p) => res.1 == Ok::<(), SvgError>(()) && p@ == res.0,
                Err(e) => res.1 == Err::<(), SvgError>(e),
            }
        }),
{
    let mut lx = Lexer::new(data, chunk);
    let mut path: Path = Vec::new();
    match parse_elements(&mut lx, &mut path) {
        Ok(()) => {
            proof {
                assert(Seq::<Segment>::empty() + spec_elements(data@).0 =~= spec_elements(
                    data@,
                ).0);
            }
            Ok(path)
        },
        Err(e) => Err(e),
    }
}

} // verus!
