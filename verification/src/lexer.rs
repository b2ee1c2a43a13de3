//! The byte tokenizer.
//!
//! `Lexer` owns a window `buf[mark..limit]` over a byte source and three
//! cursors: `mark` (start of the token being scanned), `pos` (read
//! position), `limit` (end of buffered bytes). When the unread part of
//! the window empties, the bytes in `[mark, limit)` are compacted to the
//! front — a token may straddle two refills — and up to `chunk` more
//! bytes are taken from the source. End of input is reported only when a
//! refill yields nothing while `pos == limit`.
//!
//! Every operation is specified over the view `remaining()`, the bytes
//! not yet read, so whatever a caller decodes is a function of the
//! source bytes alone, never of the refill granularity.

use crate::number::{parse_decimal, spec_parse_decimal, Number};
use vstd::prelude::*;

verus! {

/// Tokenizer whitespace: space, tab, carriage return, newline, NUL.
pub open spec fn is_space(b: u8) -> bool {
    b == 32 || b == 9 || b == 13 || b == 10 || b == 0
}

/// Length of the longest whitespace prefix of `s`.
pub open spec fn space_len(s: Seq<u8>) -> int
    decreases s.len(),
{
    if s.len() > 0 && is_space(s[0]) {
        1 + space_len(s.skip(1))
    } else {
        0
    }
}

/// Length of the longest prefix of `s` free of the bytes in `delims`.
pub open spec fn scan_len(s: Seq<u8>, delims: Seq<u8>) -> int
    decreases s.len(),
{
    if s.len() > 0 && !delims.contains(s[0]) {
        1 + scan_len(s.skip(1), delims)
    } else {
        0
    }
}

/// `space_len` is a well-placed cut: no longer than the input, and
/// nothing but whitespace is left before the cut.
pub proof fn lemma_space_len(s: Seq<u8>)
    ensures
        0 <= space_len(s) <= s.len(),
        space_len(s.skip(space_len(s))) == 0,
    decreases s.len(),
{
    if s.len() > 0 && is_space(s[0]) {
        lemma_space_len(s.skip(1));
        assert(s.skip(space_len(s)) =~= s.skip(1).skip(space_len(s.skip(1))));
    } else {
        assert(s.skip(0) =~= s);
    }
}

/// `scan_len` is a cut no longer than the input, and it stops exactly
/// at a delimiter when one is left.
pub proof fn lemma_scan_len(s: Seq<u8>, delims: Seq<u8>)
    ensures
        0 <= scan_len(s, delims) <= s.len(),
        scan_len(s, delims) < s.len() ==> delims.contains(s[scan_len(s, delims)]),
    decreases s.len(),
{
    if s.len() > 0 && !delims.contains(s[0]) {
        lemma_scan_len(s.skip(1), delims);
        if scan_len(s.skip(1), delims) < s.skip(1).len() {
            assert(s.skip(1)[scan_len(s.skip(1), delims)] == s[scan_len(s, delims)]);
        }
    }
}

/// Whether `b` is tokenizer whitespace.
fn byte_is_space(b: u8) -> (r: bool)
    ensures
        r == is_space(b),
{
    b == 32 || b == 9 || b == 13 || b == 10 || b == 0
}

/// Whether the slice holds `b`.
fn slice_contains(s: &[u8], b: u8) -> (r: bool)
    ensures
        r == s@.contains(b),
{
    let mut i: usize = 0;
    while i < s.len()
        invariant
            0 <= i <= s@.len(),
            forall|j: int| 0 <= j < i ==> #[trigger] s@[j] != b,
        decreases s@.len() - i,
    {
        if s[i] == b {
            return true;
        }
        i += 1;
    }
    false
}

/// The streaming tokenizer: a compacted window over a byte source that
/// is consumed `chunk` bytes at a time.
pub struct Lexer {
    src: Vec<u8>,
    src_pos: usize,
    chunk: usize,
    buf: Vec<u8>,
    mark: usize,
    pos: usize,
    limit: usize,
}

impl Lexer {
    /// The bytes not yet read: the unread window, then what the source
    /// has not yet produced.
    pub closed spec fn remaining(self) -> Seq<u8> {
        self.buf@.subrange(self.pos as int, self.limit as int) + self.src@.skip(
            self.src_pos as int,
        )
    }

    /// The bytes of the token currently marked in the window.
    pub closed spec fn marked(self) -> Seq<u8> {
        self.buf@.subrange(self.mark as int, self.pos as int)
    }

    /// An unread byte stands in the window, so `peek` may be called.
    pub closed spec fn buffered(self) -> bool {
        self.pos < self.limit
    }

    /// The cursors stand in order inside the buffer and the source.
    pub closed spec fn wf(self) -> bool {
        self.mark <= self.pos <= self.limit == self.buf@.len() && self.src_pos <= self.src@.len()
            && self.chunk >= 1
    }

    /// A tokenizer over `src`, refilled `chunk` bytes at a time (a zero
    /// chunk is read as one).
    pub fn new(src: Vec<u8>, chunk: usize) -> (r: Lexer)
        ensures
            r.wf(),
            r.remaining() == src@,
            r.marked() == Seq::<u8>::empty(),
    {
        let c: usize = if chunk == 0 {
            1
        } else {
            chunk
        };
        let r = Lexer { src, src_pos: 0, chunk: c, buf: Vec::new(), mark: 0, pos: 0, limit: 0 };
        proof {
            assert(r.remaining() =~= r.src@);
            assert(r.marked() =~= Seq::<u8>::empty());
        }
        r
    }

    /// True iff no further byte can be obtained. When the window is
    /// empty this compacts `[mark, limit)` to the front and refills once
    /// from the source; the unread view and the marked token are kept.
    /// Idempotent at the end of input.
    pub fn eof(&mut self) -> (r: bool)
        requires
            old(self).wf(),
        ensures
            final(self).wf(),
            r == (old(self).remaining().len() == 0),
            final(self).remaining() == old(self).remaining(),
            final(self).marked() == old(self).marked(),
            !r ==> final(self).buffered(),
    {
        if self.pos < self.limit {
            proof {
                assert(self.remaining().len() > 0);
            }
            return false;
        }
        let ghost pre = *self;
        // Compact: shift the marked window to the front of the buffer.
        let w = self.limit - self.mark;
        let mut i = self.mark;
        while i < self.limit
            invariant
                pre.wf(),
                pre.pos == pre.limit,
                pre.mark <= i <= pre.limit,
                self.mark == pre.mark && self.pos == pre.pos && self.limit == pre.limit,
                self.src == pre.src && self.src_pos == pre.src_pos && self.chunk == pre.chunk,
                self.buf@.len() == pre.buf@.len(),
                forall|j: int| 0 <= j < i - pre.mark ==> self.buf@[j] == pre.buf@[pre.mark + j],
                forall|j: int| i <= j < pre.buf@.len() ==> self.buf@[j] == pre.buf@[j],
            decreases pre.limit - i,
        {
            let b = self.buf[i];
            let t = i - self.mark;
            self.buf[t] = b;
            i += 1;
        }
        self.mark = 0;
        self.pos = w;
        self.buf.truncate(w);
        self.limit = w;
        proof {
            assert(self.buf@ =~= pre.buf@.subrange(pre.mark as int, pre.limit as int));
            assert(self.marked() =~= pre.marked());
        }
        let ghost mid = *self;
        // Refill: take up to `chunk` bytes from the source.
        let avail = self.src.len() - self.src_pos;
        let n = if self.chunk < avail {
            self.chunk
        } else {
            avail
        };
        let mut k: usize = 0;
        while k < n
            invariant
                mid.wf(),
                k <= n,
                n <= mid.src@.len() - mid.src_pos,
                mid.src_pos + n <= usize::MAX,
                self.mark == mid.mark && self.pos == mid.pos && self.limit == mid.limit,
                self.src == mid.src && self.src_pos == mid.src_pos && self.chunk == mid.chunk,
                self.buf@ == mid.buf@ + mid.src@.subrange(
                    mid.src_pos as int,
                    mid.src_pos + k as int,
                ),
            decreases n - k,
        {
            let b = self.src[self.src_pos + k];
            self.buf.push(b);
            k += 1;
            proof {
                assert(self.buf@ =~= mid.buf@ + mid.src@.subrange(
                    mid.src_pos as int,
                    mid.src_pos + k as int,
                ));
            }
        }
        self.src_pos = self.src_pos + n;
        self.limit = self.buf.len();
        proof {
            assert(self.marked() =~= pre.marked());
            assert(self.remaining() =~= pre.remaining());
            assert(pre.remaining().len() == pre.src@.len() - pre.src_pos);
        }
        self.pos >= self.limit
    }

    /// The byte at the read position, unmoved; callable after `eof` has
    /// reported false.
    pub fn peek(&self) -> (r: u8)
        requires
            self.wf(),
            self.buffered(),
        ensures
            r == self.remaining()[0],
    {
        self.buf[self.pos]
    }

    /// Read one byte and advance past it. The caller must know the
    /// input has not ended.
    pub fn getc(&mut self) -> (r: u8)
        requires
            old(self).wf(),
            old(self).remaining().len() > 0,
        ensures
            final(self).wf(),
            r == old(self).remaining()[0],
            final(self).remaining() == old(self).remaining().skip(1),
            final(self).marked() == old(self).marked().push(r),
    {
        let e = self.eof();
        assert(!e);
        let b = self.buf[self.pos];
        self.pos = self.pos + 1;
        proof {
            assert(self.remaining() =~= old(self).remaining().skip(1));
            assert(self.marked() =~= old(self).marked().push(b));
        }
        b
    }

    /// Advance past the next byte only if it equals `byte`; report
    /// whether it did. Safe to call at the end of input.
    pub fn consume(&mut self, byte: u8) -> (r: bool)
        requires
            old(self).wf(),
        ensures
            final(self).wf(),
            r == (old(self).remaining().len() > 0 && old(self).remaining()[0] == byte),
            r ==> final(self).remaining() == old(self).remaining().skip(1) && final(self).marked()
                == old(self).marked().push(byte),
            !r ==> final(self).remaining() == old(self).remaining()
                && final(self).marked() == old(self).marked(),
    {
        let e = self.eof();
        if e {
            return false;
        }
        if self.peek() != byte {
            return false;
        }
        self.pos = self.pos + 1;
        proof {
            assert(self.remaining() =~= old(self).remaining().skip(1));
            assert(self.marked() =~= old(self).marked().push(byte));
        }
        true
    }

    /// Advance past any run of whitespace, stopping at the first other
    /// byte or the end of input.
    pub fn skip(&mut self)
        requires
            old(self).wf(),
        ensures
            final(self).wf(),
            final(self).remaining() == old(self).remaining().skip(
                space_len(old(self).remaining()),
            ),
            final(self).marked() == old(self).marked() + old(self).remaining().take(
                space_len(old(self).remaining()),
            ),
            final(self).remaining().len() > 0 ==> final(self).buffered(),
    {
        let ghost pre = *self;
        let ghost mut k: int = 0;
        loop
            invariant_except_break
                self.wf(),
                0 <= k <= pre.remaining().len(),
                self.remaining() == pre.remaining().skip(k),
                self.marked() == pre.marked() + pre.remaining().take(k),
                space_len(pre.remaining()) == k + space_len(self.remaining()),
            ensures
                self.wf(),
                self.remaining() == pre.remaining().skip(space_len(pre.remaining())),
                self.marked() == pre.marked() + pre.remaining().take(space_len(pre.remaining())),
                self.remaining().len() > 0 ==> self.buffered(),
            decreases pre.remaining().len() - k,
        {
            proof {
                assert(pre.remaining().skip(0) =~= pre.remaining());
                assert(pre.remaining().take(0) =~= Seq::<u8>::empty());
                assert(pre.marked() + Seq::<u8>::empty() =~= pre.marked());
            }
            let e = self.eof();
            if e {
                proof {
                    assert(space_len(self.remaining()) == 0);
                }
                break ;
            }
            let b = self.peek();
            if !byte_is_space(b) {
                proof {
                    assert(space_len(self.remaining()) == 0);
                }
                break ;
            }
            let ghost snap = *self;
            self.pos = self.pos + 1;
            proof {
                assert(self.remaining() =~= snap.remaining().skip(1));
                assert(self.marked() =~= snap.marked().push(b));
                assert(snap.remaining()[0] == b);
                assert(space_len(snap.remaining()) == 1 + space_len(self.remaining()));
                k = k + 1;
                assert(self.remaining() =~= pre.remaining().skip(k));
                assert(pre.remaining().take(k) =~= pre.remaining().take(k - 1).push(b));
                assert(self.marked() =~= pre.marked() + pre.remaining().take(k));
            }
        }
    }

    /// Advance until the next byte is one of `delims` or the input
    /// ends; the delimiter is not consumed.
    pub fn until(&mut self, delims: &[u8])
        requires
            old(self).wf(),
        ensures
            final(self).wf(),
            final(self).remaining() == old(self).remaining().skip(
                scan_len(old(self).remaining(), delims@),
            ),
            final(self).marked() == old(self).marked() + old(self).remaining().take(
                scan_len(old(self).remaining(), delims@),
            ),
            final(self).remaining().len() > 0 ==> final(self).buffered(),
    {
        let ghost pre = *self;
        let ghost mut k: int = 0;
        loop
            invariant_except_break
                self.wf(),
                0 <= k <= pre.remaining().len(),
                self.remaining() == pre.remaining().skip(k),
                self.marked() == pre.marked() + pre.remaining().take(k),
                scan_len(pre.remaining(), delims@) == k + scan_len(self.remaining(), delims@),
            ensures
                self.wf(),
                self.remaining() == pre.remaining().skip(scan_len(pre.remaining(), delims@)),
                self.marked() == pre.marked() + pre.remaining().take(
                    scan_len(pre.remaining(), delims@),
                ),
                self.remaining().len() > 0 ==> self.buffered(),
            decreases pre.remaining().len() - k,
        {
            proof {
                assert(pre.remaining().skip(0) =~= pre.remaining());
                assert(pre.remaining().take(0) =~= Seq::<u8>::empty());
                assert(pre.marked() + Seq::<u8>::empty() =~= pre.marked());
            }
            let e = self.eof();
            if e {
                proof {
                    assert(scan_len(self.remaining(), delims@) == 0);
                }
                break ;
            }
            let b = self.peek();
            if slice_contains(delims, b) {
                proof {
                    assert(scan_len(self.remaining(), delims@) == 0);
                }
                break ;
            }
            let ghost snap = *self;
            self.pos = self.pos + 1;
            proof {
                assert(self.remaining() =~= snap.remaining().skip(1));
                assert(self.marked() =~= snap.marked().push(b));
                assert(snap.remaining()[0] == b);
                assert(scan_len(snap.remaining(), delims@) == 1 + scan_len(
                    self.remaining(),
                    delims@,
                ));
                k = k + 1;
                assert(self.remaining() =~= pre.remaining().skip(k));
                assert(pre.remaining().take(k) =~= pre.remaining().take(k - 1).push(b));
                assert(self.marked() =~= pre.marked() + pre.remaining().take(k));
            }
        }
    }

    /// A copy of the marked token.
    fn copy_marked(&self) -> (r: Vec<u8>)
        requires
            self.wf(),
        ensures
            r@ == self.marked(),
    {
        let mut out: Vec<u8> = Vec::new();
        let mut i = self.mark;
        while i < self.pos
            invariant
                self.wf(),
                self.mark <= i <= self.pos,
                out@ == self.buf@.subrange(self.mark as int, i as int),
            decreases self.pos - i,
        {
            let b = self.buf[i];
            out.push(b);
            i += 1;
            proof {
                assert(out@ =~= self.buf@.subrange(self.mark as int, i as int));
            }
        }
        proof {
            assert(out@ =~= self.marked());
        }
        out
    }

    /// Skip whitespace, then return a copy of the token running up to
    /// the next delimiter; the token is left behind as the marked
    /// region.
    pub fn next(&mut self, delims: &[u8]) -> (r: Vec<u8>)
        requires
            old(self).wf(),
        ensures
            final(self).wf(),
            ({
                let t = old(self).remaining().skip(space_len(old(self).remaining()));
                r@ == t.take(scan_len(t, delims@)) && final(self).remaining() == t.skip(
                    scan_len(t, delims@),
                )
            }),
    {
        self.skip();
        self.mark = self.pos;
        proof {
            assert(self.marked() =~= Seq::<u8>::empty());
        }
        self.until(delims);
        proof {
            assert(Seq::<u8>::empty() + old(self).remaining().skip(
                space_len(old(self).remaining()),
            ).take(
                scan_len(
                    old(self).remaining().skip(space_len(old(self).remaining())),
                    delims@,
                ),
            ) =~= old(self).remaining().skip(space_len(old(self).remaining())).take(
                scan_len(
                    old(self).remaining().skip(space_len(old(self).remaining())),
                    delims@,
                ),
            ));
        }
        self.copy_marked()
    }

    /// Skip whitespace, one optional comma, one optional minus sign,
    /// then scan to the next number delimiter and parse the token as a
    /// decimal number. Nothing on a malformed token — an empty one, a
    /// second sign, a second decimal point, a digit run too large, or
    /// anything but a plain decimal literal.
    pub fn next_number(&mut self) -> (r: Option<Number>)
        requires
            old(self).wf(),
        ensures
            final(self).wf(),
            ({
                let res = spec_next_number(old(self).remaining());
                match r {
                    Some(n) => res matches Some(p) && p.0 == n && final(self).remaining() == p.1,
                    None => res is None,
                }
            }),
    {
        self.skip();
        self.consume(44);
        self.mark = self.pos;
        proof {
            assert(self.marked() =~= Seq::<u8>::empty());
        }
        self.consume(45);
        let ds = num_delim_bytes();
        self.until(ds.as_slice());
        proof {
            let t = old(self).remaining().skip(space_len(old(self).remaining()));
            let u = if t.len() > 0 && t[0] == 44 {
                t.skip(1)
            } else {
                t
            };
            let neg = u.len() > 0 && u[0] == 45;
            let v = if neg {
                u.skip(1)
            } else {
                u
            };
            let k = scan_len(v, num_delims());
            if neg {
                assert(self.marked() =~= seq![45u8] + v.take(k));
            } else {
                assert(self.marked() =~= v.take(k));
                assert(Seq::<u8>::empty() + v.take(k) =~= v.take(k));
            }
        }
        let tok = self.copy_marked();
        parse_decimal(&tok)
    }
}

/// The bytes that end a number: whitespace, comma, minus, both quotes,
/// and every command letter — a number may run straight into the next
/// command with no separator between them.
pub open spec fn num_delims() -> Seq<u8> {
    seq![
        32u8,
        9,
        13,
        10,
        0,
        44,
        45,
        39,
        34,
        109,
        122,
        108,
        104,
        118,
        99,
        115,
        113,
        116,
        97,
        77,
        90,
        76,
        72,
        86,
        67,
        83,
        81,
        84,
        65,
    ]
}

/// The number-delimiter bytes, for `until`.
fn num_delim_bytes() -> (r: Vec<u8>)
    ensures
        r@ == num_delims(),
{
    let mut v: Vec<u8> = Vec::new();
    v.push(32);
    v.push(9);
    v.push(13);
    v.push(10);
    v.push(0);
    v.push(44);
    v.push(45);
    v.push(39);
    v.push(34);
    v.push(109);
    v.push(122);
    v.push(108);
    v.push(104);
    v.push(118);
    v.push(99);
    v.push(115);
    v.push(113);
    v.push(116);
    v.push(97);
    v.push(77);
    v.push(90);
    v.push(76);
    v.push(72);
    v.push(86);
    v.push(67);
    v.push(83);
    v.push(81);
    v.push(84);
    v.push(65);
    proof {
        assert(v@ =~= num_delims());
    }
    v
}

/// What one call of `next_number` consumes and yields from the unread
/// bytes `s`: the parsed number and the bytes left after its token.
pub open spec fn spec_next_number(s: Seq<u8>) -> Option<(Number, Seq<u8>)> {
    let t = s.skip(space_len(s));
    let u = if t.len() > 0 && t[0] == 44 {
        t.skip(1)
    } else {
        t
    };
    let neg = u.len() > 0 && u[0] == 45;
    let v = if neg {
        u.skip(1)
    } else {
        u
    };
    let k = scan_len(v, num_delims());
    let tok = (if neg {
        seq![45u8]
    } else {
        Seq::<u8>::empty()
    }) + v.take(k);
    match spec_parse_decimal(tok) {
        Some(n) => Some((n, v.skip(k))),
        None => None,
    }
}

/// Scanning stops exactly at the first delimiter: a clean run followed
/// by a delimiter scans as the whole run.
proof fn lemma_scan_prefix(a: Seq<u8>, b: Seq<u8>, delims: Seq<u8>)
    requires
        forall|i: int| 0 <= i < a.len() ==> !delims.contains(#[trigger] a[i]),
        b.len() > 0,
        delims.contains(b[0]),
    ensures
        scan_len(a + b, delims) == a.len(),
    decreases a.len(),
{
    if a.len() > 0 {
        assert((a + b)[0] == a[0]);
        assert((a + b).skip(1) =~= a.skip(1) + b);
        lemma_scan_prefix(a.skip(1), b, delims);
    } else {
        assert(a + b =~= b);
    }
}

/// No digit is a number delimiter.
proof fn lemma_digit_not_num_delim(b: u8)
    requires
        crate::number::is_digit(b),
    ensures
        !num_delims().contains(b),
{
    let nd = num_delims();
    assert forall|i: int| 0 <= i < nd.len() implies nd[i] != b by {
        assert(nd[0] == 32);
        assert(nd[1] == 9);
        assert(nd[2] == 13);
        assert(nd[3] == 10);
        assert(nd[4] == 0);
        assert(nd[5] == 44);
        assert(nd[6] == 45);
        assert(nd[7] == 39);
        assert(nd[8] == 34);
        assert(nd[9] == 109);
        assert(nd[10] == 122);
        assert(nd[11] == 108);
        assert(nd[12] == 104);
        assert(nd[13] == 118);
        assert(nd[14] == 99);
        assert(nd[15] == 115);
        assert(nd[16] == 113);
        assert(nd[17] == 116);
        assert(nd[18] == 97);
        assert(nd[19] == 77);
        assert(nd[20] == 90);
        assert(nd[21] == 76);
        assert(nd[22] == 72);
        assert(nd[23] == 86);
        assert(nd[24] == 67);
        assert(nd[25] == 83);
        assert(nd[26] == 81);
        assert(nd[27] == 84);
        assert(nd[28] == 65);
    }
    if nd.contains(b) {
        let i = choose|i: int| 0 <= i < nd.len() && nd[i] == b;
        assert(false);
    }
}

/// Round trip through the renderer: parsing a rendered numeric field —
/// its text, its separating space, and whatever follows — yields the
/// field's value truncated toward zero, and stops at the space. Since
/// a truncated number renders to the same text, rendering again after
/// the round trip changes nothing more.
pub proof fn lemma_field_roundtrip(n: Number, tail: Seq<u8>)
    ensures
        spec_next_number(crate::number::spec_render_num(n) + seq![32u8] + tail) == Some(
            (crate::number::spec_truncate(n), seq![32u8] + tail),
        ),
        crate::number::spec_render_num(crate::number::spec_truncate(n))
            == crate::number::spec_render_num(n),
{
    crate::number::lemma_dec_digits(n.int_part as nat);
    crate::number::lemma_render_parse(n);
    let dd = crate::number::dec_digits(n.int_part as nat);
    let rn = crate::number::spec_render_num(n);
    let f = rn + seq![32u8] + tail;
    let sp = seq![32u8] + tail;
    assert(num_delims()[0] == 32);
    assert(num_delims().contains(32u8));
    assert forall|i: int| 0 <= i < dd.len() implies !num_delims().contains(#[trigger] dd[i]) by {
        lemma_digit_not_num_delim(dd[i]);
    }
    if n.neg && n.int_part > 0 {
        assert(rn =~= seq![45u8] + dd);
        assert(f[0] == 45);
        assert(space_len(f) == 0);
        assert(f.skip(0) =~= f);
        let v = f.skip(1);
        assert(v =~= dd + sp);
        lemma_scan_prefix(dd, sp, num_delims());
        let k = scan_len(v, num_delims());
        assert(k == dd.len());
        assert(seq![45u8] + v.take(k) =~= rn);
        assert(v.skip(k) =~= sp);
    } else {
        assert(rn =~= dd);
        assert(crate::number::is_digit(f[0]));
        assert(space_len(f) == 0);
        assert(f.skip(0) =~= f);
        assert(f =~= dd + sp);
        lemma_scan_prefix(dd, sp, num_delims());
        let k = scan_len(f, num_delims());
        assert(k == dd.len());
        assert(f.take(k) =~= rn);
        assert(Seq::<u8>::empty() + f.take(k) =~= rn);
        assert(f.skip(k) =~= sp);
    }
    assert(crate::number::spec_render_num(crate::number::spec_truncate(n))
        =~= crate::number::spec_render_num(n));
}

} // verus!
