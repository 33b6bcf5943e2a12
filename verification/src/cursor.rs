//! The byte-level UTF-8 cursor: walks the input bytes, extracts scalar
//! values, and marks a breakpoint so that already-normalized stretches can
//! be emitted verbatim as raw slices.

use vstd::prelude::*;
use vstd::string::StringSliceAdditionalSpecFns;
use vstd::utf8::decode_first_scalar;
use vstd::utf8::decode_utf8;
use vstd::utf8::is_char_boundary;
use vstd::utf8::is_continuation_byte;
use vstd::utf8::is_leading_byte_width_1;
use vstd::utf8::is_leading_byte_width_2;
use vstd::utf8::is_leading_byte_width_3;
use vstd::utf8::is_scalar;
use vstd::utf8::length_of_first_scalar;
use vstd::utf8::not_overlong_encoding;
use vstd::utf8::not_surrogate;
use vstd::utf8::pop_first_scalar;
use vstd::utf8::take_first_scalar;
use vstd::utf8::valid_first_scalar;
use vstd::utf8::valid_leading_and_continuation_bytes_first_codepoint;
use vstd::utf8::valid_utf8;

verus! {

broadcast use {
    vstd::utf8::encode_utf8_valid_utf8,
    vstd::utf8::encode_utf8_decode_utf8,
    vstd::utf8::decode_utf8_encode_utf8,
    vstd::utf8::char_is_scalar,
    vstd::utf8::char_u32_cast,
    vstd::utf8::valid_utf8_split,
    vstd::utf8::decode_utf8_split,
    vstd::utf8::is_char_boundary_start_end_of_seq,
    vstd::utf8::is_char_boundary_iff_not_is_continuation_byte,
};

/// A cursor over the UTF-8 bytes of the input string.  `position` is the
/// current byte offset; `breakpoint` marks where the last known normalized
/// stretch began.  Both always sit on character boundaries.
pub struct CharsIter<'a> {
    /// the input; its bytes are well-formed UTF-8 by construction
    pub s: &'a str,
    /// current byte offset
    pub position: usize,
    /// byte offset where the pending verbatim stretch begins
    pub breakpoint: usize,
}

impl<'a> CharsIter<'a> {
    /// The input bytes the cursor walks.
    pub open spec fn bytes(&self) -> Seq<u8> {
        self.s.spec_bytes()
    }

    /// Offsets in range and on character boundaries.
    pub open spec fn wf(&self) -> bool {
        &&& self.breakpoint <= self.position <= self.bytes().len()
        &&& is_char_boundary(self.bytes(), self.position as int)
        &&& is_char_boundary(self.bytes(), self.breakpoint as int)
    }

    /// A new cursor at the start of `s`.
    pub fn new(s: &'a str) -> (r: CharsIter<'a>)
        ensures
            r.s == s,
            r.position == 0,
            r.breakpoint == 0,
            r.wf(),
    {
        proof {
            assert(valid_utf8(s.spec_bytes()));
            assert(is_char_boundary(s.spec_bytes(), 0));
        }
        CharsIter { s, position: 0, breakpoint: 0 }
    }

    /// At or past the end of the input.
    pub fn is_empty(&self) -> (r: bool)
        requires
            self.position <= self.bytes().len(),
        ensures
            r == (self.position == self.bytes().len()),
    {
        self.position >= self.s.as_bytes().len()
    }

    /// Read the byte at `position` and advance by one.  The caller
    /// guarantees the cursor is not at the end.
    pub fn first_byte_unchecked(&mut self) -> (b: u8)
        requires
            old(self).position < old(self).bytes().len(),
        ensures
            final(self).s == old(self).s,
            final(self).breakpoint == old(self).breakpoint,
            final(self).position == old(self).position + 1,
            b == old(self).bytes()[old(self).position as int],
    {
        let b: u8 = self.s.as_bytes()[self.position];
        self.position = self.position + 1;
        b
    }

    /// Record the current position as the breakpoint.
    pub fn set_breakpoint(&mut self)
        ensures
            final(self).s == old(self).s,
            final(self).position == old(self).position,
            final(self).breakpoint == old(self).position,
    {
        self.breakpoint = self.position;
    }

    /// True when the current sequence, `width` bytes wide, starts exactly at
    /// the breakpoint: nothing verbatim is pending before it.
    pub fn at_breakpoint(&self, width: usize) -> (r: bool)
        requires
            width <= self.position,
        ensures
            r == (self.position - width == self.breakpoint),
    {
        self.position - width == self.breakpoint
    }

    /// The slice from the breakpoint up to (but excluding) the current
    /// sequence, which started `width` bytes back.
    pub fn block_slice(&self, width: usize) -> (r: &'a str)
        requires
            self.wf(),
            width <= self.position,
            self.breakpoint <= self.position - width,
            is_char_boundary(self.bytes(), self.position - width),
        ensures
            r.spec_bytes() == self.bytes().subrange(
                self.breakpoint as int,
                self.position - width,
            ),
            r@ == decode_utf8(
                self.bytes().subrange(self.breakpoint as int, self.position - width),
            ),
    {
        self.slice_between(self.breakpoint, self.position - width)
    }

    /// The slice from the breakpoint to the end of the input.
    pub fn ending_slice(&self) -> (r: &'a str)
        requires
            self.wf(),
        ensures
            r.spec_bytes() == self.bytes().subrange(
                self.breakpoint as int,
                self.bytes().len() as int,
            ),
            r@ == decode_utf8(
                self.bytes().subrange(self.breakpoint as int, self.bytes().len() as int),
            ),
    {
        let n: usize = self.s.as_bytes().len();
        self.slice_between(self.breakpoint, n)
    }

    /// The slice of the input between two character boundaries.
    fn slice_between(&self, from: usize, to: usize) -> (r: &'a str)
        requires
            self.wf(),
            from <= to <= self.bytes().len(),
            is_char_boundary(self.bytes(), from as int),
            is_char_boundary(self.bytes(), to as int),
        ensures
            r.spec_bytes() == self.bytes().subrange(from as int, to as int),
            r@ == decode_utf8(self.bytes().subrange(from as int, to as int)),
    {
        let ghost b = self.bytes();
        proof {
            assert(valid_utf8(b));
            assert(valid_utf8(b.subrange(from as int, b.len() as int)));
        }
        let pair = self.s.split_at(from);
        let tail: &'a str = pair.1;
        proof {
            assert(tail.spec_bytes() =~= b.subrange(from as int, b.len() as int));
            let tb = tail.spec_bytes();
            let q = to - from;
            if q == tb.len() {
                assert(is_char_boundary(tb, q as int));
            } else {
                assert(tb[q as int] == b[to as int]);
                assert(is_char_boundary(b, to as int)
                    == !is_continuation_byte(b[to as int]));
                assert(is_char_boundary(tb, q as int)
                    == !is_continuation_byte(tb[q as int]));
            }
        }
        let pair2 = tail.split_at(to - from);
        let r: &'a str = pair2.0;
        proof {
            assert(r.spec_bytes() =~= b.subrange(from as int, to as int));
            let piece = b.subrange(from as int, to as int);
            assert(vstd::utf8::encode_utf8(r@) == piece);
            assert(valid_utf8(piece));
            assert(decode_utf8(vstd::utf8::encode_utf8(r@)) == r@);
        }
        r
    }

    /// Decode the remaining 1–3 continuation bytes of the sequence whose
    /// leading byte `first`, at least 0xC2, was just consumed, and return the
    /// scalar.  Advances past the whole sequence.
    pub fn char_nonascii_unchecked(&mut self, first: u8) -> (code: u32)
        requires
            old(self).position >= 1,
            old(self).position <= old(self).bytes().len(),
            is_char_boundary(old(self).bytes(), old(self).position - 1),
            old(self).position - 1 < old(self).bytes().len(),
            first == old(self).bytes()[old(self).position - 1],
            first >= 0xC2,
        ensures
            final(self).s == old(self).s,
            final(self).breakpoint == old(self).breakpoint,
            ({
                let b = old(self).bytes();
                let p = old(self).position - 1;
                let sfx = b.subrange(p, b.len() as int);
                &&& final(self).position == p + length_of_first_scalar(sfx)
                &&& code == decode_first_scalar(sfx)
                &&& is_scalar(code)
                &&& code >= 0x80
                &&& is_char_boundary(b, final(self).position as int)
                &&& final(self).position <= b.len()
                &&& decode_utf8(b.subrange(p, final(self).position as int)) == seq![
                    code as char,
                ]
                &&& (code as char) as u32 == code
            }),
    {
        let ghost b = self.bytes();
        let ghost p = self.position - 1;
        let ghost sfx = b.subrange(p as int, b.len() as int);
        proof {
            lemma_decode_one(b, p as int);
            assert(sfx[0] == first);
            if is_leading_byte_width_1(first) {
                assert(false);
            }
        }
        let bytes = self.s.as_bytes();
        let code: u32;
        if first < 0xE0 {
            proof {
                assert(length_of_first_scalar(sfx) == 2);
                assert(sfx.len() >= 2);
                assert(sfx[1] == b[p + 1]);
            }
            let b2: u8 = bytes[self.position];
            code = (((first & 0x1F) as u32) << 6u32) | ((b2 & 0x3F) as u32);
            self.position = self.position + 1;
        } else if first < 0xF0 {
            proof {
                assert(length_of_first_scalar(sfx) == 3);
                assert(sfx.len() >= 3);
                assert(sfx[1] == b[p + 1] && sfx[2] == b[p + 2]);
            }
            let b2: u8 = bytes[self.position];
            let b3: u8 = bytes[self.position + 1];
            code = (((first & 0x0F) as u32) << 12u32) | (((b2 & 0x3F) as u32) << 6u32) | ((b3
                & 0x3F) as u32);
            self.position = self.position + 2;
        } else {
            proof {
                assert(length_of_first_scalar(sfx) == 4);
                assert(sfx.len() >= 4);
                assert(sfx[1] == b[p + 1] && sfx[2] == b[p + 2] && sfx[3] == b[p + 3]);
            }
            let b2: u8 = bytes[self.position];
            let b3: u8 = bytes[self.position + 1];
            let b4: u8 = bytes[self.position + 2];
            code = (((first & 0x07) as u32) << 18u32) | (((b2 & 0x3F) as u32) << 12u32) | (((b3
                & 0x3F) as u32) << 6u32) | ((b4 & 0x3F) as u32);
            self.position = self.position + 3;
        }
        proof {
            assert(code == decode_first_scalar(sfx));
            assert(code >= 0x80) by {
                assert(not_overlong_encoding(decode_first_scalar(sfx), length_of_first_scalar(
                    sfx,
                )));
            }
        }
        code
    }

    /// The byte width of the sequence whose leading byte is `first`.
    pub fn sequence_width(first: u8) -> (w: usize)
        requires
            first >= 0xC2,
        ensures
            0xC2 <= first < 0xE0 ==> w == 2,
            0xE0 <= first < 0xF0 ==> w == 3,
            0xF0 <= first ==> w == 4,
    {
        if first < 0xE0 {
            2
        } else if first < 0xF0 {
            3
        } else {
            4
        }
    }
}

/// Decoding a well-formed byte range splits at any inner character boundary,
/// both at the character level and at the scalar-value level.
pub proof fn lemma_split_codes(b: Seq<u8>, a: int, m: int, e: int)
    requires
        valid_utf8(b),
        is_char_boundary(b, a),
        is_char_boundary(b, m),
        is_char_boundary(b, e),
        0 <= a <= m <= e <= b.len(),
    ensures
        decode_utf8(b.subrange(a, e)) == decode_utf8(b.subrange(a, m)) + decode_utf8(
            b.subrange(m, e),
        ),
        crate::codepoint::codes_of(decode_utf8(b.subrange(a, e)))
            == crate::codepoint::codes_of(decode_utf8(b.subrange(a, m)))
            + crate::codepoint::codes_of(decode_utf8(b.subrange(m, e))),
{
    let whole = b.subrange(a, b.len() as int);
    assert(valid_utf8(whole));
    if e < b.len() {
        assert(whole[e - a] == b[e]);
        assert(is_char_boundary(b, e) == !is_continuation_byte(b[e]));
        assert(is_char_boundary(whole, e - a) == !is_continuation_byte(whole[e - a]));
    } else {
        assert(is_char_boundary(whole, e - a));
    }
    assert(valid_utf8(whole.subrange(0, e - a)));
    let t = b.subrange(a, e);
    assert(t =~= whole.subrange(0, e - a));
    assert(valid_utf8(t));
    if m < e {
        assert(t[m - a] == b[m]);
        assert(is_char_boundary(b, m) == !is_continuation_byte(b[m]));
        assert(is_char_boundary(t, m - a) == !is_continuation_byte(t[m - a]));
    } else {
        assert(is_char_boundary(t, m - a));
    }
    assert(decode_utf8(t) =~= decode_utf8(t.subrange(0, m - a)) + decode_utf8(
        t.subrange(m - a, t.len() as int),
    ));
    assert(t.subrange(0, m - a) =~= b.subrange(a, m));
    assert(t.subrange(m - a, t.len() as int) =~= b.subrange(m, e));
    assert(crate::codepoint::codes_of(decode_utf8(b.subrange(a, e)))
        =~= crate::codepoint::codes_of(decode_utf8(b.subrange(a, m)))
        + crate::codepoint::codes_of(decode_utf8(b.subrange(m, e))));
}

/// A byte below 0xC2 sitting on a character boundary is ASCII: the one-byte
/// scalar it encodes is itself, and the next offset is a boundary again.
pub proof fn lemma_ascii_step(b: Seq<u8>, p: int)
    requires
        valid_utf8(b),
        is_char_boundary(b, p),
        0 <= p < b.len(),
        b[p] < 0xC2,
    ensures
        b[p] < 0x80,
        is_char_boundary(b, p + 1),
        decode_utf8(b.subrange(p, p + 1)) == seq![b[p] as char],
        (b[p] as char) as u32 == b[p] as u32,
        is_scalar(b[p] as u32),
    decreases b.len(),
{
    lemma_decode_one(b, p);
    let sfx = b.subrange(p, b.len() as int);
    assert(sfx[0] == b[p]);
    if is_leading_byte_width_2(sfx[0]) {
        let c = decode_first_scalar(sfx);
        assert(length_of_first_scalar(sfx) == 2);
        assert(c >= 0x80) by {
            assert(not_overlong_encoding(c, 2));
        }
        let b0 = sfx[0];
        let b1 = sfx[1];
        assert(!(((((b0 & 0x1F) as u32) << 6u32) | ((b1 & 0x3F) as u32)) >= 0x80 && b0 < 0xC2
            && 0xC0 <= b0 <= 0xDF)) by (bit_vector);
        assert(false);
    }
    assert(is_leading_byte_width_1(sfx[0]));
    assert(length_of_first_scalar(sfx) == 1);
    let c = decode_first_scalar(sfx);
    let b0 = sfx[0];
    assert(c == (b0 & 0x7F) as u32);
    assert((b0 & 0x7F) == b0) by (bit_vector)
        requires
            b0 < 0x80,
    ;
}

/// What one well-formed scalar at boundary `p` looks like: its width, its
/// value, the boundary after it, and the one-character decoding of its bytes.
pub proof fn lemma_decode_one(b: Seq<u8>, p: int)
    requires
        valid_utf8(b),
        is_char_boundary(b, p),
        0 <= p < b.len(),
    ensures
        ({
            let sfx = b.subrange(p, b.len() as int);
            let w = length_of_first_scalar(sfx);
            let c = decode_first_scalar(sfx);
            &&& valid_first_scalar(sfx)
            &&& 1 <= w <= 4
            &&& p + w <= b.len()
            &&& is_char_boundary(b, p + w)
            &&& is_scalar(c)
            &&& decode_utf8(b.subrange(p, p + w)) == seq![c as char]
            &&& (c as char) as u32 == c
            &&& !is_continuation_byte(b[p])
        }),
{
    let sfx = b.subrange(p, b.len() as int);
    assert(valid_utf8(sfx));
    assert(sfx.len() > 0);
    assert(valid_first_scalar(sfx));
    let w = length_of_first_scalar(sfx);
    let c = decode_first_scalar(sfx);
    assert(valid_leading_and_continuation_bytes_first_codepoint(sfx));
    assert(1 <= w <= 4 && sfx.len() >= w);
    assert(is_scalar(c)) by {
        assert(not_overlong_encoding(c, w));
        assert(not_surrogate(c));
        if is_leading_byte_width_1(sfx[0]) {
            let b0 = sfx[0];
            assert(((b0 & 0x7F) as u32) <= 0x7F) by (bit_vector);
        } else if is_leading_byte_width_2(sfx[0]) {
            let b0 = sfx[0];
            let b1 = sfx[1];
            assert(((((b0 & 0x1F) as u32) << 6u32) | ((b1 & 0x3F) as u32)) <= 0x7FF)
                by (bit_vector);
        } else if is_leading_byte_width_3(sfx[0]) {
            let b0 = sfx[0];
            let b1 = sfx[1];
            let b2 = sfx[2];
            assert(((((b0 & 0x0F) as u32) << 12u32) | (((b1 & 0x3F) as u32) << 6u32) | ((b2
                & 0x3F) as u32)) <= 0xFFFF) by (bit_vector);
        } else {
        }
    }
    let piece = b.subrange(p, p + w);
    assert(piece =~= take_first_scalar(sfx));
    assert(piece[0] == sfx[0]);
    assert(forall|i: int| 0 <= i < w ==> piece[i] == #[trigger] sfx[i]);
    assert(valid_leading_and_continuation_bytes_first_codepoint(piece));
    assert(length_of_first_scalar(piece) == w);
    assert(decode_first_scalar(piece) == c);
    assert(valid_first_scalar(piece));
    assert(pop_first_scalar(piece) =~= Seq::<u8>::empty());
    assert(valid_utf8(pop_first_scalar(piece)));
    assert(valid_utf8(piece));
    assert(decode_utf8(pop_first_scalar(piece)) =~= Seq::<char>::empty());
    assert(decode_utf8(piece) =~= seq![c as char]);
    assert((c as char) as u32 == c);
    assert(is_char_boundary(b, p + w)) by {
        if p + w == b.len() {
        } else {
            let rest = pop_first_scalar(sfx);
            assert(rest =~= b.subrange(p + w, b.len() as int));
            assert(valid_utf8(rest));
            assert(rest.len() > 0);
            assert(valid_first_scalar(rest));
            assert(valid_leading_and_continuation_bytes_first_codepoint(rest));
            assert(rest[0] == b[p + w]);
            assert(!is_continuation_byte(b[p + w]));
        }
    }
    assert(!is_continuation_byte(b[p])) by {
        assert(is_char_boundary(b, p) == !is_continuation_byte(b[p]));
    }
}

} // verus!
