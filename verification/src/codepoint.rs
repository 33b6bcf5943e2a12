//! Code points paired with their Canonical Combining Class, and the packed
//! 32-bit form in which the expansion side-table stores them.

use vstd::prelude::*;

verus! {

/// A scalar code point paired with its Canonical Combining Class (CCC).
/// CCC 0 marks a starter; any other value marks a non-starter.
#[derive(Clone, Copy, PartialEq, Eq, Structural, Debug)]
pub struct Codepoint {
    /// scalar value, at most 0x10FFFF
    pub code: u32,
    /// Canonical Combining Class
    pub ccc: u8,
}

impl Codepoint {
    /// A starter carries combining class 0.
    pub fn is_starter(&self) -> (r: bool)
        ensures
            r == (self.ccc == 0),
    {
        self.ccc == 0
    }

    /// A non-starter carries a non-zero combining class.
    pub fn is_nonstarter(&self) -> (r: bool)
        ensures
            r == (self.ccc != 0),
    {
        self.ccc != 0
    }
}

/// The code stored in a packed 32-bit code point: bits 0..17.
pub open spec fn spec_packed_code(entry: u32) -> u32 {
    entry % 0x40000
}

/// The combining class stored in a packed 32-bit code point: bits 24..31.
pub open spec fn spec_packed_ccc(entry: u32) -> u8 {
    (entry / 0x1000000) as u8
}

/// The code point described by a packed 32-bit entry.
pub open spec fn spec_unpack(entry: u32) -> Codepoint {
    Codepoint { code: spec_packed_code(entry), ccc: spec_packed_ccc(entry) }
}

/// The packed 32-bit form of a code point: code in bits 0..17, CCC in bits 24..31.
pub open spec fn spec_pack(cp: Codepoint) -> u32 {
    (cp.code + cp.ccc * 0x1000000) as u32
}

/// Read a code point out of its packed 32-bit form.
pub fn unpack(entry: u32) -> (r: Codepoint)
    ensures
        r == spec_unpack(entry),
{
    Codepoint { code: entry % 0x40000, ccc: (entry / 0x1000000) as u8 }
}

/// Write a code point into its packed 32-bit form.
pub fn pack(cp: Codepoint) -> (r: u32)
    requires
        cp.code < 0x40000,
    ensures
        r == spec_pack(cp),
        spec_unpack(r) == cp,
{
    let r: u32 = cp.code + (cp.ccc as u32) * 0x1000000;
    proof {
        assert(r % 0x40000 == cp.code && r / 0x1000000 == cp.ccc) by (nonlinear_arith)
            requires
                r == cp.code + cp.ccc * 0x1000000,
                cp.code < 0x40000,
                cp.ccc < 0x100,
        ;
    }
    r
}

/// The codes of a sequence of code points, in order.
pub open spec fn cp_codes(s: Seq<Codepoint>) -> Seq<u32> {
    s.map_values(|cp: Codepoint| cp.code)
}

/// The codes of a concatenation are the concatenation of the codes.
pub proof fn lemma_cp_codes_concat(a: Seq<Codepoint>, b: Seq<Codepoint>)
    ensures
        cp_codes(a + b) == cp_codes(a) + cp_codes(b),
{
    assert forall|i: int|
        0 <= i < (a + b).len() implies #[trigger] cp_codes(a + b)[i] == (cp_codes(a) + cp_codes(
        b,
    ))[i] by {
        if i < a.len() {
            assert((a + b)[i] == a[i]);
        } else {
            assert((a + b)[i] == b[i - a.len()]);
        }
    }
    assert(cp_codes(a + b) =~= cp_codes(a) + cp_codes(b));
}

/// The codes of a push are the codes, with the new code pushed.
pub proof fn lemma_cp_codes_push(a: Seq<Codepoint>, x: Codepoint)
    ensures
        cp_codes(a.push(x)) == cp_codes(a).push(x.code),
{
    assert(a.push(x) =~= a + seq![x]);
    lemma_cp_codes_concat(a, seq![x]);
    assert(cp_codes(seq![x]) =~= seq![x.code]);
    assert(cp_codes(a.push(x)) =~= cp_codes(a).push(x.code));
}

/// The scalar values of a sequence of characters, in order.
pub open spec fn codes_of(s: Seq<char>) -> Seq<u32> {
    s.map_values(|c: char| c as u32)
}

} // verus!
