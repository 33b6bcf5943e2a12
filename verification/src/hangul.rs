//! Algorithmic decomposition of precomposed Hangul syllables.
//!
//! Syllables U+AC00..U+D7A3 decompose into an L jamo (U+1100..), a V jamo
//! (U+1161..), and, when the trailing index is non-zero, a T jamo (U+11A8..).
//! No table is consulted; the arithmetic below recovers the jamo from the
//! syllable's own scalar value.  All jamo are starters.

use vstd::prelude::*;

use crate::codepoint::Codepoint;
use crate::codepoint::codes_of;
use crate::codepoint::cp_codes;
use crate::emit::write_code;

verus! {

/// first precomposed Hangul syllable
pub const HANGUL_S_BASE: u32 = 0xAC00;
/// first leading consonant jamo
pub const HANGUL_L_BASE: u32 = 0x1100;
/// first vowel jamo
pub const HANGUL_V_BASE: u32 = 0x1161;
/// one below the first trailing consonant jamo, so that T = 0 means "no T"
pub const HANGUL_T_BASE: u32 = 0x11A7;
/// number of trailing consonant slots per vowel, the empty slot included
pub const HANGUL_T_COUNT: u32 = 28;
/// number of syllables per leading consonant
pub const HANGUL_N_COUNT: u32 = 588;

/// True when `c` is a precomposed Hangul syllable.
pub open spec fn is_hangul_syllable(c: u32) -> bool {
    0xAC00 <= c <= 0xD7A3
}

/// The leading consonant jamo of syllable `c`.
pub open spec fn spec_hangul_l(c: u32) -> u32
    recommends
        is_hangul_syllable(c),
{
    (0x1100 + (c - 0xAC00) / 588) as u32
}

/// The vowel jamo of syllable `c`.
pub open spec fn spec_hangul_v(c: u32) -> u32
    recommends
        is_hangul_syllable(c),
{
    (0x1161 + ((c - 0xAC00) % 588) / 28) as u32
}

/// The trailing index of syllable `c`; 0 means the syllable has no T jamo.
pub open spec fn spec_hangul_t(c: u32) -> u32
    recommends
        is_hangul_syllable(c),
{
    ((c - 0xAC00) % 28) as u32
}

/// The full algorithmic decomposition of syllable `c`: L, V, and, when
/// present, T.  Every element is a starter.
pub open spec fn spec_hangul_cps(c: u32) -> Seq<Codepoint>
    recommends
        is_hangul_syllable(c),
{
    if spec_hangul_t(c) == 0 {
        seq![
            Codepoint { code: spec_hangul_l(c), ccc: 0 },
            Codepoint { code: spec_hangul_v(c), ccc: 0 },
        ]
    } else {
        seq![
            Codepoint { code: spec_hangul_l(c), ccc: 0 },
            Codepoint { code: spec_hangul_v(c), ccc: 0 },
            Codepoint { code: (0x11A7 + spec_hangul_t(c)) as u32, ccc: 0 },
        ]
    }
}

/// The jamo of a syllable stay within the three jamo ranges, so each is a
/// valid scalar and each is a starter.
pub proof fn lemma_hangul_jamo_ranges(c: u32)
    requires
        is_hangul_syllable(c),
    ensures
        0x1100 <= spec_hangul_l(c) <= 0x1112,
        0x1161 <= spec_hangul_v(c) <= 0x1175,
        spec_hangul_t(c) < 28,
        spec_hangul_t(c) != 0 ==> 0x11A8 <= 0x11A7 + spec_hangul_t(c) <= 0x11C2,
{
    let s = c - 0xAC00;
    assert(0 <= s <= 0x2BA3);
    assert(s / 588 <= 18) by (nonlinear_arith)
        requires
            0 <= s <= 0x2BA3,
    ;
    assert(s % 588 < 588) by (nonlinear_arith)
        requires
            s >= 0,
    ;
    assert((s % 588) / 28 <= 20) by (nonlinear_arith)
        requires
            0 <= s % 588 < 588,
    ;
    assert(0 <= s % 28 < 28) by (nonlinear_arith)
        requires
            s >= 0,
    ;
}

/// Decompose the precomposed syllable `code` and append the jamo, in UTF-8,
/// to `result`.  Emits L and V, then T when the trailing index is non-zero.
pub fn decompose_hangul_syllable(result: &mut String, code: u32)
    requires
        is_hangul_syllable(code),
    ensures
        codes_of(final(result)@) == codes_of(old(result)@) + cp_codes(spec_hangul_cps(code)),
{
    proof {
        lemma_hangul_jamo_ranges(code);
    }
    let s: u32 = code - 0xAC00;
    let l: u32 = 0x1100 + s / 588;
    let v: u32 = 0x1161 + (s % 588) / 28;
    let t: u32 = s % 28;
    write_code(result, l);
    write_code(result, v);
    if t != 0 {
        write_code(result, 0x11A7 + t);
    }
    proof {
        assert(codes_of(result@) =~= codes_of(old(result)@) + cp_codes(spec_hangul_cps(code)));
    }
}

} // verus!
