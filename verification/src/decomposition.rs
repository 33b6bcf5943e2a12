//! The 64-bit decomposition descriptor and its decoder.
//!
//! The low 8 bits of a descriptor are a marker selecting the shape; the
//! remaining bits carry shape-specific payload:
//!
//! * `0` — starter with no decomposition (the entire word is 0);
//! * `1` — non-starter with no decomposition; bits 8..39 hold the packed
//!   code point itself (code in 8..25, CCC in 32..39);
//! * `2` — pair: bits 8..31 hold the starter c1, bits 32..63 the packed c2;
//! * `3` — expansion: bits 8..15 a count, bits 16..31 an index into the
//!   expansions side-table;
//! * `4` — singleton: bits 8..31 hold the starter c1;
//! * `5` — precomposed Hangul syllable (no payload);
//! * any other low byte — a triple of 16-bit codes: c1 in bits 0..15,
//!   c2 code in 16..31 with its CCC in 32..39, c3 code in 40..55 with its
//!   CCC in 56..63.  The low byte is then the low byte of c1's code.

use vstd::prelude::*;

use crate::codepoint::Codepoint;
use crate::codepoint::spec_unpack;

verus! {

/// non-starter without decomposition
pub const MARKER_NONSTARTER: u64 = 1;
/// pair
pub const MARKER_PAIR: u64 = 2;
/// decomposition stored in the expansions side-table
pub const MARKER_EXPANSION: u64 = 3;
/// singleton
pub const MARKER_SINGLETON: u64 = 4;
/// precomposed Hangul syllable
pub const MARKER_HANGUL: u64 = 5;

/// One decoded decomposition descriptor.
pub enum DecompositionValue {
    /// starter with no decomposition
    Starter,
    /// non-starter with no decomposition (a combining mark)
    Nonstarter(Codepoint),
    /// decomposition into two code points, the first a starter
    Pair(Codepoint, Codepoint),
    /// decomposition into three 16-bit code points, the first a starter
    Triple(Codepoint, Codepoint, Codepoint),
    /// starter that decomposes into a single different starter
    Singleton(Codepoint),
    /// decomposition held in the expansions side-table: (index, count)
    Expansion(u16, u8),
    /// precomposed Hangul syllable, decomposed algorithmically
    Hangul,
}

/// The marker in the low byte of a descriptor.
pub open spec fn spec_marker(d: u64) -> u64 {
    d % 0x100
}

/// The shape encoded by descriptor `d`.
pub open spec fn spec_parse_data_value(d: u64) -> DecompositionValue {
    let m = spec_marker(d);
    if m == 0 {
        DecompositionValue::Starter
    } else if m == MARKER_NONSTARTER {
        DecompositionValue::Nonstarter(
            Codepoint {
                code: ((d / 0x100) % 0x40000) as u32,
                ccc: ((d / 0x100000000) % 0x100) as u8,
            },
        )
    } else if m == MARKER_PAIR {
        DecompositionValue::Pair(
            Codepoint { code: ((d / 0x100) % 0x1000000) as u32, ccc: 0 },
            spec_unpack((d / 0x100000000) as u32),
        )
    } else if m == MARKER_EXPANSION {
        DecompositionValue::Expansion(
            ((d / 0x10000) % 0x10000) as u16,
            ((d / 0x100) % 0x100) as u8,
        )
    } else if m == MARKER_SINGLETON {
        DecompositionValue::Singleton(
            Codepoint { code: ((d / 0x100) % 0x1000000) as u32, ccc: 0 },
        )
    } else if m == MARKER_HANGUL {
        DecompositionValue::Hangul
    } else {
        DecompositionValue::Triple(
            Codepoint { code: (d % 0x10000) as u32, ccc: 0 },
            Codepoint {
                code: ((d / 0x10000) % 0x10000) as u32,
                ccc: ((d / 0x100000000) % 0x100) as u8,
            },
            Codepoint {
                code: ((d / 0x10000000000) % 0x10000) as u32,
                ccc: ((d / 0x100000000000000) % 0x100) as u8,
            },
        )
    }
}

/// Decode a descriptor read from the data table.
pub fn parse_data_value(d: u64) -> (r: DecompositionValue)
    ensures
        r == spec_parse_data_value(d),
{
    let m: u64 = d % 0x100;
    if m == 0 {
        DecompositionValue::Starter
    } else if m == MARKER_NONSTARTER {
        parse_nonstarter(d)
    } else if m == MARKER_PAIR {
        parse_pair(d)
    } else if m == MARKER_EXPANSION {
        parse_expansion(d)
    } else if m == MARKER_SINGLETON {
        parse_singleton(d)
    } else if m == MARKER_HANGUL {
        DecompositionValue::Hangul
    } else {
        parse_triple(d)
    }
}

/// non-starter without decomposition
fn parse_nonstarter(d: u64) -> (r: DecompositionValue)
    requires
        spec_marker(d) == MARKER_NONSTARTER,
    ensures
        r == spec_parse_data_value(d),
{
    DecompositionValue::Nonstarter(
        Codepoint {
            code: ((d / 0x100) % 0x40000) as u32,
            ccc: ((d / 0x100000000) % 0x100) as u8,
        },
    )
}

/// pair: a starter and one more code point
fn parse_pair(d: u64) -> (r: DecompositionValue)
    requires
        spec_marker(d) == MARKER_PAIR,
    ensures
        r == spec_parse_data_value(d),
{
    DecompositionValue::Pair(
        Codepoint { code: ((d / 0x100) % 0x1000000) as u32, ccc: 0 },
        crate::codepoint::unpack((d / 0x100000000) as u32),
    )
}

/// decomposition held in the expansions side-table
fn parse_expansion(d: u64) -> (r: DecompositionValue)
    requires
        spec_marker(d) == MARKER_EXPANSION,
    ensures
        r == spec_parse_data_value(d),
{
    DecompositionValue::Expansion(
        ((d / 0x10000) % 0x10000) as u16,
        ((d / 0x100) % 0x100) as u8,
    )
}

/// starter that decomposes into a single different starter
fn parse_singleton(d: u64) -> (r: DecompositionValue)
    requires
        spec_marker(d) == MARKER_SINGLETON,
    ensures
        r == spec_parse_data_value(d),
{
    DecompositionValue::Singleton(
        Codepoint { code: ((d / 0x100) % 0x1000000) as u32, ccc: 0 },
    )
}

/// triple of 16-bit codes, recognized when no marker matches
fn parse_triple(d: u64) -> (r: DecompositionValue)
    requires
        spec_marker(d) > MARKER_HANGUL,
    ensures
        r == spec_parse_data_value(d),
{
    DecompositionValue::Triple(
        Codepoint { code: (d % 0x10000) as u32, ccc: 0 },
        Codepoint {
            code: ((d / 0x10000) % 0x10000) as u32,
            ccc: ((d / 0x100000000) % 0x100) as u8,
        },
        Codepoint {
            code: ((d / 0x10000000000) % 0x10000) as u32,
            ccc: ((d / 0x100000000000000) % 0x100) as u8,
        },
    )
}

} // verus!
