//! The packed-table data model: two read-only arrays and an expansion
//! side-table, addressed through a two-level block index, plus the
//! well-formedness contract that baked artifacts must meet.

use vstd::prelude::*;
use vstd::utf8::is_scalar;

use crate::codepoint::Codepoint;
use crate::codepoint::spec_unpack;
use crate::codepoint::spec_pack;
use crate::decomposition::DecompositionValue;
use crate::decomposition::spec_parse_data_value;
use crate::hangul::is_hangul_syllable;

verus! {

/// The block of the last code point that decomposes (U+2FA1D); blocks above
/// it hold no decompositions and are short-circuited to 0.
pub const LAST_DECOMPOSING_CODEPOINT_BLOCK: u16 = 0x5F4;

/// The last code point with a decomposition, U+2FA1D.
pub const LAST_DECOMPOSING_CODEPOINT: u32 = 0x2FA1D;

/// The four baked artifacts that parameterise a normalizer variant.
pub struct DecompositionData {
    /// 64-bit decomposition descriptors: the flat continuous region followed
    /// by 128-entry blocks
    pub data: Vec<u64>,
    /// one block ID per 128-code-point block
    pub index: Vec<u8>,
    /// packed 32-bit code points referenced by expansion descriptors
    pub expansions: Vec<u32>,
    /// blocks are stored flat in `data` up to this code point, inclusive
    pub continuous_block_end: u32,
}

/// The mathematical content of the baked artifacts.
pub struct TableView {
    pub data: Seq<u64>,
    pub index: Seq<u8>,
    pub expansions: Seq<u32>,
    pub continuous_block_end: u32,
}

impl View for DecompositionData {
    type V = TableView;

    open spec fn view(&self) -> TableView {
        TableView {
            data: self.data@,
            index: self.index@,
            expansions: self.expansions@,
            continuous_block_end: self.continuous_block_end,
        }
    }
}

/// The descriptor the two-level index resolves for code point `c`.
pub open spec fn spec_lookup(t: TableView, c: u32) -> u64 {
    if c <= t.continuous_block_end {
        t.data[c as int]
    } else if c / 128 > LAST_DECOMPOSING_CODEPOINT_BLOCK as u32 {
        0
    } else {
        t.data[(t.index[(c / 128) as int] as int) * 128 + (c % 128) as int]
    }
}

/// Array bounds that make every resolved lookup fall inside `data`.
pub open spec fn table_shape_wf(t: TableView) -> bool {
    &&& t.continuous_block_end < t.data.len()
    &&& t.continuous_block_end <= 0x10FFFF
    &&& t.index.len() == LAST_DECOMPOSING_CODEPOINT_BLOCK as int + 1
    &&& forall|b: int|
        0 <= b < t.index.len() ==> (#[trigger] t.index[b] as int) * 128 + 128 <= t.data.len()
}

/// The descriptor of a non-starter that does not decompose further: its own
/// packed code point behind the marker.
pub open spec fn nonstarter_descriptor(cp: Codepoint) -> u64 {
    (1 + cp.code * 0x100 + cp.ccc * 0x100000000) as u64
}

/// The descriptor of a pair.
pub open spec fn pair_descriptor(c1: u32, c2: Codepoint) -> u64 {
    (2 + c1 * 0x100 + spec_pack(c2) * 0x100000000) as u64
}

/// The descriptor of an expansion of `count` entries at `index`.
pub open spec fn expansion_descriptor(index: u16, count: u8) -> u64 {
    (3 + count * 0x100 + index * 0x10000) as u64
}

/// The descriptor of a singleton.
pub open spec fn singleton_descriptor(c1: u32) -> u64 {
    (4 + c1 * 0x100) as u64
}

/// The descriptor of a triple of 16-bit codes.
pub open spec fn triple_descriptor(c1: u32, c2: Codepoint, c3: Codepoint) -> u64 {
    (c1 + c2.code * 0x10000 + c2.ccc * 0x100000000 + c3.code * 0x10000000000
        + c3.ccc * 0x100000000000000) as u64
}

/// A code point a decomposition may emit: a valid scalar that the tables
/// leave alone — a starter with descriptor 0, or a non-starter whose
/// descriptor repeats exactly the code point itself.  Baked tables hold
/// fully-recursive decompositions, so everything they emit is of this kind.
pub open spec fn cp_trivial(t: TableView, cp: Codepoint) -> bool {
    &&& is_scalar(cp.code)
    &&& cp.code < 0x40000
    &&& (cp.ccc == 0 ==> spec_lookup(t, cp.code) == 0)
    &&& (cp.ccc != 0 ==> spec_lookup(t, cp.code) == nonstarter_descriptor(cp))
}

/// What a well-formed descriptor for code point `c` may say.
#[verifier::opaque]
pub open spec fn descriptor_wf(t: TableView, c: u32, d: u64) -> bool {
    match spec_parse_data_value(d) {
        DecompositionValue::Starter => d == 0,
        DecompositionValue::Nonstarter(cp) => {
            &&& cp.code == c
            &&& cp.ccc != 0
            &&& cp.code < 0x40000
            &&& d == nonstarter_descriptor(cp)
        },
        DecompositionValue::Pair(c1, c2) => {
            &&& c1.ccc == 0
            &&& cp_trivial(t, c1)
            &&& cp_trivial(t, c2)
            &&& d == pair_descriptor(c1.code, c2)
        },
        DecompositionValue::Triple(c1, c2, c3) => {
            &&& c1.ccc == 0
            &&& cp_trivial(t, c1)
            &&& cp_trivial(t, c2)
            &&& cp_trivial(t, c3)
            &&& d == triple_descriptor(c1.code, c2, c3)
        },
        DecompositionValue::Singleton(c1) => {
            &&& c1.ccc == 0
            &&& cp_trivial(t, c1)
            &&& d == singleton_descriptor(c1.code)
        },
        DecompositionValue::Expansion(index, count) => {
            &&& 1 <= count <= 18
            &&& index + count <= t.expansions.len()
            &&& d == expansion_descriptor(index, count)
            &&& forall|k: int|
                index <= k < index + count ==> cp_trivial(
                    t,
                    spec_unpack(#[trigger] t.expansions[k]),
                )
            &&& forall|k: int|
                index <= k < index + count ==> spec_pack(
                    spec_unpack(#[trigger] t.expansions[k]),
                ) == t.expansions[k]
        },
        DecompositionValue::Hangul => {
            &&& d == 5
            &&& is_hangul_syllable(c)
        },
    }
}

/// True when `c` is a conjoining jamo, one of the code points the Hangul
/// decomposer emits.
pub open spec fn is_jamo(c: u32) -> bool {
    ||| 0x1100 <= c <= 0x1112
    ||| 0x1161 <= c <= 0x1175
    ||| 0x11A8 <= c <= 0x11C2
}

/// The full well-formedness contract on baked artifacts: sound bounds, a
/// well-formed descriptor for every scalar, no work for ASCII, and no work
/// for the jamo that Hangul decomposition emits.
pub open spec fn table_wf(t: TableView) -> bool {
    &&& table_shape_wf(t)
    &&& forall|c: u32| is_scalar(c) ==> descriptor_wf(t, c, #[trigger] spec_lookup(t, c))
    &&& forall|c: u32| c < 0x80 ==> #[trigger] spec_lookup(t, c) == 0
    &&& forall|c: u32| is_jamo(c) ==> #[trigger] spec_lookup(t, c) == 0
    &&& forall|c: u32|
        is_scalar(c) && c > LAST_DECOMPOSING_CODEPOINT ==> #[trigger] spec_lookup(t, c) == 0
}

impl DecompositionData {
    /// Resolve the descriptor of code point `code` through the two-level
    /// index.
    pub fn get_decomposition_value(&self, code: u32) -> (d: u64)
        requires
            table_shape_wf(self@),
            code <= 0x10FFFF,
        ensures
            d == spec_lookup(self@, code),
    {
        if code <= self.continuous_block_end {
            return self.data[code as usize];
        }
        let block_index: u32 = code / 128;
        if block_index > LAST_DECOMPOSING_CODEPOINT_BLOCK as u32 {
            return 0;
        }
        let block: usize = self.index[block_index as usize] as usize;
        self.data[block * 128 + (code % 128) as usize]
    }
}


impl DecompositionData {
    /// True when `cp` is a scalar below 0x40000 that the tables leave
    /// alone, exactly as [`cp_trivial`] demands.
    fn check_cp_trivial(&self, cp: Codepoint) -> (r: bool)
        requires
            table_shape_wf(self@),
        ensures
            r == cp_trivial(self@, cp),
    {
        if cp.code > 0x10FFFF || (0xD800 <= cp.code && cp.code <= 0xDFFF) {
            proof {
                assert(!is_scalar(cp.code));
            }
            return false;
        }
        proof {
            assert(is_scalar(cp.code));
        }
        if cp.code >= 0x40000 {
            return false;
        }
        let d = self.get_decomposition_value(cp.code);
        if cp.ccc == 0 {
            d == 0
        } else {
            let expected: u64 = 1 + (cp.code as u64) * 0x100 + (cp.ccc as u64) * 0x100000000;
            d == expected
        }
    }

    /// True when descriptor `d` for code point `c` has a well-formed shape,
    /// exactly as [`descriptor_wf`] demands.
    fn check_descriptor(&self, c: u32, d: u64) -> (r: bool)
        requires
            table_shape_wf(self@),
        ensures
            r == descriptor_wf(self@, c, d),
    {
        proof {
            reveal(descriptor_wf);
        }
        match crate::decomposition::parse_data_value(d) {
            DecompositionValue::Starter => d == 0,
            DecompositionValue::Nonstarter(cp) => {
                let expected: u64 = 1 + (cp.code as u64) * 0x100 + (cp.ccc as u64)
                    * 0x100000000;
                cp.code == c && cp.ccc != 0 && cp.code < 0x40000 && d == expected
            },
            DecompositionValue::Pair(c1, c2) => {
                if !self.check_cp_trivial(c1) || !self.check_cp_trivial(c2) {
                    return false;
                }
                let expected: u64 = 2 + (c1.code as u64) * 0x100 + (crate::codepoint::pack(c2)
                    as u64) * 0x100000000;
                d == expected
            },
            DecompositionValue::Triple(c1, c2, c3) => {
                if !self.check_cp_trivial(c1) || !self.check_cp_trivial(c2)
                    || !self.check_cp_trivial(c3) {
                    return false;
                }
                let expected: u64 = (c1.code as u64) + (c2.code as u64) * 0x10000 + (c2.ccc
                    as u64) * 0x100000000 + (c3.code as u64) * 0x10000000000 + (c3.ccc as u64)
                    * 0x100000000000000;
                d == expected
            },
            DecompositionValue::Singleton(c1) => {
                if !self.check_cp_trivial(c1) {
                    return false;
                }
                let expected: u64 = 4 + (c1.code as u64) * 0x100;
                d == expected
            },
            DecompositionValue::Expansion(index, count) => {
                if count < 1 || count > 18 {
                    return false;
                }
                if index as usize + count as usize > self.expansions.len() {
                    return false;
                }
                let expected: u64 = 3 + (count as u64) * 0x100 + (index as u64) * 0x10000;
                if d != expected {
                    return false;
                }
                let start: usize = index as usize;
                let stop: usize = index as usize + count as usize;
                let mut k: usize = start;
                while k < stop
                    invariant
                        table_shape_wf(self@),
                        spec_parse_data_value(d) == DecompositionValue::Expansion(index, count),
                        1 <= count <= 18,
                        d == expansion_descriptor(index, count),
                        start == index as int,
                        stop == index as int + count as int,
                        start <= k <= stop,
                        stop <= self.expansions@.len(),
                        forall|j: int|
                            start <= j < k ==> cp_trivial(
                                self@,
                                spec_unpack(#[trigger] self@.expansions[j]),
                            ),
                        forall|j: int|
                            start <= j < k ==> spec_pack(
                                spec_unpack(#[trigger] self@.expansions[j]),
                            ) == self@.expansions[j],
                    decreases stop - k,
                {
                    let entry: u32 = self.expansions[k];
                    let cp = crate::codepoint::unpack(entry);
                    if !self.check_cp_trivial(cp) {
                        proof {
                            reveal(descriptor_wf);
                        }
                        return false;
                    }
                    if crate::codepoint::pack(cp) != entry {
                        proof {
                            reveal(descriptor_wf);
                        }
                        return false;
                    }
                    k = k + 1;
                }
                proof {
                    reveal(descriptor_wf);
                }
                true
            },
            DecompositionValue::Hangul => d == 5 && 0xAC00 <= c && c <= 0xD7A3,
        }
    }

    /// True when the artifacts meet the whole data contract, exactly as
    /// [`table_wf`] demands: sound bounds, a well-formed descriptor for
    /// every scalar, and no work for ASCII, jamo, or anything above the
    /// last decomposing code point.
    pub fn well_formed(&self) -> (r: bool)
        ensures
            r == table_wf(self@),
    {
        if self.continuous_block_end as usize >= self.data.len()
            || self.continuous_block_end > 0x10FFFF {
            return false;
        }
        if self.index.len() != LAST_DECOMPOSING_CODEPOINT_BLOCK as usize + 1 {
            return false;
        }
        let mut bi: usize = 0;
        while bi < self.index.len()
            invariant
                bi <= self.index@.len(),
                forall|j: int|
                    0 <= j < bi ==> (#[trigger] self@.index[j] as int) * 128 + 128
                        <= self@.data.len(),
        decreases self.index@.len() - bi,
        {
            if (self.index[bi] as usize) * 128 + 128 > self.data.len() {
                return false;
            }
            bi = bi + 1;
        }
        proof {
            assert(table_shape_wf(self@));
        }
        let mut c: u32 = 0;
        while c < 0x110000
            invariant
                table_shape_wf(self@),
                c <= 0x110000,
                forall|x: u32|
                    x < c && is_scalar(x) ==> descriptor_wf(
                        self@,
                        x,
                        #[trigger] spec_lookup(self@, x),
                    ),
                forall|x: u32| x < c && x < 0x80 ==> #[trigger] spec_lookup(self@, x) == 0,
                forall|x: u32| x < c && is_jamo(x) ==> #[trigger] spec_lookup(self@, x) == 0,
                forall|x: u32|
                    x < c && is_scalar(x) && x > LAST_DECOMPOSING_CODEPOINT
                        ==> #[trigger] spec_lookup(self@, x) == 0,
            decreases 0x110000 - c,
        {
            if 0xD800 <= c && c <= 0xDFFF {
                proof {
                    assert(!is_scalar(c));
                    assert(!is_jamo(c));
                }
                c = c + 1;
                continue ;
            }
            proof {
                assert(is_scalar(c));
            }
            let d = self.get_decomposition_value(c);
            if !self.check_descriptor(c, d) {
                proof {
                    assert(!table_wf(self@));
                }
                return false;
            }
            if c < 0x80 && d != 0 {
                proof {
                    assert(!table_wf(self@));
                }
                return false;
            }
            let jamo: bool = (0x1100 <= c && c <= 0x1112) || (0x1161 <= c && c <= 0x1175) || (
            0x11A8 <= c && c <= 0x11C2);
            if jamo && d != 0 {
                proof {
                    assert(is_jamo(c));
                    assert(!table_wf(self@));
                }
                return false;
            }
            if c > LAST_DECOMPOSING_CODEPOINT && d != 0 {
                proof {
                    assert(!table_wf(self@));
                }
                return false;
            }
            proof {
                if !jamo {
                    assert(!is_jamo(c));
                }
            }
            c = c + 1;
        }
        proof {
            assert forall|x: u32| is_scalar(x) implies descriptor_wf(
                self@,
                x,
                #[trigger] spec_lookup(self@, x),
            ) by {
                assert(x <= 0x10FFFF);
            }
            assert(table_wf(self@));
        }
        true
    }
}

} // verus!
