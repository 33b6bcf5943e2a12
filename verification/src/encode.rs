//! Baking one code point into its packed 64-bit descriptor.
//!
//! The encoder picks the first shape that fits, in the order: starter,
//! non-starter, singleton, pair, 16-bit triple, expansion.  A decomposition
//! that would collide with the marker byte — a triple whose first code has a
//! marker-sized low byte — falls through to the expansion side-table, so
//! every baked descriptor reads back unambiguously.

use vstd::prelude::*;
use vstd::utf8::is_scalar;

use crate::codepoint::Codepoint;
use crate::codepoint::pack;
use crate::codepoint::spec_pack;
use crate::tables::expansion_descriptor;
use crate::tables::nonstarter_descriptor;
use crate::tables::pair_descriptor;
use crate::tables::singleton_descriptor;
use crate::tables::triple_descriptor;

verus! {

/// One code point as the baker sees it: its scalar value, its combining
/// class, and its fully-recursive decomposition for the chosen variant.
pub struct CodepointRecord {
    /// scalar value
    pub code: u32,
    /// Canonical Combining Class
    pub ccc: u8,
    /// the complete NFD or NFKD decomposition, empty when the code point
    /// does not decompose
    pub decomposition: Vec<Codepoint>,
}

/// True when the record's decomposition fits the compact 16-bit triple
/// shape: three starters-first small codes whose leading code cannot be
/// mistaken for a marker.
pub open spec fn fits_triple(dec: Seq<Codepoint>) -> bool {
    &&& dec.len() == 3
    &&& dec[0].ccc == 0
    &&& dec[0].code % 0x100 > 5
    &&& forall|i: int| 0 <= i < dec.len() ==> (#[trigger] dec[i]).code < 0x10000
}

/// Encode one code point for the data table: the packed descriptor, and the
/// packed entries to append to the expansions side-table (empty unless the
/// expansion shape was chosen).
pub fn encode_codepoint(record: &CodepointRecord, expansion_position: usize) -> (r: (
    u64,
    Vec<u32>,
))
    requires
        is_scalar(record.code),
        record.ccc != 0 ==> record.code < 0x40000,
        record.decomposition@.len() <= 18,
        forall|i: int|
            0 <= i < record.decomposition@.len() ==> (#[trigger] record.decomposition@[i]).code
                < 0x40000,
        expansion_position + record.decomposition@.len() <= 0xFFFF,
        record.ccc == 0 && record.decomposition@.len() > 0 ==> (record.decomposition@[0].ccc
            == 0 || forall|i: int|
            0 <= i < record.decomposition@.len() ==> (#[trigger] record.decomposition@[i]).ccc
                != 0),
    ensures
        ({
            let dec = record.decomposition@;
            &&& (record.ccc == 0 && dec.len() == 0 ==> r.0 == 0 && r.1@ == Seq::<u32>::empty())
            &&& (record.ccc != 0 && dec.len() == 0 ==> r.0 == nonstarter_descriptor(
                Codepoint { code: record.code, ccc: record.ccc },
            ) && r.1@ == Seq::<u32>::empty())
            &&& (record.ccc == 0 && dec.len() == 1 && dec[0].ccc == 0 ==> r.0
                == singleton_descriptor(dec[0].code) && r.1@ == Seq::<u32>::empty())
            &&& (record.ccc == 0 && dec.len() == 2 && dec[0].ccc == 0 ==> r.0
                == pair_descriptor(dec[0].code, dec[1]) && r.1@ == Seq::<u32>::empty())
            &&& (record.ccc == 0 && fits_triple(dec) ==> r.0 == triple_descriptor(
                dec[0].code,
                dec[1],
                dec[2],
            ) && r.1@ == Seq::<u32>::empty())
            &&& (dec.len() > 0 && !(record.ccc == 0 && dec.len() == 1 && dec[0].ccc == 0) && !(
            record.ccc == 0 && dec.len() == 2 && dec[0].ccc == 0) && !(record.ccc == 0
                && fits_triple(dec)) ==> r.0 == expansion_descriptor(
                expansion_position as u16,
                dec.len() as u8,
            ) && r.1@ == dec.map_values(|cp: Codepoint| spec_pack(cp)))
        }),
{
    let dec_len: usize = record.decomposition.len();
    if dec_len == 0 {
        if record.ccc == 0 {
            // starter without decomposition: the hot case, the whole word is 0
            return (0, Vec::new());
        }
        // non-starter without decomposition: itself, packed behind marker 1
        let d: u64 = 1 + (record.code as u64) * 0x100 + (record.ccc as u64) * 0x100000000;
        return (d, Vec::new());
    }
    let first = record.decomposition[0];
    if record.ccc == 0 && dec_len == 1 && first.ccc == 0 {
        // singleton: a starter that becomes one other starter
        let d: u64 = 4 + (first.code as u64) * 0x100;
        return (d, Vec::new());
    }
    if record.ccc == 0 && dec_len == 2 && first.ccc == 0 {
        // pair: a starter and one more code point
        let second = record.decomposition[1];
        let d: u64 = 2 + (first.code as u64) * 0x100 + (pack(second) as u64) * 0x100000000;
        return (d, Vec::new());
    }
    if record.ccc == 0 && dec_len == 3 && first.ccc == 0 && first.code % 0x100 > 5 {
        let second = record.decomposition[1];
        let third = record.decomposition[2];
        if first.code < 0x10000 && second.code < 0x10000 && third.code < 0x10000 {
            // triple of 16-bit codes; the low byte stays clear of the markers
            let d: u64 = (first.code as u64) + (second.code as u64) * 0x10000 + (second.ccc
                as u64) * 0x100000000 + (third.code as u64) * 0x10000000000 + (third.ccc
                as u64) * 0x100000000000000;
            proof {
                assert(fits_triple(record.decomposition@));
            }
            return (d, Vec::new());
        }
    }
    // everything else moves to the expansions side-table
    let mut entries: Vec<u32> = Vec::with_capacity(dec_len);
    let mut i: usize = 0;
    while i < dec_len
        invariant
            dec_len == record.decomposition@.len(),
            i <= dec_len,
            forall|j: int|
                0 <= j < record.decomposition@.len()
                    ==> (#[trigger] record.decomposition@[j]).code < 0x40000,
            entries@ == record.decomposition@.take(i as int).map_values(
                |cp: Codepoint| spec_pack(cp),
            ),
        decreases dec_len - i,
    {
        let cp = record.decomposition[i];
        entries.push(pack(cp));
        i = i + 1;
        proof {
            assert(record.decomposition@.take(i as int).drop_last()
                =~= record.decomposition@.take(i as int - 1));
            assert(entries@ =~= record.decomposition@.take(i as int).map_values(
                |cp: Codepoint| spec_pack(cp),
            ));
        }
    }
    proof {
        assert(record.decomposition@.take(dec_len as int) =~= record.decomposition@);
    }
    let d: u64 = 3 + (dec_len as u64) * 0x100 + (expansion_position as u64) * 0x10000;
    (d, entries)
}

} // verus!
