//! Properties of normalization that hold for every input: clean runs pass
//! through untouched, ASCII is a fixpoint, the output is canonically
//! ordered, and its length is bounded.

use vstd::prelude::*;
use vstd::utf8::is_ascii_chars;
use vstd::utf8::is_scalar;

use crate::codepoint::Codepoint;
use crate::codepoint::codes_of;
use crate::codepoint::cp_codes;
use crate::model::all_unmapped;
use crate::model::ccc_sort;
use crate::model::ccc_sorted;
use crate::model::decomp_all;
use crate::model::feed_buf;
use crate::model::feed_emit;
use crate::model::lemma_unmapped_run;
use crate::model::norm_codes;
use crate::model::norm_cps;
use crate::model::scalar_cps;
use crate::sorting::lemma_ccc_sort_len;
use crate::sorting::lemma_ccc_sort_sorted;
use crate::tables::TableView;
use crate::tables::descriptor_wf;
use crate::tables::spec_lookup;
use crate::tables::table_wf;

verus! {

/// Between any two starters, the combining classes of the intervening
/// non-starters are non-decreasing: within every maximal run of
/// non-starters, adjacent entries are ordered by CCC.
pub open spec fn canonically_ordered(s: Seq<Codepoint>) -> bool {
    forall|i: int|
        0 < i < s.len() && s[i - 1].ccc != 0 && (#[trigger] s[i]).ccc != 0 ==> s[i - 1].ccc
            <= s[i].ccc
}

/// Scalars that the tables leave alone come back exactly as they went in.
pub proof fn lemma_unmapped_fixpoint(t: TableView, s: Seq<u32>)
    requires
        all_unmapped(t, s),
    ensures
        norm_codes(t, s) == s,
{
    lemma_unmapped_run(t, s);
    assert(ccc_sort(Seq::<Codepoint>::empty()) == Seq::<Codepoint>::empty());
    assert(norm_cps(t, s) =~= decomp_all(t, s));
    assert(norm_codes(t, s) =~= s);
}

/// ASCII is a fixpoint: under well-formed tables, a string of scalars below
/// 0x80 normalizes to itself.
pub proof fn lemma_ascii_fixpoint(t: TableView, s: Seq<char>)
    requires
        table_wf(t),
        is_ascii_chars(s),
    ensures
        norm_codes(t, codes_of(s)) == codes_of(s),
{
    vstd::utf8::is_ascii_chars_nat_bound(s);
    let codes = codes_of(s);
    assert forall|i: int|
        0 <= i < codes.len() implies spec_lookup(t, #[trigger] codes[i]) == 0 by {
        assert(codes[i] == s[i] as u32);
        assert((s[i] as nat) < 128);
        assert(codes[i] < 0x80);
    }
    lemma_unmapped_fixpoint(t, codes);
}

/// Two character sequences with the same scalar values are the same
/// sequence.
pub proof fn lemma_codes_of_injective(a: Seq<char>, b: Seq<char>)
    requires
        codes_of(a) == codes_of(b),
        a.len() == b.len(),
    ensures
        a == b,
{
    assert forall|i: int| 0 <= i < a.len() implies a[i] == #[trigger] b[i] by {
        assert(codes_of(a)[i] == a[i] as u32);
        assert(codes_of(b)[i] == b[i] as u32);
        vstd::utf8::char_u32_cast(a[i], a[i] as u32);
        vstd::utf8::char_u32_cast(b[i], b[i] as u32);
    }
    assert(a =~= b);
}

/// The emission half of canonical ordering always produces ordered output,
/// and whatever it emits ends with a starter.
proof fn lemma_feed_emit_ordered(buf: Seq<Codepoint>, cps: Seq<Codepoint>)
    ensures
        canonically_ordered(feed_emit(buf, cps)),
        feed_emit(buf, cps).len() > 0 ==> feed_emit(buf, cps).last().ccc == 0,
    decreases cps.len(),
{
    if cps.len() == 0 {
    } else if cps[0].ccc == 0 {
        let sorted = ccc_sort(buf);
        let rest = feed_emit(seq![], cps.drop_first());
        lemma_feed_emit_ordered(seq![], cps.drop_first());
        lemma_ccc_sort_sorted(buf);
        let r = feed_emit(buf, cps);
        assert(r == sorted + seq![cps[0]] + rest);
        let n1 = sorted.len() as int;
        assert forall|i: int|
            0 < i < r.len() && r[i - 1].ccc != 0 && (#[trigger] r[i]).ccc != 0 implies r[i
            - 1].ccc <= r[i].ccc by {
            if i < n1 {
                assert(r[i - 1] == sorted[i - 1]);
                assert(r[i] == sorted[i]);
                assert(ccc_sorted(sorted));
            } else if i == n1 {
                assert(r[i] == cps[0]);
            } else if i == n1 + 1 {
                assert(r[i - 1] == cps[0]);
            } else {
                assert(r[i - 1] == rest[i - 1 - (n1 + 1)]);
                assert(r[i] == rest[i - (n1 + 1)]);
                assert(canonically_ordered(rest));
            }
        }
        if rest.len() > 0 {
            assert(r.last() == rest.last());
        } else {
            assert(r.last() == cps[0]);
        }
    } else {
        lemma_feed_emit_ordered(buf.push(cps[0]), cps.drop_first());
    }
}

/// Canonical ordering: the normalized output is canonically ordered —
/// within every run of non-starters between two starters, the CCCs are
/// non-decreasing.
pub proof fn lemma_norm_canonically_ordered(t: TableView, s: Seq<u32>)
    ensures
        canonically_ordered(norm_cps(t, s)),
{
    let d = decomp_all(t, s);
    let emitted = feed_emit(seq![], d);
    let pending = ccc_sort(feed_buf(seq![], d));
    lemma_feed_emit_ordered(seq![], d);
    lemma_ccc_sort_sorted(feed_buf(seq![], d));
    let r = norm_cps(t, s);
    assert(r == emitted + pending);
    let n1 = emitted.len() as int;
    assert forall|i: int|
        0 < i < r.len() && r[i - 1].ccc != 0 && (#[trigger] r[i]).ccc != 0 implies r[i - 1].ccc
        <= r[i].ccc by {
        if i < n1 {
            assert(r[i - 1] == emitted[i - 1]);
            assert(r[i] == emitted[i]);
            assert(canonically_ordered(emitted));
        } else if i == n1 {
            assert(r[i - 1] == emitted.last());
        } else {
            assert(r[i - 1] == pending[i - 1 - n1]);
            assert(r[i] == pending[i - n1]);
            assert(ccc_sorted(pending));
        }
    }
}

/// Feeding conserves code points: what is emitted plus what is pending is
/// exactly what went in.
proof fn lemma_feed_len(buf: Seq<Codepoint>, cps: Seq<Codepoint>)
    ensures
        feed_emit(buf, cps).len() + feed_buf(buf, cps).len() == buf.len() + cps.len(),
    decreases cps.len(),
{
    if cps.len() == 0 {
    } else if cps[0].ccc == 0 {
        lemma_feed_len(seq![], cps.drop_first());
        lemma_ccc_sort_len(buf);
    } else {
        lemma_feed_len(buf.push(cps[0]), cps.drop_first());
    }
}

/// No descriptor prescribes more than 18 code points.
proof fn lemma_scalar_cps_bound(t: TableView, c: u32)
    requires
        table_wf(t),
        is_scalar(c),
    ensures
        1 <= scalar_cps(t, c).len() <= 18,
{
    reveal(crate::model::scalar_cps);
    reveal(crate::tables::descriptor_wf);
    assert(descriptor_wf(t, c, spec_lookup(t, c)));
}

/// The decomposition of a scalar sequence holds at most 18 code points per
/// scalar.
proof fn lemma_decomp_all_bound(t: TableView, s: Seq<u32>)
    requires
        table_wf(t),
        forall|i: int| 0 <= i < s.len() ==> is_scalar(#[trigger] s[i]),
    ensures
        decomp_all(t, s).len() <= 18 * s.len(),
    decreases s.len(),
{
    if s.len() == 0 {
    } else {
        let rest = s.drop_first();
        assert(forall|i: int| 0 <= i < rest.len() ==> rest[i] == #[trigger] s[i + 1]);
        lemma_decomp_all_bound(t, rest);
        lemma_scalar_cps_bound(t, s[0]);
    }
}

/// Output bound: normalization emits at most 18 scalars per input scalar.
pub proof fn lemma_norm_length_bound(t: TableView, s: Seq<u32>)
    requires
        table_wf(t),
        forall|i: int| 0 <= i < s.len() ==> is_scalar(#[trigger] s[i]),
    ensures
        norm_codes(t, s).len() <= 18 * s.len(),
{
    let d = decomp_all(t, s);
    lemma_decomp_all_bound(t, s);
    lemma_feed_len(seq![], d);
    lemma_ccc_sort_len(feed_buf(seq![], d));
    assert(norm_cps(t, s).len() == d.len());
}


/// A code point the tables leave alone: a starter with descriptor 0, or a
/// non-starter whose descriptor repeats exactly the code point itself.
/// Everything normalization emits is of this kind, which is what makes a
/// second pass a no-op.
pub open spec fn cp_inert(t: TableView, cp: Codepoint) -> bool {
    &&& is_scalar(cp.code)
    &&& (cp.ccc == 0 ==> spec_lookup(t, cp.code) == 0)
    &&& (cp.ccc != 0 ==> cp.code < 0x40000 && spec_lookup(t, cp.code)
        == crate::tables::nonstarter_descriptor(cp))
}

/// Every entry of the sequence is inert.
pub open spec fn inert_seq(t: TableView, s: Seq<Codepoint>) -> bool {
    forall|i: int| 0 <= i < s.len() ==> cp_inert(t, #[trigger] s[i])
}

/// Whatever one descriptor prescribes is inert.
proof fn lemma_scalar_cps_inert(t: TableView, c: u32)
    requires
        table_wf(t),
        is_scalar(c),
    ensures
        inert_seq(t, scalar_cps(t, c)),
{
    reveal(crate::model::scalar_cps);
    reveal(crate::tables::descriptor_wf);
    let d = spec_lookup(t, c);
    assert(descriptor_wf(t, c, d));
    let cps = scalar_cps(t, c);
    match crate::decomposition::spec_parse_data_value(d) {
        crate::decomposition::DecompositionValue::Starter => {
            assert(cps[0] == Codepoint { code: c, ccc: 0 });
        },
        crate::decomposition::DecompositionValue::Nonstarter(cp) => {
            assert(cps[0] == cp);
        },
        crate::decomposition::DecompositionValue::Pair(c1, c2) => {
            assert(cps[0] == c1 && cps[1] == c2);
        },
        crate::decomposition::DecompositionValue::Triple(c1, c2, c3) => {
            assert(cps[0] == c1 && cps[1] == c2 && cps[2] == c3);
        },
        crate::decomposition::DecompositionValue::Singleton(c1) => {
            assert(cps[0] == c1);
        },
        crate::decomposition::DecompositionValue::Expansion(index, count) => {
            assert forall|i: int| 0 <= i < cps.len() implies cp_inert(t, #[trigger] cps[i]) by {
                assert(cps[i] == crate::codepoint::spec_unpack(t.expansions[index + i]));
                assert(crate::tables::cp_trivial(
                    t,
                    crate::codepoint::spec_unpack(t.expansions[index + i]),
                ));
            }
        },
        crate::decomposition::DecompositionValue::Hangul => {
            crate::hangul::lemma_hangul_jamo_ranges(c);
            assert forall|i: int| 0 <= i < cps.len() implies cp_inert(t, #[trigger] cps[i]) by {
                assert(crate::tables::is_jamo(cps[i].code));
                assert(spec_lookup(t, cps[i].code) == 0);
            }
        },
    }
}

/// Whatever a whole input decomposes to is inert.
proof fn lemma_decomp_all_inert(t: TableView, s: Seq<u32>)
    requires
        table_wf(t),
        forall|i: int| 0 <= i < s.len() ==> is_scalar(#[trigger] s[i]),
    ensures
        inert_seq(t, decomp_all(t, s)),
    decreases s.len(),
{
    if s.len() == 0 {
    } else {
        let rest = s.drop_first();
        assert(forall|i: int| 0 <= i < rest.len() ==> rest[i] == #[trigger] s[i + 1]);
        lemma_decomp_all_inert(t, rest);
        lemma_scalar_cps_inert(t, s[0]);
        let head = scalar_cps(t, s[0]);
        let d = decomp_all(t, s);
        assert forall|i: int| 0 <= i < d.len() implies cp_inert(t, #[trigger] d[i]) by {
            if i < head.len() {
                assert(d[i] == head[i]);
            } else {
                assert(d[i] == decomp_all(t, rest)[i - head.len()]);
            }
        }
    }
}

/// Sorting keeps inertness.
proof fn lemma_ccc_sort_inert(t: TableView, s: Seq<Codepoint>)
    requires
        inert_seq(t, s),
    ensures
        inert_seq(t, ccc_sort(s)),
{
    crate::sorting::lemma_ccc_sort_contains(s);
    assert forall|i: int|
        0 <= i < ccc_sort(s).len() implies cp_inert(t, #[trigger] ccc_sort(s)[i]) by {
        assert(ccc_sort(s).contains(ccc_sort(s)[i]));
        assert(s.contains(ccc_sort(s)[i]));
        let k = choose|k: int| 0 <= k < s.len() && s[k] == ccc_sort(s)[i];
        assert(cp_inert(t, s[k]));
    }
}

/// Feeding keeps inertness, on both the emitted and the pending side.
proof fn lemma_feed_inert(t: TableView, buf: Seq<Codepoint>, cps: Seq<Codepoint>)
    requires
        inert_seq(t, buf),
        inert_seq(t, cps),
    ensures
        inert_seq(t, feed_emit(buf, cps)),
        inert_seq(t, feed_buf(buf, cps)),
    decreases cps.len(),
{
    if cps.len() == 0 {
    } else {
        let rest = cps.drop_first();
        assert(forall|i: int| 0 <= i < rest.len() ==> rest[i] == #[trigger] cps[i + 1]);
        if cps[0].ccc == 0 {
            lemma_feed_inert(t, seq![], rest);
            lemma_ccc_sort_inert(t, buf);
            let r = feed_emit(buf, cps);
            let sorted = ccc_sort(buf);
            assert(r == sorted + seq![cps[0]] + feed_emit(seq![], rest));
            assert forall|i: int| 0 <= i < r.len() implies cp_inert(t, #[trigger] r[i]) by {
                let n1 = sorted.len() as int;
                if i < n1 {
                    assert(r[i] == sorted[i]);
                } else if i == n1 {
                    assert(r[i] == cps[0]);
                } else {
                    assert(r[i] == feed_emit(seq![], rest)[i - (n1 + 1)]);
                }
            }
        } else {
            let pushed = buf.push(cps[0]);
            assert forall|i: int|
                0 <= i < pushed.len() implies cp_inert(t, #[trigger] pushed[i]) by {
                if i < buf.len() {
                    assert(pushed[i] == buf[i]);
                } else {
                    assert(pushed[i] == cps[0]);
                }
            }
            lemma_feed_inert(t, pushed, rest);
        }
    }
}

/// A non-starter's self-descriptor reads back as exactly that non-starter.
proof fn lemma_nonstarter_roundtrip(cp: Codepoint)
    requires
        cp.ccc != 0,
        cp.code < 0x40000,
    ensures
        crate::decomposition::spec_parse_data_value(crate::tables::nonstarter_descriptor(cp))
            == crate::decomposition::DecompositionValue::Nonstarter(cp),
{
    let code = cp.code as int;
    let ccc = cp.ccc as int;
    let d = 1 + code * 0x100 + ccc * 0x100000000;
    assert(crate::tables::nonstarter_descriptor(cp) == d as u64);
    assert(0 <= d < 0x10000000000000000) by (nonlinear_arith)
        requires
            0 <= code < 0x40000 && 0 < ccc < 0x100 && d == 1 + code * 0x100 + ccc
                * 0x100000000,
    ;
    assert(d % 0x100 == 1 && (d / 0x100) % 0x40000 == code && (d / 0x100000000) % 0x100
        == ccc) by (nonlinear_arith)
        requires
            0 <= code < 0x40000 && 0 < ccc < 0x100 && d == 1 + code * 0x100 + ccc
                * 0x100000000,
    ;
}

/// Inert code points decompose back to themselves.
proof fn lemma_inert_decomp(t: TableView, cps: Seq<Codepoint>)
    requires
        inert_seq(t, cps),
    ensures
        decomp_all(t, cp_codes(cps)) == cps,
    decreases cps.len(),
{
    reveal(crate::model::scalar_cps);
    let codes = cp_codes(cps);
    if cps.len() == 0 {
        assert(codes =~= Seq::<u32>::empty());
        assert(decomp_all(t, codes) =~= cps);
    } else {
        let c0 = cps[0];
        assert(codes[0] == c0.code);
        let head = scalar_cps(t, c0.code);
        if c0.ccc == 0 {
            assert(spec_lookup(t, c0.code) == 0);
            assert(head =~= seq![c0]);
        } else {
            lemma_nonstarter_roundtrip(c0);
            assert(head =~= seq![c0]);
        }
        let rest = cps.drop_first();
        assert(forall|i: int| 0 <= i < rest.len() ==> rest[i] == #[trigger] cps[i + 1]);
        lemma_inert_decomp(t, rest);
        assert(codes.drop_first() =~= cp_codes(rest));
        assert(decomp_all(t, codes) == head + decomp_all(t, codes.drop_first()));
        assert(decomp_all(t, codes) =~= cps);
    }
}

/// The pending buffer only ever holds non-starters.
proof fn lemma_feed_buf_nonstarters(buf: Seq<Codepoint>, cps: Seq<Codepoint>)
    requires
        forall|i: int| 0 <= i < buf.len() ==> (#[trigger] buf[i]).ccc != 0,
    ensures
        forall|i: int|
            0 <= i < feed_buf(buf, cps).len() ==> (#[trigger] feed_buf(buf, cps)[i]).ccc != 0,
    decreases cps.len(),
{
    if cps.len() == 0 {
    } else if cps[0].ccc == 0 {
        lemma_feed_buf_nonstarters(seq![], cps.drop_first());
        assert(feed_buf(buf, cps) == feed_buf(seq![], cps.drop_first()));
    } else {
        let pushed = buf.push(cps[0]);
        assert forall|i: int|
            0 <= i < pushed.len() implies (#[trigger] pushed[i]).ccc != 0 by {
            if i < buf.len() {
                assert(pushed[i] == buf[i]);
            } else {
                assert(pushed[i] == cps[0]);
            }
        }
        lemma_feed_buf_nonstarters(pushed, cps.drop_first());
        assert(feed_buf(buf, cps) == feed_buf(pushed, cps.drop_first()));
    }
}

/// Reordering a canonically ordered sequence is the identity.
proof fn lemma_reorder_identity(x: Seq<Codepoint>)
    requires
        canonically_ordered(x),
    ensures
        feed_emit(seq![], x) + ccc_sort(feed_buf(seq![], x)) == x,
    decreases x.len(),
{
    if x.len() == 0 {
        assert(ccc_sort(Seq::<Codepoint>::empty()) == Seq::<Codepoint>::empty());
        assert(feed_emit(seq![], x) + ccc_sort(feed_buf(seq![], x)) =~= x);
    } else {
        let y = x.drop_last();
        let e = x.last();
        assert(canonically_ordered(y)) by {
            assert(forall|i: int| 0 <= i < y.len() ==> y[i] == #[trigger] x[i]);
        }
        lemma_reorder_identity(y);
        assert(x =~= y.push(e));
        crate::model::lemma_feed_snoc(seq![], y, e);
        let fe = feed_emit(seq![], y);
        let fb = feed_buf(seq![], y);
        if e.ccc == 0 {
            assert(feed_buf(seq![], x) == Seq::<Codepoint>::empty());
            assert(ccc_sort(Seq::<Codepoint>::empty()) == Seq::<Codepoint>::empty());
            assert(feed_emit(seq![], x) + ccc_sort(feed_buf(seq![], x)) =~= (fe + ccc_sort(fb))
                + seq![e]);
            assert((fe + ccc_sort(fb)) + seq![e] =~= y.push(e));
        } else {
            assert(feed_emit(seq![], x) == fe);
            assert(feed_buf(seq![], x) == fb.push(e));
            assert(fb.push(e).drop_last() =~= fb);
            assert(fb.push(e).last() == e);
            assert(ccc_sort(fb.push(e)) == crate::model::insert_by_ccc(ccc_sort(fb), e));
            lemma_ccc_sort_len(fb);
            if fb.len() == 0 {
                assert(ccc_sort(fb) == fb);
                assert(crate::model::insert_by_ccc(ccc_sort(fb), e) =~= seq![e]);
                assert(y =~= fe);
                assert(fe + ccc_sort(fb.push(e)) =~= y.push(e));
            } else {
                lemma_feed_buf_nonstarters(seq![], y);
                crate::sorting::lemma_ccc_sort_contains(fb);
                let sorted = ccc_sort(fb);
                assert(sorted.len() > 0);
                assert(sorted.last().ccc != 0) by {
                    assert(sorted.contains(sorted.last()));
                    assert(fb.contains(sorted.last()));
                    let k = choose|k: int| 0 <= k < fb.len() && fb[k] == sorted.last();
                    assert(fb[k].ccc != 0);
                }
                assert(y.last() == sorted.last()) by {
                    assert(y == fe + sorted);
                    assert(y[y.len() - 1] == sorted[sorted.len() - 1]);
                }
                assert(y.last().ccc <= e.ccc) by {
                    assert(x[x.len() - 2] == y.last());
                    assert(x[x.len() - 1] == e);
                    assert(canonically_ordered(x));
                }
                assert(crate::model::insert_by_ccc(sorted, e) == sorted.push(e));
                assert(fe + ccc_sort(fb.push(e)) =~= (fe + sorted).push(e));
                assert((fe + sorted).push(e) =~= y.push(e));
            }
        }
    }
}

/// Idempotence: normalizing an already-normalized sequence changes nothing.
pub proof fn lemma_idempotent(t: TableView, s: Seq<u32>)
    requires
        table_wf(t),
        forall|i: int| 0 <= i < s.len() ==> is_scalar(#[trigger] s[i]),
    ensures
        norm_codes(t, norm_codes(t, s)) == norm_codes(t, s),
{
    let d = decomp_all(t, s);
    let y = norm_cps(t, s);
    lemma_decomp_all_inert(t, s);
    lemma_feed_inert(t, seq![], d);
    lemma_ccc_sort_inert(t, feed_buf(seq![], d));
    assert(inert_seq(t, y)) by {
        let emitted = feed_emit(seq![], d);
        let pending = ccc_sort(feed_buf(seq![], d));
        assert(y == emitted + pending);
        assert forall|i: int| 0 <= i < y.len() implies cp_inert(t, #[trigger] y[i]) by {
            if i < emitted.len() {
                assert(y[i] == emitted[i]);
            } else {
                assert(y[i] == pending[i - emitted.len()]);
            }
        }
    }
    lemma_norm_canonically_ordered(t, s);
    lemma_inert_decomp(t, y);
    lemma_reorder_identity(y);
    assert(norm_codes(t, s) == cp_codes(y));
    assert(norm_cps(t, cp_codes(y)) == crate::model::reorder(y));
    assert(crate::model::reorder(y) == y);
    assert(norm_codes(t, norm_codes(t, s)) =~= norm_codes(t, s));
}


/// Hangul round-trip: a precomposed syllable carrying the Hangul marker
/// normalizes to exactly its L and V jamo, and its T jamo when the trailing
/// index is non-zero; all are starters, so nothing is ever buffered.
pub proof fn lemma_hangul_decomposition(t: TableView, c: u32)
    requires
        crate::hangul::is_hangul_syllable(c),
        spec_lookup(t, c) == 5,
    ensures
        norm_codes(t, seq![c]) == cp_codes(crate::hangul::spec_hangul_cps(c)),
        feed_buf(Seq::<Codepoint>::empty(), decomp_all(t, seq![c])) == Seq::<
            Codepoint,
        >::empty(),
{
    reveal(crate::model::scalar_cps);
    let cps = crate::hangul::spec_hangul_cps(c);
    crate::hangul::lemma_hangul_jamo_ranges(c);
    assert(scalar_cps(t, c) == cps);
    assert(seq![c].drop_first() =~= Seq::<u32>::empty());
    assert(decomp_all(t, Seq::<u32>::empty()) == Seq::<Codepoint>::empty());
    assert(decomp_all(t, seq![c]) =~= cps);
    assert(cps.len() > 0);
    assert(forall|i: int| 0 <= i < cps.len() ==> (#[trigger] cps[i]).ccc == 0);
    crate::model::lemma_feed_starters(Seq::<Codepoint>::empty(), cps);
    assert(ccc_sort(Seq::<Codepoint>::empty()) == Seq::<Codepoint>::empty());
    assert(norm_cps(t, seq![c]) =~= cps);
}


/// The two corollaries `normalize` states about itself: the output has at
/// most 18 characters per input character, and ASCII input comes back
/// identical.
pub proof fn lemma_normalize_corollaries(t: TableView, input: Seq<char>, result: Seq<char>)
    requires
        table_wf(t),
        codes_of(result) == norm_codes(t, codes_of(input)),
    ensures
        result.len() <= 18 * input.len(),
        is_ascii_chars(input) ==> result == input,
{
    let codes = codes_of(input);
    assert forall|i: int| 0 <= i < codes.len() implies is_scalar(#[trigger] codes[i]) by {
        assert(codes[i] == input[i] as u32);
        vstd::utf8::char_is_scalar(input[i]);
    }
    lemma_norm_length_bound(t, codes);
    assert(codes_of(result).len() == result.len());
    assert(codes.len() == input.len());
    if is_ascii_chars(input) {
        lemma_ascii_fixpoint(t, input);
        lemma_codes_of_injective(result, input);
    }
}

} // verus!
