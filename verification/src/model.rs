//! The mathematical model of decomposing normalization.
//!
//! A scalar contributes the code points its descriptor prescribes
//! ([`scalar_cps`]); an input contributes the concatenation of those
//! contributions ([`decomp_all`]); the Canonical Ordering Algorithm then
//! stably sorts every maximal run of non-starters by CCC ([`reorder`]).
//! [`norm_codes`] composes the three; `normalize` promises exactly it.

use vstd::prelude::*;

use crate::codepoint::Codepoint;
use crate::codepoint::cp_codes;
use crate::codepoint::spec_unpack;
use crate::decomposition::DecompositionValue;
use crate::decomposition::spec_parse_data_value;
use crate::hangul::spec_hangul_cps;
use crate::tables::TableView;
use crate::tables::spec_lookup;

verus! {

/// Insert `x` into the already-sorted `s`, after every entry whose CCC does
/// not exceed `x`'s — the stable position.
pub open spec fn insert_by_ccc(s: Seq<Codepoint>, x: Codepoint) -> Seq<Codepoint>
    decreases s.len(),
{
    if s.len() == 0 {
        seq![x]
    } else if s.last().ccc <= x.ccc {
        s.push(x)
    } else {
        insert_by_ccc(s.drop_last(), x).push(s.last())
    }
}

/// Stable sort by CCC: insertion sort, which keeps entries of equal CCC in
/// their original relative order.
pub open spec fn ccc_sort(s: Seq<Codepoint>) -> Seq<Codepoint>
    decreases s.len(),
{
    if s.len() == 0 {
        s
    } else {
        insert_by_ccc(ccc_sort(s.drop_last()), s.last())
    }
}

/// Non-decreasing CCC over the whole sequence.
pub open spec fn ccc_sorted(s: Seq<Codepoint>) -> bool {
    forall|i: int, j: int| 0 <= i < j < s.len() ==> #[trigger] s[i].ccc <= #[trigger] s[j].ccc
}

/// The code points scalar `c` contributes to the output before reordering,
/// as its descriptor in `t` prescribes.
#[verifier::opaque]
pub open spec fn scalar_cps(t: TableView, c: u32) -> Seq<Codepoint> {
    match spec_parse_data_value(spec_lookup(t, c)) {
        DecompositionValue::Starter => seq![Codepoint { code: c, ccc: 0 }],
        DecompositionValue::Nonstarter(cp) => seq![cp],
        DecompositionValue::Pair(c1, c2) => seq![c1, c2],
        DecompositionValue::Triple(c1, c2, c3) => seq![c1, c2, c3],
        DecompositionValue::Singleton(c1) => seq![c1],
        DecompositionValue::Expansion(index, count) => Seq::new(
            count as nat,
            |k: int| spec_unpack(t.expansions[index + k]),
        ),
        DecompositionValue::Hangul => spec_hangul_cps(c),
    }
}

/// The concatenated contributions of every scalar of `s`.
pub open spec fn decomp_all(t: TableView, s: Seq<u32>) -> Seq<Codepoint>
    decreases s.len(),
{
    if s.len() == 0 {
        seq![]
    } else {
        scalar_cps(t, s[0]) + decomp_all(t, s.drop_first())
    }
}

/// Canonical ordering, emission half: feed `cps` through a pending buffer of
/// non-starters; a starter flushes the sorted buffer and follows it out.
pub open spec fn feed_emit(buf: Seq<Codepoint>, cps: Seq<Codepoint>) -> Seq<Codepoint>
    decreases cps.len(),
{
    if cps.len() == 0 {
        seq![]
    } else if cps[0].ccc == 0 {
        ccc_sort(buf) + seq![cps[0]] + feed_emit(seq![], cps.drop_first())
    } else {
        feed_emit(buf.push(cps[0]), cps.drop_first())
    }
}

/// Canonical ordering, buffer half: the non-starters still pending after
/// `cps` has been fed through.
pub open spec fn feed_buf(buf: Seq<Codepoint>, cps: Seq<Codepoint>) -> Seq<Codepoint>
    decreases cps.len(),
{
    if cps.len() == 0 {
        buf
    } else if cps[0].ccc == 0 {
        feed_buf(seq![], cps.drop_first())
    } else {
        feed_buf(buf.push(cps[0]), cps.drop_first())
    }
}

/// The Canonical Ordering Algorithm: every maximal run of non-starters,
/// stably sorted by CCC.
pub open spec fn reorder(cps: Seq<Codepoint>) -> Seq<Codepoint> {
    feed_emit(seq![], cps) + ccc_sort(feed_buf(seq![], cps))
}

/// The normalized form of the scalars `s` under the tables `t`.
pub open spec fn norm_cps(t: TableView, s: Seq<u32>) -> Seq<Codepoint> {
    reorder(decomp_all(t, s))
}

/// The normalized form of the scalars `s`, as scalars.
pub open spec fn norm_codes(t: TableView, s: Seq<u32>) -> Seq<u32> {
    cp_codes(norm_cps(t, s))
}

/// Every scalar of `s` has descriptor 0: a starter that the tables leave
/// alone.
pub open spec fn all_unmapped(t: TableView, s: Seq<u32>) -> bool {
    forall|i: int| 0 <= i < s.len() ==> spec_lookup(t, #[trigger] s[i]) == 0
}

/// Decomposition distributes over concatenation.
pub proof fn lemma_decomp_all_concat(t: TableView, a: Seq<u32>, b: Seq<u32>)
    ensures
        decomp_all(t, a + b) == decomp_all(t, a) + decomp_all(t, b),
    decreases a.len(),
{
    if a.len() == 0 {
        assert(a + b =~= b);
        assert(decomp_all(t, a) + decomp_all(t, b) =~= decomp_all(t, b));
    } else {
        assert((a + b).drop_first() =~= a.drop_first() + b);
        lemma_decomp_all_concat(t, a.drop_first(), b);
        assert(decomp_all(t, a + b) =~= decomp_all(t, a) + decomp_all(t, b));
    }
}

/// Feeding a concatenation emits what the first part emits, then what the
/// second part emits from the buffer the first part leaves behind.
pub proof fn lemma_feed_concat(buf: Seq<Codepoint>, a: Seq<Codepoint>, b: Seq<Codepoint>)
    ensures
        feed_emit(buf, a + b) == feed_emit(buf, a) + feed_emit(feed_buf(buf, a), b),
        feed_buf(buf, a + b) == feed_buf(feed_buf(buf, a), b),
    decreases a.len(),
{
    if a.len() == 0 {
        assert(a + b =~= b);
        assert(feed_emit(buf, a) + feed_emit(feed_buf(buf, a), b) =~= feed_emit(buf, b));
    } else {
        assert((a + b).drop_first() =~= a.drop_first() + b);
        if a[0].ccc == 0 {
            lemma_feed_concat(seq![], a.drop_first(), b);
            assert(feed_emit(buf, a + b) =~= feed_emit(buf, a) + feed_emit(feed_buf(buf, a), b));
        } else {
            lemma_feed_concat(buf.push(a[0]), a.drop_first(), b);
            assert(feed_emit(buf, a + b) =~= feed_emit(buf, a) + feed_emit(feed_buf(buf, a), b));
        }
    }
}

/// Sorting a single entry leaves it alone.
pub proof fn lemma_ccc_sort_single(x: Codepoint)
    ensures
        ccc_sort(seq![x]) == seq![x],
{
    let s = seq![x];
    assert(s.drop_last() =~= Seq::<Codepoint>::empty());
    assert(ccc_sort(s.drop_last()) == Seq::<Codepoint>::empty());
    assert(insert_by_ccc(Seq::<Codepoint>::empty(), x) =~= seq![x]);
}

/// Feeding one more code point: a starter flushes the sorted buffer and
/// follows it; a non-starter joins the buffer.
pub proof fn lemma_feed_snoc(buf: Seq<Codepoint>, s: Seq<Codepoint>, x: Codepoint)
    ensures
        x.ccc == 0 ==> feed_emit(buf, s.push(x)) == feed_emit(buf, s) + ccc_sort(
            feed_buf(buf, s),
        ) + seq![x],
        x.ccc == 0 ==> feed_buf(buf, s.push(x)) == Seq::<Codepoint>::empty(),
        x.ccc != 0 ==> feed_emit(buf, s.push(x)) == feed_emit(buf, s),
        x.ccc != 0 ==> feed_buf(buf, s.push(x)) == feed_buf(buf, s).push(x),
{
    assert(s.push(x) =~= s + seq![x]);
    lemma_feed_concat(buf, s, seq![x]);
    let mid = feed_buf(buf, s);
    let one = seq![x];
    assert(one.drop_first() =~= Seq::<Codepoint>::empty());
    if x.ccc == 0 {
        assert(feed_emit(mid, one) =~= ccc_sort(mid) + seq![x] + feed_emit(
            seq![],
            Seq::<Codepoint>::empty(),
        ));
        assert(feed_emit(mid, one) =~= ccc_sort(mid) + seq![x]);
        assert(feed_emit(buf, s.push(x)) =~= feed_emit(buf, s) + ccc_sort(mid) + seq![x]);
        assert(feed_buf(seq![], Seq::<Codepoint>::empty()) == Seq::<Codepoint>::empty());
        assert(feed_buf(mid, one) =~= Seq::<Codepoint>::empty());
    } else {
        assert(feed_emit(mid.push(x), Seq::<Codepoint>::empty()) == Seq::<Codepoint>::empty());
        assert(feed_emit(mid, one) =~= Seq::<Codepoint>::empty());
        assert(feed_emit(buf, s.push(x)) =~= feed_emit(buf, s));
        assert(feed_buf(mid.push(x), Seq::<Codepoint>::empty()) == mid.push(x));
        assert(feed_buf(mid, one) =~= mid.push(x));
    }
}

/// Feeding a non-empty run of starters flushes the sorted buffer once, then
/// emits the run as it stands; nothing is left pending.
pub proof fn lemma_feed_starters(buf: Seq<Codepoint>, cps: Seq<Codepoint>)
    requires
        cps.len() > 0,
        forall|i: int| 0 <= i < cps.len() ==> #[trigger] cps[i].ccc == 0,
    ensures
        feed_emit(buf, cps) == ccc_sort(buf) + cps,
        feed_buf(buf, cps) == Seq::<Codepoint>::empty(),
    decreases cps.len(),
{
    let rest = cps.drop_first();
    if rest.len() == 0 {
        assert(feed_emit(seq![], rest) == Seq::<Codepoint>::empty());
        assert(feed_buf(seq![], rest) == Seq::<Codepoint>::empty());
        assert(feed_emit(buf, cps) =~= ccc_sort(buf) + cps);
    } else {
        assert(forall|i: int| 0 <= i < rest.len() ==> rest[i] == #[trigger] cps[i + 1]);
        lemma_feed_starters(seq![], rest);
        assert(ccc_sort(Seq::<Codepoint>::empty()) == Seq::<Codepoint>::empty());
        assert(feed_emit(seq![], rest) == ccc_sort(seq![]) + rest);
        assert(feed_emit(buf, cps) =~= ccc_sort(buf) + cps);
        assert(feed_buf(buf, cps) == feed_buf(seq![], rest));
    }
}

/// Scalars that the tables leave alone pass through normalization untouched:
/// they decompose to themselves and, being starters, never enter the buffer.
pub proof fn lemma_unmapped_run(t: TableView, s: Seq<u32>)
    requires
        all_unmapped(t, s),
    ensures
        cp_codes(decomp_all(t, s)) == s,
        feed_emit(seq![], decomp_all(t, s)) == decomp_all(t, s),
        feed_buf(seq![], decomp_all(t, s)) == Seq::<Codepoint>::empty(),
        forall|i: int|
            0 <= i < decomp_all(t, s).len() ==> #[trigger] decomp_all(t, s)[i].ccc == 0,
    decreases s.len(),
{
    reveal(crate::model::scalar_cps);
    if s.len() == 0 {
        assert(cp_codes(decomp_all(t, s)) =~= s);
        assert(feed_emit(seq![], decomp_all(t, s)) =~= decomp_all(t, s));
        assert(feed_buf(seq![], decomp_all(t, s)) =~= Seq::<Codepoint>::empty());
    } else {
        let rest = s.drop_first();
        assert(all_unmapped(t, rest)) by {
            assert(forall|i: int|
                0 <= i < rest.len() ==> rest[i] == #[trigger] s[i + 1]);
        }
        lemma_unmapped_run(t, rest);
        assert(spec_lookup(t, s[0]) == 0);
        let head = scalar_cps(t, s[0]);
        assert(head =~= seq![Codepoint { code: s[0], ccc: 0 }]);
        let d = decomp_all(t, s);
        assert(d == head + decomp_all(t, rest));
        assert(d.drop_first() =~= decomp_all(t, rest));
        assert(d[0].ccc == 0);
        assert(forall|i: int|
            1 <= i < d.len() ==> #[trigger] d[i] == decomp_all(t, rest)[i - 1]);
        assert(forall|i: int|
            1 <= i < d.len() ==> #[trigger] d[i].code == cp_codes(decomp_all(t, rest))[i - 1]);
        assert(cp_codes(d) =~= s);
        assert(ccc_sort(seq![]) =~= Seq::<Codepoint>::empty());
        assert(feed_emit(seq![], d) =~= d);
        assert(feed_buf(seq![], d) =~= Seq::<Codepoint>::empty());
    }
}

/// Appending a run of scalars that the tables leave alone: the run flushes
/// the pending buffer once (if the run is non-empty) and passes through.
pub proof fn lemma_append_unmapped(t: TableView, done: Seq<u32>, stepped: Seq<u32>)
    requires
        all_unmapped(t, stepped),
    ensures
        stepped.len() > 0 ==> cp_codes(feed_emit(seq![], decomp_all(t, done + stepped)))
            == cp_codes(feed_emit(seq![], decomp_all(t, done))) + cp_codes(
            ccc_sort(feed_buf(seq![], decomp_all(t, done))),
        ) + stepped,
        stepped.len() > 0 ==> feed_buf(seq![], decomp_all(t, done + stepped)) == Seq::<
            Codepoint,
        >::empty(),
        stepped.len() == 0 ==> done + stepped =~= done,
{
    crate::codepoint::lemma_cp_codes_concat(seq![], seq![]);
    if stepped.len() == 0 {
        assert(done + stepped =~= done);
    } else {
        lemma_decomp_all_concat(t, done, stepped);
        let d0 = decomp_all(t, done);
        let ds = decomp_all(t, stepped);
        lemma_feed_concat(seq![], d0, ds);
        lemma_unmapped_run(t, stepped);
        assert(ds.len() > 0) by {
            assert(cp_codes(ds) == stepped);
        }
        let mid = feed_buf(seq![], d0);
        lemma_feed_starters(mid, ds);
        crate::codepoint::lemma_cp_codes_concat(feed_emit(seq![], d0), feed_emit(mid, ds));
        crate::codepoint::lemma_cp_codes_concat(ccc_sort(mid), ds);
        assert(cp_codes(feed_emit(mid, ds)) == cp_codes(ccc_sort(mid)) + stepped);
    }
}

/// Appending one scalar: the model takes one feeding step from the buffer
/// the prefix left behind.
pub proof fn lemma_append_scalar(t: TableView, done: Seq<u32>, code: u32)
    ensures
        cp_codes(feed_emit(seq![], decomp_all(t, done + seq![code]))) == cp_codes(
            feed_emit(seq![], decomp_all(t, done)),
        ) + cp_codes(feed_emit(feed_buf(seq![], decomp_all(t, done)), scalar_cps(t, code))),
        feed_buf(seq![], decomp_all(t, done + seq![code])) == feed_buf(
            feed_buf(seq![], decomp_all(t, done)),
            scalar_cps(t, code),
        ),
{
    lemma_decomp_all_concat(t, done, seq![code]);
    assert(decomp_all(t, seq![code]) =~= scalar_cps(t, code)) by {
        assert(seq![code].drop_first() =~= Seq::<u32>::empty());
        assert(decomp_all(t, Seq::<u32>::empty()) == Seq::<Codepoint>::empty());
        assert(scalar_cps(t, code) + Seq::<Codepoint>::empty() =~= scalar_cps(t, code));
    }
    let d0 = decomp_all(t, done);
    lemma_feed_concat(seq![], d0, scalar_cps(t, code));
    crate::codepoint::lemma_cp_codes_concat(
        feed_emit(seq![], d0),
        feed_emit(feed_buf(seq![], d0), scalar_cps(t, code)),
    );
}


/// One driver step, at the level of scalar sequences: a clean stretch `mid`
/// and then one scalar with a non-trivial descriptor.
pub proof fn lemma_model_scalar(
    t: TableView,
    done0: Seq<u32>,
    pend0: Seq<u32>,
    mid: Seq<u32>,
    code: u32,
    res0: Seq<u32>,
    old_buf: Seq<Codepoint>,
    res2: Seq<u32>,
    buf2: Seq<Codepoint>,
)
    requires
        old_buf == feed_buf(Seq::<Codepoint>::empty(), decomp_all(t, done0)),
        res0 + pend0 == cp_codes(feed_emit(Seq::<Codepoint>::empty(), decomp_all(t, done0))),
        all_unmapped(t, mid),
        mid.len() > 0 ==> old_buf == Seq::<Codepoint>::empty(),
        res2 == res0 + (pend0 + mid) + cp_codes(feed_emit(old_buf, scalar_cps(t, code))),
        buf2 == feed_buf(old_buf, scalar_cps(t, code)),
    ensures
        res2 == cp_codes(
            feed_emit(Seq::<Codepoint>::empty(), decomp_all(t, (done0 + mid) + seq![code])),
        ),
        buf2 == feed_buf(Seq::<Codepoint>::empty(), decomp_all(t, (done0 + mid) + seq![code])),
{
    let upto = done0 + mid;
    lemma_append_unmapped(t, done0, mid);
    lemma_append_scalar(t, upto, code);
    assert(ccc_sort(Seq::<Codepoint>::empty()) == Seq::<Codepoint>::empty());
    if mid.len() > 0 {
        assert(cp_codes(ccc_sort(feed_buf(Seq::<Codepoint>::empty(), decomp_all(t, done0))))
            =~= Seq::<u32>::empty());
        assert(feed_buf(Seq::<Codepoint>::empty(), decomp_all(t, upto)) == Seq::<
            Codepoint,
        >::empty());
    } else {
        assert(mid =~= Seq::<u32>::empty());
        assert(upto =~= done0);
    }
    assert(feed_buf(Seq::<Codepoint>::empty(), decomp_all(t, upto)) =~= old_buf);
    assert(res2 =~= cp_codes(
        feed_emit(Seq::<Codepoint>::empty(), decomp_all(t, upto + seq![code])),
    ));
}

/// Finishing after the fast path: the whole remainder is a clean run, so
/// appending it verbatim completes the normalized form.
pub proof fn lemma_model_finish(
    t: TableView,
    done0: Seq<u32>,
    pend0: Seq<u32>,
    tail: Seq<u32>,
    res0: Seq<u32>,
)
    requires
        feed_buf(Seq::<Codepoint>::empty(), decomp_all(t, done0)) == Seq::<Codepoint>::empty(),
        res0 + pend0 == cp_codes(feed_emit(Seq::<Codepoint>::empty(), decomp_all(t, done0))),
        all_unmapped(t, tail),
    ensures
        res0 + (pend0 + tail) == norm_codes(t, done0 + tail),
{
    let all = done0 + tail;
    lemma_append_unmapped(t, done0, tail);
    assert(ccc_sort(Seq::<Codepoint>::empty()) == Seq::<Codepoint>::empty());
    if tail.len() > 0 {
        assert(cp_codes(ccc_sort(feed_buf(Seq::<Codepoint>::empty(), decomp_all(t, done0))))
            =~= Seq::<u32>::empty());
        assert(feed_buf(Seq::<Codepoint>::empty(), decomp_all(t, all)) == Seq::<
            Codepoint,
        >::empty());
    } else {
        assert(all =~= done0);
        assert(tail =~= Seq::<u32>::empty());
    }
    crate::codepoint::lemma_cp_codes_concat(
        feed_emit(Seq::<Codepoint>::empty(), decomp_all(t, all)),
        ccc_sort(feed_buf(Seq::<Codepoint>::empty(), decomp_all(t, all))),
    );
    assert(cp_codes(ccc_sort(feed_buf(Seq::<Codepoint>::empty(), decomp_all(t, all)))) =~= Seq::<
        u32,
    >::empty());
    assert(res0 + (pend0 + tail) =~= norm_codes(t, all));
}

/// A clean run scanned while the buffer was pending: the flush empties the
/// buffer and the run becomes the new pending stretch.
pub proof fn lemma_model_starter_run(
    t: TableView,
    done0: Seq<u32>,
    stepped: Seq<u32>,
    res0: Seq<u32>,
    old_buf: Seq<Codepoint>,
)
    requires
        old_buf == feed_buf(Seq::<Codepoint>::empty(), decomp_all(t, done0)),
        res0 == cp_codes(feed_emit(Seq::<Codepoint>::empty(), decomp_all(t, done0))),
        all_unmapped(t, stepped),
        stepped.len() >= 1,
    ensures
        (res0 + cp_codes(ccc_sort(old_buf))) + stepped == cp_codes(
            feed_emit(Seq::<Codepoint>::empty(), decomp_all(t, done0 + stepped)),
        ),
        feed_buf(Seq::<Codepoint>::empty(), decomp_all(t, done0 + stepped)) == Seq::<
            Codepoint,
        >::empty(),
{
    lemma_append_unmapped(t, done0, stepped);
    assert((res0 + cp_codes(ccc_sort(old_buf))) + stepped =~= cp_codes(
        feed_emit(Seq::<Codepoint>::empty(), decomp_all(t, done0 + stepped)),
    ));
}

} // verus!
