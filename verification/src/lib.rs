//! Decomposing Unicode normalization (NFD and NFKD).
//!
//! A normalizer is bound to baked table artifacts — packed decomposition
//! descriptors behind a two-level block index — and turns well-formed UTF-8
//! input into its fully decomposed, canonically ordered equivalent.  The hot
//! path scans bytes, proves a stretch is already normalized, and copies it
//! verbatim; everything else flows through the descriptor decoder and a
//! small reordering buffer.

use vstd::prelude::*;
use vstd::string::StringSliceAdditionalSpecFns;
use vstd::utf8::decode_utf8;
use vstd::utf8::is_char_boundary;
use vstd::utf8::is_scalar;
use vstd::utf8::length_of_first_scalar;
use vstd::utf8::valid_utf8;

pub mod codepoint;
pub mod cursor;
pub mod decomposition;
pub mod emit;
pub mod encode;
pub mod hangul;
pub mod laws;
pub mod model;
pub mod sorting;
pub mod tables;

pub use codepoint::Codepoint;
pub use cursor::CharsIter;
pub use decomposition::DecompositionValue;
pub use encode::encode_codepoint;
pub use decomposition::parse_data_value;
pub use tables::DecompositionData;

use codepoint::codes_of;
use codepoint::cp_codes;
use codepoint::lemma_cp_codes_concat;
use codepoint::lemma_cp_codes_push;
use codepoint::spec_unpack;
use cursor::lemma_ascii_step;
use cursor::lemma_decode_one;
use cursor::lemma_split_codes;
use model::all_unmapped;
use model::ccc_sort;
use model::decomp_all;
use model::feed_buf;
use model::feed_emit;
use model::lemma_feed_snoc;
use model::lemma_feed_starters;
use model::norm_codes;
use model::scalar_cps;
use tables::TableView;
use tables::descriptor_wf;
use tables::spec_lookup;
use tables::table_wf;

verus! {

/// Every buffered code point is a valid scalar, so it can be written out.
pub open spec fn buffer_ok(s: Seq<Codepoint>) -> bool {
    forall|i: int| 0 <= i < s.len() ==> is_scalar(#[trigger] s[i].code)
}

/// The scalar values encoded in `b` between byte offsets `from` and `to`.
pub open spec fn range_codes(b: Seq<u8>, from: int, to: int) -> Seq<u32> {
    codes_of(decode_utf8(b.subrange(from, to)))
}

/// The driver's running agreement between the cursor, the output, and the
/// reordering buffer: everything consumed so far is accounted for, with the
/// bytes since the breakpoint still pending as a clean verbatim stretch.
pub open spec fn driver_inv(
    t: TableView,
    iter: CharsIter,
    result: Seq<char>,
    buffer: Seq<Codepoint>,
) -> bool {
    let b = iter.bytes();
    let done = range_codes(b, 0, iter.position as int);
    let pend = range_codes(b, iter.breakpoint as int, iter.position as int);
    &&& iter.wf()
    &&& valid_utf8(b)
    &&& buffer_ok(buffer)
    &&& buffer == feed_buf(Seq::<Codepoint>::empty(), decomp_all(t, done))
    &&& codes_of(result) + pend == cp_codes(
        feed_emit(Seq::<Codepoint>::empty(), decomp_all(t, done)),
    )
    &&& all_unmapped(t, pend)
    &&& (buffer.len() > 0 ==> iter.breakpoint == iter.position)
}

/// A suffix of a clean run is clean.
proof fn lemma_all_unmapped_suffix(t: TableView, a: Seq<u32>, c: Seq<u32>, whole: Seq<u32>)
    requires
        whole == a + c,
        all_unmapped(t, whole),
    ensures
        all_unmapped(t, c),
{
    assert forall|i: int| 0 <= i < c.len() implies spec_lookup(t, #[trigger] c[i]) == 0 by {
        assert(c[i] == whole[i + a.len()]);
        assert(spec_lookup(t, whole[i + a.len()]) == 0);
    }
}

/// How one consumed scalar with a non-trivial descriptor moves the driver
/// state: the byte ranges are split at the known boundaries and the rest is
/// one feeding step of the model.
proof fn lemma_drive_scalar(
    t: TableView,
    b: Seq<u8>,
    bp0: int,
    pos0: int,
    p: int,
    fpos: int,
    code: u32,
    res0: Seq<u32>,
    old_buf: Seq<Codepoint>,
    res2: Seq<u32>,
    buf2: Seq<Codepoint>,
)
    requires
        valid_utf8(b),
        0 <= bp0 <= pos0 <= p < fpos <= b.len(),
        is_char_boundary(b, bp0),
        is_char_boundary(b, pos0),
        is_char_boundary(b, p),
        is_char_boundary(b, fpos),
        old_buf == feed_buf(Seq::<Codepoint>::empty(), decomp_all(t, range_codes(b, 0, pos0))),
        res0 + range_codes(b, bp0, pos0) == cp_codes(
            feed_emit(Seq::<Codepoint>::empty(), decomp_all(t, range_codes(b, 0, pos0))),
        ),
        all_unmapped(t, range_codes(b, pos0, p)),
        pos0 < p ==> old_buf == Seq::<Codepoint>::empty(),
        range_codes(b, p, fpos) == seq![code],
        res2 == res0 + range_codes(b, bp0, p) + cp_codes(
            feed_emit(old_buf, scalar_cps(t, code)),
        ),
        buf2 == feed_buf(old_buf, scalar_cps(t, code)),
    ensures
        res2 == cp_codes(
            feed_emit(Seq::<Codepoint>::empty(), decomp_all(t, range_codes(b, 0, fpos))),
        ),
        buf2 == feed_buf(Seq::<Codepoint>::empty(), decomp_all(t, range_codes(b, 0, fpos))),
{
    let done0 = range_codes(b, 0, pos0);
    let pend0 = range_codes(b, bp0, pos0);
    let mid = range_codes(b, pos0, p);
    lemma_split_codes(b, 0, pos0, p);
    lemma_split_codes(b, bp0, pos0, p);
    lemma_split_codes(b, 0, p, fpos);
    assert(range_codes(b, 0, fpos) =~= (done0 + mid) + seq![code]);
    assert(range_codes(b, bp0, p) =~= pend0 + mid);
    assert(res2 =~= res0 + (pend0 + mid) + cp_codes(feed_emit(old_buf, scalar_cps(t, code))));
    model::lemma_model_scalar(t, done0, pend0, mid, code, res0, old_buf, res2, buf2);
}

/// Finishing from the fast path: the last verbatim stretch is appended and
/// the whole input is accounted for.
proof fn lemma_drive_fast_finish(t: TableView, b: Seq<u8>, bp0: int, pos0: int, res0: Seq<u32>)
    requires
        valid_utf8(b),
        0 <= bp0 <= pos0 <= b.len(),
        is_char_boundary(b, bp0),
        is_char_boundary(b, pos0),
        feed_buf(Seq::<Codepoint>::empty(), decomp_all(t, range_codes(b, 0, pos0))) == Seq::<
            Codepoint,
        >::empty(),
        res0 + range_codes(b, bp0, pos0) == cp_codes(
            feed_emit(Seq::<Codepoint>::empty(), decomp_all(t, range_codes(b, 0, pos0))),
        ),
        all_unmapped(t, range_codes(b, bp0, b.len() as int)),
    ensures
        res0 + range_codes(b, bp0, b.len() as int) == norm_codes(
            t,
            range_codes(b, 0, b.len() as int),
        ),
{
    let done0 = range_codes(b, 0, pos0);
    let pend0 = range_codes(b, bp0, pos0);
    let tail = range_codes(b, pos0, b.len() as int);
    vstd::utf8::is_char_boundary_start_end_of_seq(b);
    lemma_split_codes(b, 0, pos0, b.len() as int);
    lemma_split_codes(b, bp0, pos0, b.len() as int);
    assert(range_codes(b, 0, b.len() as int) =~= done0 + tail);
    assert(range_codes(b, bp0, b.len() as int) =~= pend0 + tail);
    lemma_all_unmapped_suffix(t, pend0, tail, range_codes(b, bp0, b.len() as int));
    model::lemma_model_finish(t, done0, pend0, tail, res0);
}

/// Finishing at end of input with a pending buffer: the final flush appends
/// the sorted buffer and completes the normalized form.
proof fn lemma_drive_eos_flush(t: TableView, b: Seq<u8>, res0: Seq<u32>, old_buf: Seq<Codepoint>)
    requires
        old_buf == feed_buf(
            Seq::<Codepoint>::empty(),
            decomp_all(t, range_codes(b, 0, b.len() as int)),
        ),
        res0 == cp_codes(
            feed_emit(
                Seq::<Codepoint>::empty(),
                decomp_all(t, range_codes(b, 0, b.len() as int)),
            ),
        ),
    ensures
        res0 + cp_codes(ccc_sort(old_buf)) == norm_codes(t, range_codes(b, 0, b.len() as int)),
{
    let all = range_codes(b, 0, b.len() as int);
    lemma_cp_codes_concat(
        feed_emit(Seq::<Codepoint>::empty(), decomp_all(t, all)),
        ccc_sort(feed_buf(Seq::<Codepoint>::empty(), decomp_all(t, all))),
    );
}

/// A clean run scanned while the buffer was pending: the buffer is flushed,
/// and the run's bytes become the new verbatim stretch.
proof fn lemma_drive_slow_starter(
    t: TableView,
    b: Seq<u8>,
    pos0: int,
    fpos: int,
    res0: Seq<u32>,
    old_buf: Seq<Codepoint>,
)
    requires
        valid_utf8(b),
        0 <= pos0 < fpos <= b.len(),
        is_char_boundary(b, pos0),
        is_char_boundary(b, fpos),
        old_buf == feed_buf(Seq::<Codepoint>::empty(), decomp_all(t, range_codes(b, 0, pos0))),
        res0 == cp_codes(
            feed_emit(Seq::<Codepoint>::empty(), decomp_all(t, range_codes(b, 0, pos0))),
        ),
        all_unmapped(t, range_codes(b, pos0, fpos)),
        range_codes(b, pos0, fpos).len() >= 1,
    ensures
        (res0 + cp_codes(ccc_sort(old_buf))) + range_codes(b, pos0, fpos) == cp_codes(
            feed_emit(Seq::<Codepoint>::empty(), decomp_all(t, range_codes(b, 0, fpos))),
        ),
        feed_buf(Seq::<Codepoint>::empty(), decomp_all(t, range_codes(b, 0, fpos))) == Seq::<
            Codepoint,
        >::empty(),
{
    let done0 = range_codes(b, 0, pos0);
    let stepped = range_codes(b, pos0, fpos);
    vstd::utf8::is_char_boundary_start_end_of_seq(b);
    lemma_split_codes(b, 0, pos0, fpos);
    assert(range_codes(b, 0, fpos) =~= done0 + stepped);
    model::lemma_model_starter_run(t, done0, stepped, res0, old_buf);
}

/// An NF(K)D normalizer, bound to one set of baked artifacts for its whole
/// lifetime.  `normalize` never mutates it, so one normalizer serves any
/// number of calls.
pub struct DecomposingNormalizer {
    tables: DecompositionData,
}

impl View for DecomposingNormalizer {
    type V = TableView;

    closed spec fn view(&self) -> TableView {
        self.tables@
    }
}

impl DecomposingNormalizer {
    /// The baked artifacts meet the data contract.
    pub open spec fn wf(&self) -> bool {
        table_wf(self@)
    }

    /// Bind a normalizer to NFD-variant artifacts; the artifacts are
    /// validated against the data contract first.
    pub fn nfd(source: DecompositionData) -> (r: Option<DecomposingNormalizer>)
        ensures
            r is Some <==> table_wf(source@),
            r matches Some(n) ==> n@ == source@ && n.wf(),
    {
        from_baked(source)
    }

    /// Bind a normalizer to NFKD-variant artifacts; the artifacts are
    /// validated against the data contract first.
    pub fn nfkd(source: DecompositionData) -> (r: Option<DecomposingNormalizer>)
        ensures
            r is Some <==> table_wf(source@),
            r matches Some(n) ==> n@ == source@ && n.wf(),
    {
        from_baked(source)
    }

    /// Resolve the descriptor of `code` through the two-level index.
    pub fn get_decomposition_value(&self, code: u32) -> (d: u64)
        requires
            self.wf(),
            code <= 0x10FFFF,
        ensures
            d == spec_lookup(self@, code),
    {
        self.tables.get_decomposition_value(code)
    }

    /// Decode the decomposition of `code`; code points above the last
    /// decomposing one short-circuit to "no decomposition" without touching
    /// the index.
    pub fn decompose(&self, code: u32) -> (r: DecompositionValue)
        requires
            self.wf(),
            is_scalar(code),
        ensures
            r == decomposition::spec_parse_data_value(spec_lookup(self@, code)),
    {
        if code > tables::LAST_DECOMPOSING_CODEPOINT {
            proof {
                assert(spec_lookup(self@, code) == 0);
            }
            return DecompositionValue::Starter;
        }
        parse_data_value(self.get_decomposition_value(code))
    }

    /// Process one non-trivial descriptor: flush and emit what the shape
    /// prescribes, push what stays pending.  The result and the buffer move
    /// exactly as one feeding step of the canonical-ordering model.
    fn handle_decomposition_value(
        &self,
        d: u64,
        code: u32,
        result: &mut String,
        buffer: &mut Vec<Codepoint>,
    )
        requires
            self.wf(),
            is_scalar(code),
            d == spec_lookup(self@, code),
            d != 0,
            buffer_ok(old(buffer)@),
        ensures
            codes_of(final(result)@) == codes_of(old(result)@) + cp_codes(
                feed_emit(old(buffer)@, scalar_cps(self@, code)),
            ),
            final(buffer)@ == feed_buf(old(buffer)@, scalar_cps(self@, code)),
            buffer_ok(final(buffer)@),
    {
        let ghost t = self@;
        let ghost buf0 = old(buffer)@;
        let ghost res0 = old(result)@;
        let ghost cps = scalar_cps(t, code);
        proof {
            assert(descriptor_wf(t, code, d));
            reveal(crate::tables::descriptor_wf);
            reveal(crate::model::scalar_cps);
        }
        match parse_data_value(d) {
            DecompositionValue::Starter => {
                proof {
                    assert(false);
                }
            },
            DecompositionValue::Nonstarter(cp) => {
                buffer.push(cp);
                proof {
                    assert(cps =~= seq![cp]);
                    assert(seq![cp] =~= Seq::<Codepoint>::empty().push(cp));
                    lemma_feed_snoc(buf0, Seq::<Codepoint>::empty(), cp);
                    assert(feed_emit(buf0, Seq::<Codepoint>::empty()) == Seq::<
                        Codepoint,
                    >::empty());
                    assert(feed_buf(buf0, Seq::<Codepoint>::empty()) == buf0);
                    assert(cp_codes(feed_emit(buf0, cps)) =~= Seq::<u32>::empty());
                    assert(codes_of(result@) =~= codes_of(res0) + cp_codes(
                        feed_emit(buf0, cps),
                    ));
                }
            },
            DecompositionValue::Pair(c1, c2) => {
                sorting::flush(result, buffer);
                emit::write(result, c1);
                if c2.is_starter() {
                    emit::write(result, c2);
                } else {
                    buffer.push(c2);
                }
                proof {
                    assert(cps =~= seq![c1, c2]);
                    assert(seq![c1] =~= Seq::<Codepoint>::empty().push(c1));
                    lemma_feed_snoc(buf0, Seq::<Codepoint>::empty(), c1);
                    assert(feed_emit(buf0, Seq::<Codepoint>::empty()) == Seq::<
                        Codepoint,
                    >::empty());
                    assert(feed_buf(buf0, Seq::<Codepoint>::empty()) == buf0);
                    assert(feed_emit(buf0, seq![c1]) =~= ccc_sort(buf0).push(c1));
                    assert(feed_buf(buf0, seq![c1]) == Seq::<Codepoint>::empty());
                    lemma_feed_snoc(buf0, seq![c1], c2);
                    assert(cps =~= seq![c1].push(c2));
                    assert(ccc_sort(Seq::<Codepoint>::empty()) == Seq::<Codepoint>::empty());
                    lemma_cp_codes_push(ccc_sort(buf0), c1);
                    if c2.ccc == 0 {
                        assert(feed_emit(buf0, cps) =~= ccc_sort(buf0).push(c1).push(c2));
                        lemma_cp_codes_push(ccc_sort(buf0).push(c1), c2);
                        assert(codes_of(result@) =~= codes_of(res0) + cp_codes(
                            feed_emit(buf0, cps),
                        ));
                    } else {
                        assert(feed_emit(buf0, cps) =~= ccc_sort(buf0).push(c1));
                        assert(feed_buf(buf0, cps) =~= seq![c2]);
                        assert(buffer@ =~= seq![c2]);
                        assert(codes_of(result@) =~= codes_of(res0) + cp_codes(
                            feed_emit(buf0, cps),
                        ));
                    }
                }
            },
            DecompositionValue::Triple(c1, c2, c3) => {
                sorting::flush(result, buffer);
                emit::write(result, c1);
                if c3.is_starter() {
                    emit::write(result, c2);
                    emit::write(result, c3);
                } else {
                    if c2.is_starter() {
                        emit::write(result, c2);
                    } else {
                        buffer.push(c2);
                    }
                    buffer.push(c3);
                }
                proof {
                    assert(cps =~= seq![c1, c2, c3]);
                    assert(seq![c1] =~= Seq::<Codepoint>::empty().push(c1));
                    lemma_feed_snoc(buf0, Seq::<Codepoint>::empty(), c1);
                    assert(feed_emit(buf0, Seq::<Codepoint>::empty()) == Seq::<
                        Codepoint,
                    >::empty());
                    assert(feed_buf(buf0, Seq::<Codepoint>::empty()) == buf0);
                    assert(feed_emit(buf0, seq![c1]) =~= ccc_sort(buf0).push(c1));
                    assert(feed_buf(buf0, seq![c1]) == Seq::<Codepoint>::empty());
                    lemma_feed_snoc(buf0, seq![c1], c2);
                    assert(seq![c1, c2] =~= seq![c1].push(c2));
                    lemma_feed_snoc(buf0, seq![c1, c2], c3);
                    assert(cps =~= seq![c1, c2].push(c3));
                    assert(ccc_sort(Seq::<Codepoint>::empty()) == Seq::<Codepoint>::empty());
                    lemma_cp_codes_push(ccc_sort(buf0), c1);
                    if c2.ccc == 0 {
                        assert(feed_emit(buf0, seq![c1, c2]) =~= ccc_sort(buf0).push(c1).push(
                            c2,
                        ));
                        assert(feed_buf(buf0, seq![c1, c2]) == Seq::<Codepoint>::empty());
                        lemma_cp_codes_push(ccc_sort(buf0).push(c1), c2);
                        if c3.ccc == 0 {
                            assert(feed_emit(buf0, cps) =~= ccc_sort(buf0).push(c1).push(
                                c2,
                            ).push(c3));
                            lemma_cp_codes_push(ccc_sort(buf0).push(c1).push(c2), c3);
                            assert(codes_of(result@) =~= codes_of(res0) + cp_codes(
                                feed_emit(buf0, cps),
                            ));
                        } else {
                            assert(feed_emit(buf0, cps) =~= ccc_sort(buf0).push(c1).push(c2));
                            assert(feed_buf(buf0, cps) =~= seq![c3]);
                            assert(buffer@ =~= seq![c3]);
                            assert(codes_of(result@) =~= codes_of(res0) + cp_codes(
                                feed_emit(buf0, cps),
                            ));
                        }
                    } else {
                        assert(feed_emit(buf0, seq![c1, c2]) =~= ccc_sort(buf0).push(c1));
                        assert(feed_buf(buf0, seq![c1, c2]) =~= seq![c2]);
                        if c3.ccc == 0 {
                            model::lemma_ccc_sort_single(c2);
                            assert(feed_emit(buf0, cps) =~= ccc_sort(buf0).push(c1).push(
                                c2,
                            ).push(c3));
                            assert(feed_buf(buf0, cps) == Seq::<Codepoint>::empty());
                            lemma_cp_codes_push(ccc_sort(buf0).push(c1), c2);
                            lemma_cp_codes_push(ccc_sort(buf0).push(c1).push(c2), c3);
                            assert(codes_of(result@) =~= codes_of(res0) + cp_codes(
                                feed_emit(buf0, cps),
                            ));
                        } else {
                            assert(feed_emit(buf0, cps) =~= ccc_sort(buf0).push(c1));
                            assert(feed_buf(buf0, cps) =~= seq![c2, c3]);
                            assert(buffer@ =~= seq![c2, c3]);
                            assert(codes_of(result@) =~= codes_of(res0) + cp_codes(
                                feed_emit(buf0, cps),
                            ));
                        }
                    }
                }
            },
            DecompositionValue::Singleton(c1) => {
                sorting::flush(result, buffer);
                emit::write(result, c1);
                proof {
                    assert(cps =~= seq![c1]);
                    lemma_feed_starters(buf0, cps);
                    lemma_cp_codes_push(ccc_sort(buf0), c1);
                    assert(ccc_sort(buf0) + cps =~= ccc_sort(buf0).push(c1));
                    assert(codes_of(result@) =~= codes_of(res0) + cp_codes(
                        feed_emit(buf0, cps),
                    ));
                }
            },
            DecompositionValue::Expansion(index, count) => {
                let ghost exp_cps = cps;
                proof {
                    assert(exp_cps =~= Seq::new(
                        count as nat,
                        |k: int| spec_unpack(t.expansions[index + k]),
                    ));
                    assert(exp_cps.take(0) =~= Seq::<Codepoint>::empty());
                    assert(feed_emit(buf0, Seq::<Codepoint>::empty()) == Seq::<
                        Codepoint,
                    >::empty());
                    assert(feed_buf(buf0, Seq::<Codepoint>::empty()) == buf0);
                    assert(codes_of(result@) =~= codes_of(res0) + cp_codes(
                        feed_emit(buf0, exp_cps.take(0)),
                    ));
                }
                let start: usize = index as usize;
                let stop: usize = index as usize + count as usize;
                let mut k: usize = start;
                while k < stop
                    invariant
                        self.wf(),
                        t == self@,
                        descriptor_wf(t, code, d),
                        d == spec_lookup(t, code),
                        decomposition::spec_parse_data_value(d) == DecompositionValue::Expansion(
                            index,
                            count,
                        ),
                        exp_cps == scalar_cps(t, code),
                        exp_cps.len() == count as int,
                        start == index as int,
                        stop == index as int + count as int,
                        start <= k <= stop,
                        stop <= self.tables.expansions@.len(),
                        codes_of(result@) == codes_of(res0) + cp_codes(
                            feed_emit(buf0, exp_cps.take(k - start)),
                        ),
                        buffer@ == feed_buf(buf0, exp_cps.take(k - start)),
                        buffer_ok(buffer@),
                    decreases stop - k,
                {
                    let entry: u32 = self.tables.expansions[k];
                    let cp = codepoint::unpack(entry);
                    proof {
                        reveal(crate::tables::descriptor_wf);
                        reveal(crate::model::scalar_cps);
                        assert(exp_cps[k - start] == cp);
                        assert(tables::cp_trivial(t, spec_unpack(t.expansions[k as int])));
                        assert(is_scalar(cp.code));
                        assert(exp_cps.take(k - start + 1) =~= exp_cps.take(k - start).push(cp));
                        lemma_feed_snoc(buf0, exp_cps.take(k - start), cp);
                    }
                    if cp.is_starter() {
                        sorting::flush(result, buffer);
                        emit::write(result, cp);
                        proof {
                            lemma_cp_codes_concat(
                                feed_emit(buf0, exp_cps.take(k - start)),
                                ccc_sort(feed_buf(buf0, exp_cps.take(k - start))),
                            );
                            lemma_cp_codes_push(
                                feed_emit(buf0, exp_cps.take(k - start)) + ccc_sort(
                                    feed_buf(buf0, exp_cps.take(k - start)),
                                ),
                                cp,
                            );
                            assert(feed_emit(buf0, exp_cps.take(k - start + 1)) =~= (feed_emit(
                                buf0,
                                exp_cps.take(k - start),
                            ) + ccc_sort(feed_buf(buf0, exp_cps.take(k - start)))).push(cp));
                            assert(codes_of(result@) =~= codes_of(res0) + cp_codes(
                                feed_emit(buf0, exp_cps.take(k - start + 1)),
                            ));
                        }
                    } else {
                        buffer.push(cp);
                        proof {
                            assert(feed_emit(buf0, exp_cps.take(k - start + 1)) == feed_emit(
                                buf0,
                                exp_cps.take(k - start),
                            ));
                            assert(buffer@ =~= feed_buf(buf0, exp_cps.take(k - start + 1)));
                        }
                    }
                    k = k + 1;
                }
                proof {
                    assert(exp_cps.take(stop - start) =~= exp_cps);
                }
            },
            DecompositionValue::Hangul => {
                sorting::flush(result, buffer);
                hangul::decompose_hangul_syllable(result, code);
                proof {
                    assert(cps == hangul::spec_hangul_cps(code));
                    hangul::lemma_hangul_jamo_ranges(code);
                    assert(cps.len() > 0);
                    assert(forall|i: int| 0 <= i < cps.len() ==> #[trigger] cps[i].ccc == 0);
                    lemma_feed_starters(buf0, cps);
                    lemma_cp_codes_concat(ccc_sort(buf0), cps);
                    assert(codes_of(result@) =~= codes_of(res0) + cp_codes(
                        feed_emit(buf0, cps),
                    ));
                }
            },
        }
    }

    /// The hot path: skip bytes of already-normalized text, and when a
    /// descriptor fires, copy the clean stretch verbatim and hand the
    /// descriptor back together with its code point and the byte width of
    /// that code point's encoding.  At end of input, copy the final stretch
    /// and report that nothing is left.
    #[verifier::rlimit(50)]
    fn fast_forward(&self, iter: &mut CharsIter, result: &mut String) -> (r: Option<
        (u64, u32, usize),
    >)
        requires
            self.wf(),
            old(iter).wf(),
            all_unmapped(
                self@,
                range_codes(
                    old(iter).bytes(),
                    old(iter).breakpoint as int,
                    old(iter).position as int,
                ),
            ),
        ensures
            final(iter).s == old(iter).s,
            final(iter).breakpoint == old(iter).breakpoint,
            final(iter).wf(),
            ({
                let b = old(iter).bytes();
                let t = self@;
                let bp = old(iter).breakpoint as int;
                match r {
                    Option::None => {
                        &&& final(iter).position == b.len()
                        &&& codes_of(final(result)@) == codes_of(old(result)@) + range_codes(
                            b,
                            bp,
                            b.len() as int,
                        )
                        &&& all_unmapped(t, range_codes(b, bp, b.len() as int))
                    },
                    Option::Some((d, code, width)) => {
                        let fpos = final(iter).position as int;
                        let p = fpos - width;
                        &&& old(iter).position <= p
                        &&& bp <= p
                        &&& 1 <= width
                        &&& fpos <= b.len()
                        &&& fpos > old(iter).position
                        &&& is_char_boundary(b, p)
                        &&& decode_utf8(b.subrange(p, fpos)) == seq![code as char]
                        &&& (code as char) as u32 == code
                        &&& is_scalar(code)
                        &&& d == spec_lookup(t, code)
                        &&& d != 0
                        &&& codes_of(final(result)@) == codes_of(old(result)@) + range_codes(
                            b,
                            bp,
                            p,
                        )
                        &&& all_unmapped(t, range_codes(b, bp, p))
                    },
                }
            }),
    {
        let ghost b = old(iter).bytes();
        let ghost t = self@;
        let ghost bp = old(iter).breakpoint as int;
        proof {
            vstd::utf8::encode_utf8_valid_utf8(old(iter).s@);
            assert(valid_utf8(b));
        }
        loop
            invariant
                self.wf(),
                t == self@,
                iter.s == old(iter).s,
                b == iter.bytes(),
                valid_utf8(b),
                iter.breakpoint == old(iter).breakpoint,
                bp == iter.breakpoint as int,
                is_char_boundary(b, bp),
                iter.wf(),
                old(iter).position <= iter.position,
                result@ == old(result)@,
                all_unmapped(t, range_codes(b, bp, iter.position as int)),
            decreases b.len() - iter.position,
        {
            let ghost p0 = iter.position as int;
            if iter.is_empty() {
                let piece = iter.ending_slice();
                emit::write_str(result, piece);
                proof {
                    assert(codes_of(result@) =~= codes_of(old(result)@) + range_codes(
                        b,
                        bp,
                        b.len() as int,
                    ));
                }
                return Option::None;
            }
            let first = iter.first_byte_unchecked();
            if first < 0xC2 {
                proof {
                    lemma_ascii_step(b, p0);
                    lemma_split_codes(b, bp, p0, p0 + 1);
                    assert(range_codes(b, bp, p0 + 1) =~= range_codes(b, bp, p0) + codes_of(
                        decode_utf8(b.subrange(p0, p0 + 1)),
                    ));
                    assert(codes_of(seq![b[p0] as char]) =~= seq![b[p0] as u32]);
                    assert(spec_lookup(t, b[p0] as u32) == 0);
                    assert(all_unmapped(t, range_codes(b, bp, iter.position as int)));
                }
                continue ;
            }
            let code = iter.char_nonascii_unchecked(first);
            let ghost p1 = iter.position as int;
            let d = self.get_decomposition_value(code);
            if d == 0 {
                proof {
                    lemma_split_codes(b, bp, p0, p1);
                    assert(range_codes(b, bp, p1) =~= range_codes(b, bp, p0) + codes_of(
                        decode_utf8(b.subrange(p0, p1)),
                    ));
                    assert(codes_of(seq![code as char]) =~= seq![code]);
                    assert(all_unmapped(t, range_codes(b, bp, iter.position as int)));
                }
                continue ;
            }
            let width = CharsIter::sequence_width(first);
            proof {
                lemma_decode_one(b, p0);
                let sfx = b.subrange(p0, b.len() as int);
                assert(sfx[0] == first);
                assert(width == length_of_first_scalar(sfx));
                assert(p1 == p0 + width);
            }
            if !iter.at_breakpoint(width) {
                let piece = iter.block_slice(width);
                emit::write_str(result, piece);
            } else {
                proof {
                    assert(b.subrange(bp, p0) =~= Seq::<u8>::empty());
                    assert(decode_utf8(Seq::<u8>::empty()) == Seq::<char>::empty());
                    assert(range_codes(b, bp, p0) =~= Seq::<u32>::empty());
                }
            }
            proof {
                assert(codes_of(result@) =~= codes_of(old(result)@) + range_codes(b, bp, p0));
            }
            return Option::Some((d, code, width));
        }
    }

    /// One slow-path step while the buffer is pending: read the next scalar;
    /// a non-trivial descriptor is handed back untouched, and anything else
    /// — a plain starter or the end of input — flushes the buffer.
    fn forward(&self, iter: &mut CharsIter, result: &mut String, buffer: &mut Vec<Codepoint>)
        -> (r: Option<(u64, u32)>)
        requires
            self.wf(),
            old(iter).wf(),
            buffer_ok(old(buffer)@),
        ensures
            final(iter).s == old(iter).s,
            final(iter).wf(),
            final(iter).breakpoint == old(iter).position,
            ({
                let b = old(iter).bytes();
                let t = self@;
                let p = old(iter).position as int;
                let fpos = final(iter).position as int;
                match r {
                    Option::None => {
                        &&& codes_of(final(result)@) == codes_of(old(result)@) + cp_codes(
                            ccc_sort(old(buffer)@),
                        )
                        &&& final(buffer)@.len() == 0
                        &&& p <= fpos <= b.len()
                        &&& all_unmapped(t, range_codes(b, p, fpos))
                        &&& (fpos == p ==> fpos == b.len())
                        &&& (fpos > p ==> range_codes(b, p, fpos).len() >= 1)
                    },
                    Option::Some((d, code)) => {
                        &&& final(result)@ == old(result)@
                        &&& final(buffer)@ == old(buffer)@
                        &&& p < fpos <= b.len()
                        &&& decode_utf8(b.subrange(p, fpos)) == seq![code as char]
                        &&& (code as char) as u32 == code
                        &&& is_scalar(code)
                        &&& d == spec_lookup(t, code)
                        &&& d != 0
                    },
                }
            }),
    {
        let ghost b = old(iter).bytes();
        let ghost t = self@;
        let ghost p = old(iter).position as int;
        proof {
            vstd::utf8::encode_utf8_valid_utf8(old(iter).s@);
            assert(valid_utf8(b));
        }
        iter.set_breakpoint();
        if !iter.is_empty() {
            let first = iter.first_byte_unchecked();
            if first >= 0xC2 {
                let code = iter.char_nonascii_unchecked(first);
                let d = self.get_decomposition_value(code);
                if d != 0 {
                    return Option::Some((d, code));
                }
                sorting::flush_inline(result, buffer);
                proof {
                    assert(range_codes(b, p, iter.position as int) =~= seq![code]);
                }
                return Option::None;
            }
            proof {
                lemma_ascii_step(b, p);
                assert(range_codes(b, p, p + 1) =~= seq![b[p] as u32]);
                assert(spec_lookup(t, b[p] as u32) == 0);
            }
            sorting::flush_inline(result, buffer);
            return Option::None;
        }
        sorting::flush_inline(result, buffer);
        proof {
            assert(b.subrange(p, p) =~= Seq::<u8>::empty());
            assert(decode_utf8(Seq::<u8>::empty()) == Seq::<char>::empty());
            assert(range_codes(b, p, p) =~= Seq::<u32>::empty());
        }
        Option::None
    }

    /// One fast-path round: scan clean text and, when a descriptor fires,
    /// process it.  Returns true when the input is exhausted and the result
    /// is complete.
    #[verifier::rlimit(100)]
    fn step_fast(&self, iter: &mut CharsIter, result: &mut String, buffer: &mut Vec<Codepoint>)
        -> (finished: bool)
        requires
            self.wf(),
            driver_inv(self@, *old(iter), old(result)@, old(buffer)@),
            old(buffer)@.len() == 0,
        ensures
            final(iter).s == old(iter).s,
            !finished ==> driver_inv(self@, *final(iter), final(result)@, final(buffer)@),
            !finished ==> final(iter).position > old(iter).position,
            finished ==> codes_of(final(result)@) == norm_codes(
                self@,
                range_codes(old(iter).bytes(), 0, old(iter).bytes().len() as int),
            ),
    {
        let ghost t = self@;
        let ghost b = old(iter).bytes();
        let ghost pos0 = old(iter).position as int;
        let ghost bp0 = old(iter).breakpoint as int;
        let ghost res0 = codes_of(old(result)@);
        let ghost buf0 = old(buffer)@;
        match self.fast_forward(iter, result) {
            Option::None => {
                proof {
                    assert(buf0 =~= Seq::<Codepoint>::empty());
                    assert(feed_buf(
                        Seq::<Codepoint>::empty(),
                        decomp_all(t, range_codes(b, 0, pos0)),
                    ) =~= Seq::<Codepoint>::empty());
                    lemma_drive_fast_finish(t, b, bp0, pos0, res0);
                }
                true
            },
            Option::Some((d, code, width)) => {
                let ghost fpos = iter.position as int;
                let ghost p = fpos - width;
                let ghost res1 = codes_of(result@);
                proof {
                    lemma_split_codes(b, bp0, pos0, p);
                    assert(res1 =~= res0 + range_codes(b, bp0, p));
                }
                self.handle_decomposition_value(d, code, result, buffer);
                iter.set_breakpoint();
                proof {
                    assert(buf0 =~= Seq::<Codepoint>::empty());
                    assert(range_codes(b, bp0, p) =~= range_codes(b, bp0, pos0) + range_codes(
                        b,
                        pos0,
                        p,
                    ));
                    lemma_all_unmapped_suffix(
                        t,
                        range_codes(b, bp0, pos0),
                        range_codes(b, pos0, p),
                        range_codes(b, bp0, p),
                    );
                    assert(codes_of(result@) =~= res0 + range_codes(b, bp0, p) + cp_codes(
                        feed_emit(buf0, scalar_cps(t, code)),
                    ));
                    assert(codes_of(seq![code as char]) =~= seq![code]);
                    assert(range_codes(b, p, fpos) =~= seq![code]);
                    lemma_drive_scalar(
                        t,
                        b,
                        bp0,
                        pos0,
                        p,
                        fpos,
                        code,
                        res0,
                        buf0,
                        codes_of(result@),
                        buffer@,
                    );
                    assert(b.subrange(iter.breakpoint as int, iter.position as int) =~= Seq::<
                        u8,
                    >::empty());
                    assert(decode_utf8(Seq::<u8>::empty()) == Seq::<char>::empty());
                    assert(range_codes(b, iter.breakpoint as int, iter.position as int)
                        =~= Seq::<u32>::empty());
                    assert(codes_of(result@) + range_codes(
                        b,
                        iter.breakpoint as int,
                        iter.position as int,
                    ) =~= codes_of(result@));
                }
                false
            },
        }
    }

    /// One slow-path round while non-starters are pending: read the next
    /// scalar and either flush before it or process its descriptor.
    #[verifier::rlimit(100)]
    fn step_slow(&self, iter: &mut CharsIter, result: &mut String, buffer: &mut Vec<Codepoint>)
        requires
            self.wf(),
            driver_inv(self@, *old(iter), old(result)@, old(buffer)@),
            old(buffer)@.len() > 0,
            old(iter).position < old(iter).bytes().len(),
        ensures
            final(iter).s == old(iter).s,
            driver_inv(self@, *final(iter), final(result)@, final(buffer)@),
            final(iter).position > old(iter).position,
    {
        let ghost t = self@;
        let ghost b = old(iter).bytes();
        let ghost pos0 = old(iter).position as int;
        let ghost bp0 = old(iter).breakpoint as int;
        let ghost res0 = codes_of(old(result)@);
        let ghost buf0 = old(buffer)@;
        proof {
            assert(bp0 == pos0);
            assert(b.subrange(bp0, pos0) =~= Seq::<u8>::empty());
            assert(decode_utf8(Seq::<u8>::empty()) == Seq::<char>::empty());
            assert(range_codes(b, bp0, pos0) =~= Seq::<u32>::empty());
            assert(res0 + range_codes(b, bp0, pos0) =~= res0);
        }
        match self.forward(iter, result, buffer) {
            Option::None => {
                proof {
                    let fpos = iter.position as int;
                    assert(fpos > pos0);
                    lemma_drive_slow_starter(t, b, pos0, fpos, res0, buf0);
                    assert(codes_of(result@) =~= res0 + cp_codes(ccc_sort(buf0)));
                    assert(codes_of(result@) + range_codes(b, iter.breakpoint as int, fpos)
                        =~= (res0 + cp_codes(ccc_sort(buf0))) + range_codes(b, pos0, fpos));
                    assert(buffer@ =~= Seq::<Codepoint>::empty());
                    assert(buffer@ == feed_buf(
                        Seq::<Codepoint>::empty(),
                        decomp_all(t, range_codes(b, 0, fpos)),
                    ));
                }
            },
            Option::Some((d, code)) => {
                let ghost fpos = iter.position as int;
                proof {
                    assert(codes_of(seq![code as char]) =~= seq![code]);
                    assert(range_codes(b, pos0, fpos) =~= seq![code]);
                }
                self.handle_decomposition_value(d, code, result, buffer);
                iter.set_breakpoint();
                proof {
                    assert(codes_of(result@) =~= res0 + range_codes(b, bp0, pos0) + cp_codes(
                        feed_emit(buf0, scalar_cps(t, code)),
                    ));
                    lemma_drive_scalar(
                        t,
                        b,
                        bp0,
                        pos0,
                        pos0,
                        fpos,
                        code,
                        res0,
                        buf0,
                        codes_of(result@),
                        buffer@,
                    );
                    assert(b.subrange(iter.breakpoint as int, iter.position as int) =~= Seq::<
                        u8,
                    >::empty());
                    assert(decode_utf8(Seq::<u8>::empty()) == Seq::<char>::empty());
                    assert(range_codes(b, iter.breakpoint as int, iter.position as int)
                        =~= Seq::<u32>::empty());
                    assert(codes_of(result@) + range_codes(
                        b,
                        iter.breakpoint as int,
                        iter.position as int,
                    ) =~= codes_of(result@));
                }
            },
        }
    }

    /// Normalize `input` into its fully decomposed, canonically ordered
    /// form under this normalizer's tables: the scalars of the output are
    /// exactly [`norm_codes`] of the scalars of the input.  The output never
    /// exceeds 18 characters per input character, and ASCII input comes
    /// back identical.
    pub fn normalize(&self, input: &str) -> (result: String)
        requires
            self.wf(),
        ensures
            codes_of(result@) == norm_codes(self@, codes_of(input@)),
            result@.len() <= 18 * input@.len(),
            vstd::utf8::is_ascii_chars(input@) ==> result@ == input@,
    {
        let ghost t = self@;
        let ghost b = input.spec_bytes();
        let ghost all = range_codes(b, 0, b.len() as int);
        let mut result: String = String::new();
        let mut buffer: Vec<Codepoint> = Vec::with_capacity(18);
        let mut iter = CharsIter::new(input);
        proof {
            vstd::utf8::encode_utf8_valid_utf8(input@);
            vstd::utf8::encode_utf8_decode_utf8(input@);
            assert(valid_utf8(b));
            assert(b.subrange(0, b.len() as int) =~= b);
            assert(decode_utf8(b) == input@);
            assert(all == codes_of(input@));
            assert(b.subrange(0, 0) =~= Seq::<u8>::empty());
            assert(decode_utf8(Seq::<u8>::empty()) == Seq::<char>::empty());
            assert(range_codes(b, 0, 0) =~= Seq::<u32>::empty());
            assert(decomp_all(t, Seq::<u32>::empty()) == Seq::<Codepoint>::empty());
            assert(feed_emit(Seq::<Codepoint>::empty(), Seq::<Codepoint>::empty()) == Seq::<
                Codepoint,
            >::empty());
            assert(feed_buf(Seq::<Codepoint>::empty(), Seq::<Codepoint>::empty()) == Seq::<
                Codepoint,
            >::empty());
            assert(codes_of(result@) + range_codes(b, 0, 0) =~= cp_codes(
                Seq::<Codepoint>::empty(),
            ));
            assert(driver_inv(t, iter, result@, buffer@));
        }
        loop
            invariant
                self.wf(),
                t == self@,
                iter.s == input,
                b == iter.bytes(),
                all == range_codes(b, 0, b.len() as int),
                all == codes_of(input@),
                driver_inv(t, iter, result@, buffer@),
            decreases b.len() as int - iter.position as int,
        {
            if buffer.len() == 0 {
                if self.step_fast(&mut iter, &mut result, &mut buffer) {
                    proof {
                        laws::lemma_normalize_corollaries(t, input@, result@);
                    }
                    return result;
                }
            } else {
                if iter.is_empty() {
                    let ghost res0 = codes_of(result@);
                    let ghost buf0 = buffer@;
                    sorting::flush_inline(&mut result, &mut buffer);
                    proof {
                        assert(iter.position == b.len());
                        assert(b.subrange(iter.breakpoint as int, iter.position as int)
                            =~= Seq::<u8>::empty());
                        assert(decode_utf8(Seq::<u8>::empty()) == Seq::<char>::empty());
                        assert(range_codes(b, iter.breakpoint as int, iter.position as int)
                            =~= Seq::<u32>::empty());
                        assert(res0 =~= res0 + range_codes(
                            b,
                            iter.breakpoint as int,
                            iter.position as int,
                        ));
                        lemma_drive_eos_flush(t, b, res0, buf0);
                        assert(codes_of(result@) =~= res0 + cp_codes(ccc_sort(buf0)));
                        laws::lemma_normalize_corollaries(t, input@, result@);
                    }
                    return result;
                }
                self.step_slow(&mut iter, &mut result, &mut buffer);
            }
        }
    }
}


/// Bind a normalizer to already-baked artifacts.  The artifacts are checked
/// against the data contract of the tables; sound artifacts give a
/// normalizer, anything else gives nothing.
pub fn from_baked(source: DecompositionData) -> (r: Option<DecomposingNormalizer>)
    ensures
        r is Some <==> table_wf(source@),
        r matches Some(n) ==> n@ == source@ && n.wf(),
{
    if source.well_formed() {
        Option::Some(DecomposingNormalizer { tables: source })
    } else {
        Option::None
    }
}

/// An NFD normalizer over the given canonical-decomposition artifacts.
pub fn new_nfd(source: DecompositionData) -> (r: Option<DecomposingNormalizer>)
    ensures
        r is Some <==> table_wf(source@),
        r matches Some(n) ==> n@ == source@ && n.wf(),
{
    from_baked(source)
}

/// An NFKD normalizer over the given compatibility-decomposition artifacts.
pub fn new_nfkd(source: DecompositionData) -> (r: Option<DecomposingNormalizer>)
    ensures
        r is Some <==> table_wf(source@),
        r matches Some(n) ==> n@ == source@ && n.wf(),
{
    from_baked(source)
}

} // verus!
