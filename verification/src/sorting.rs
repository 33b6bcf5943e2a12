//! The reordering buffer: non-starters collected between starters, stably
//! sorted by CCC and flushed to the output.

use vstd::prelude::*;
use vstd::utf8::is_scalar;

use crate::codepoint::Codepoint;
use crate::codepoint::cp_codes;
use crate::codepoint::codes_of;

use crate::model::ccc_sort;
use crate::model::ccc_sorted;
use crate::model::insert_by_ccc;

verus! {

/// Inserting keeps the length.
pub proof fn lemma_insert_by_ccc_len(s: Seq<Codepoint>, x: Codepoint)
    ensures
        insert_by_ccc(s, x).len() == s.len() + 1,
    decreases s.len(),
{
    if s.len() == 0 {
    } else if s.last().ccc <= x.ccc {
    } else {
        lemma_insert_by_ccc_len(s.drop_last(), x);
    }
}

/// Sorting keeps the length.
pub proof fn lemma_ccc_sort_len(s: Seq<Codepoint>)
    ensures
        ccc_sort(s).len() == s.len(),
    decreases s.len(),
{
    if s.len() == 0 {
    } else {
        lemma_ccc_sort_len(s.drop_last());
        lemma_insert_by_ccc_len(ccc_sort(s.drop_last()), s.last());
    }
}

/// Inserting adds the new entry and keeps every old one.
pub proof fn lemma_insert_by_ccc_contains(s: Seq<Codepoint>, x: Codepoint)
    ensures
        forall|y: Codepoint|
            #[trigger] insert_by_ccc(s, x).contains(y) <==> (s.contains(y) || y == x),
    decreases s.len(),
{
    if s.len() == 0 {
        assert forall|y: Codepoint| #[trigger]
            insert_by_ccc(s, x).contains(y) <==> (s.contains(y) || y == x) by {
            assert(insert_by_ccc(s, x) == seq![x]);
            if y == x {
                assert(insert_by_ccc(s, x)[0] == y);
            }
            if insert_by_ccc(s, x).contains(y) {
                let i = choose|i: int|
                    0 <= i < insert_by_ccc(s, x).len() && insert_by_ccc(s, x)[i] == y;
                assert(i == 0);
                assert(y == x);
            }
        }
    } else if s.last().ccc <= x.ccc {
        assert forall|y: Codepoint| #[trigger]
            insert_by_ccc(s, x).contains(y) <==> (s.contains(y) || y == x) by {
            assert(insert_by_ccc(s, x) == s.push(x));
            if insert_by_ccc(s, x).contains(y) {
                let i = choose|i: int| 0 <= i < s.push(x).len() && s.push(x)[i] == y;
                if i < s.len() {
                    assert(s[i] == y);
                } else {
                    assert(y == x);
                }
            }
            if s.contains(y) || y == x {
                if y == x {
                    assert(s.push(x)[s.len() as int] == x);
                } else {
                    let i = choose|i: int| 0 <= i < s.len() && s[i] == y;
                    assert(s.push(x)[i] == y);
                }
            }
        }
    } else {
        lemma_insert_by_ccc_contains(s.drop_last(), x);
        assert forall|y: Codepoint| #[trigger]
            insert_by_ccc(s, x).contains(y) <==> (s.contains(y) || y == x) by {
            let r = insert_by_ccc(s.drop_last(), x);
            assert(insert_by_ccc(s, x) == r.push(s.last()));
            if r.push(s.last()).contains(y) {
                if y != s.last() {
                    let i = choose|i: int| 0 <= i < r.push(s.last()).len() && r.push(s.last())[i] == y;
                    assert(r[i] == y);
                    assert(r.contains(y));
                }
                if y != x && y != s.last() {
                    assert(s.drop_last().contains(y));
                    let i = choose|i: int| 0 <= i < s.len() - 1 && s.drop_last()[i] == y;
                    assert(s[i] == y);
                }
                if y == s.last() {
                    assert(s[s.len() - 1] == y);
                }
            }
            if s.contains(y) || y == x {
                if y == x {
                    assert(r.contains(y));
                    let i = choose|i: int| 0 <= i < r.len() && r[i] == y;
                    assert(r.push(s.last())[i] == y);
                } else {
                    let i = choose|i: int| 0 <= i < s.len() && s[i] == y;
                    if i == s.len() - 1 {
                        assert(r.push(s.last()).last() == y);
                    } else {
                        assert(s.drop_last()[i] == y);
                        assert(r.contains(y));
                        let k = choose|k: int| 0 <= k < r.len() && r[k] == y;
                        assert(r.push(s.last())[k] == y);
                    }
                }
            }
        }
    }
}

/// Sorting neither adds nor loses entries.
pub proof fn lemma_ccc_sort_contains(s: Seq<Codepoint>)
    ensures
        forall|y: Codepoint| #[trigger] ccc_sort(s).contains(y) <==> s.contains(y),
    decreases s.len(),
{
    if s.len() == 0 {
    } else {
        lemma_ccc_sort_contains(s.drop_last());
        lemma_insert_by_ccc_contains(ccc_sort(s.drop_last()), s.last());
        assert forall|y: Codepoint| #[trigger]
            ccc_sort(s).contains(y) <==> s.contains(y) by {
            if ccc_sort(s).contains(y) {
                if y != s.last() {
                    assert(s.drop_last().contains(y));
                    let i = choose|i: int| 0 <= i < s.len() - 1 && s.drop_last()[i] == y;
                    assert(s[i] == y);
                }
                if y == s.last() {
                    assert(s[s.len() - 1] == y);
                }
            }
            if s.contains(y) {
                let i = choose|i: int| 0 <= i < s.len() && s[i] == y;
                if i < s.len() - 1 {
                    assert(s.drop_last()[i] == y);
                    assert(s.drop_last().contains(y));
                }
            }
        }
    }
}

/// Inserting an entry below a bound into a sequence below that bound keeps
/// the whole result below it.
proof fn lemma_insert_by_ccc_bound(s: Seq<Codepoint>, x: Codepoint, b: u8)
    requires
        forall|i: int| 0 <= i < s.len() ==> #[trigger] s[i].ccc <= b,
        x.ccc <= b,
    ensures
        forall|i: int|
            0 <= i < insert_by_ccc(s, x).len() ==> #[trigger] insert_by_ccc(s, x)[i].ccc <= b,
    decreases s.len(),
{
    if s.len() == 0 {
    } else if s.last().ccc <= x.ccc {
    } else {
        lemma_insert_by_ccc_bound(s.drop_last(), x, b);
        lemma_insert_by_ccc_len(s.drop_last(), x);
        let r = insert_by_ccc(s.drop_last(), x);
        assert forall|i: int|
            0 <= i < insert_by_ccc(s, x).len() implies #[trigger] insert_by_ccc(s, x)[i].ccc
            <= b by {
            assert(insert_by_ccc(s, x) == r.push(s.last()));
            if i < r.len() {
                assert(insert_by_ccc(s, x)[i] == r[i]);
            }
        }
    }
}

/// Inserting into a sorted sequence keeps it sorted.
pub proof fn lemma_insert_by_ccc_sorted(s: Seq<Codepoint>, x: Codepoint)
    requires
        ccc_sorted(s),
    ensures
        ccc_sorted(insert_by_ccc(s, x)),
    decreases s.len(),
{
    lemma_insert_by_ccc_len(s, x);
    if s.len() == 0 {
    } else if s.last().ccc <= x.ccc {
    } else {
        assert(ccc_sorted(s.drop_last()));
        lemma_insert_by_ccc_sorted(s.drop_last(), x);
        let r = insert_by_ccc(s.drop_last(), x);
        lemma_insert_by_ccc_len(s.drop_last(), x);
        lemma_insert_by_ccc_bound(s.drop_last(), x, s.last().ccc);
        assert(ccc_sorted(r.push(s.last())));
    }
}

/// The sort really sorts.
pub proof fn lemma_ccc_sort_sorted(s: Seq<Codepoint>)
    ensures
        ccc_sorted(ccc_sort(s)),
    decreases s.len(),
{
    if s.len() == 0 {
    } else {
        lemma_ccc_sort_sorted(s.drop_last());
        lemma_insert_by_ccc_sorted(ccc_sort(s.drop_last()), s.last());
    }
}

/// The insertion position the scanning loop finds is the one the
/// specification's insertion takes.
proof fn lemma_insert_position(s: Seq<Codepoint>, x: Codepoint, j: int)
    requires
        ccc_sorted(s),
        0 <= j <= s.len(),
        forall|k: int| j <= k < s.len() ==> #[trigger] s[k].ccc > x.ccc,
        j > 0 ==> s[j - 1].ccc <= x.ccc,
    ensures
        insert_by_ccc(s, x) == s.insert(j, x),
    decreases s.len(),
{
    if s.len() == 0 {
        assert(insert_by_ccc(s, x) =~= s.insert(0, x));
    } else if s.last().ccc <= x.ccc {
        assert(j == s.len());
        assert(insert_by_ccc(s, x) =~= s.insert(j, x));
    } else {
        assert(j < s.len());
        assert(ccc_sorted(s.drop_last()));
        lemma_insert_position(s.drop_last(), x, j);
        lemma_insert_by_ccc_len(s.drop_last(), x);
        assert(insert_by_ccc(s, x) =~= s.insert(j, x));
    }
}

/// Stably sort the buffer by CCC.
pub fn sort_by_ccc(buffer: &mut Vec<Codepoint>)
    ensures
        final(buffer)@ == ccc_sort(old(buffer)@),
{
    let ghost orig = buffer@;
    let mut sorted: Vec<Codepoint> = Vec::with_capacity(buffer.len());
    let mut i: usize = 0;
    proof {
        assert(orig.take(0) =~= Seq::<Codepoint>::empty());
    }
    while i < buffer.len()
        invariant
            buffer@ == orig,
            i <= orig.len(),
            sorted@ == ccc_sort(orig.take(i as int)),
            ccc_sorted(sorted@),
            sorted@.len() == i,
        decreases orig.len() - i,
    {
        let x = buffer[i];
        let ghost before = sorted@;
        let mut j: usize = sorted.len();
        while j > 0 && sorted[j - 1].ccc > x.ccc
            invariant
                sorted@ == before,
                j <= sorted@.len(),
                forall|k: int| j <= k < sorted@.len() ==> #[trigger] sorted@[k].ccc > x.ccc,
            decreases j,
        {
            j = j - 1;
        }
        sorted.insert(j, x);
        i = i + 1;
        proof {
            lemma_insert_position(before, x, j as int);
            assert(orig.take(i as int).drop_last() =~= orig.take(i as int - 1));
            assert(orig.take(i as int).last() == orig[i as int - 1]);
            assert(sorted@ == insert_by_ccc(ccc_sort(orig.take(i as int - 1)), orig[i as int - 1]));
            assert(sorted@ == ccc_sort(orig.take(i as int)));
            lemma_insert_by_ccc_sorted(before, x);
            lemma_insert_by_ccc_len(before, x);
        }
    }
    proof {
        assert(orig.take(orig.len() as int) =~= orig);
    }
    *buffer = sorted;
}

/// Sort the buffer by CCC, append every entry to the output in sorted order,
/// and clear the buffer.  Flushing an empty buffer is a no-op.
pub fn flush_inline(result: &mut String, buffer: &mut Vec<Codepoint>)
    requires
        forall|i: int|
            0 <= i < old(buffer)@.len() ==> is_scalar(#[trigger] old(buffer)@[i].code),
    ensures
        codes_of(final(result)@) == codes_of(old(result)@) + cp_codes(ccc_sort(old(buffer)@)),
        final(buffer)@.len() == 0,
{
    let ghost orig = buffer@;
    if buffer.len() == 0 {
        proof {
            assert(codes_of(result@) =~= codes_of(old(result)@) + cp_codes(ccc_sort(orig)));
        }
        return ;
    }
    if buffer.len() > 1 {
        sort_by_ccc(buffer);
    } else {
        proof {
            assert(ccc_sort(orig.drop_last()) =~= Seq::<Codepoint>::empty());
            assert(insert_by_ccc(Seq::<Codepoint>::empty(), orig.last()) =~= seq![orig.last()]);
            assert(ccc_sort(orig) =~= orig);
        }
    }
    proof {
        lemma_ccc_sort_len(orig);
        lemma_ccc_sort_contains(orig);
        assert forall|i: int|
            0 <= i < buffer@.len() implies is_scalar(#[trigger] buffer@[i].code) by {
            assert(buffer@.contains(buffer@[i]));
            assert(orig.contains(buffer@[i]));
            let k = choose|k: int| 0 <= k < orig.len() && orig[k] == buffer@[i];
            assert(is_scalar(orig[k].code));
        }
    }
    let ghost sorted_seq = buffer@;
    let ghost base = result@;
    let mut i: usize = 0;
    proof {
        assert(codes_of(base) + cp_codes(sorted_seq.take(0)) =~= codes_of(base));
    }
    while i < buffer.len()
        invariant
            buffer@ == sorted_seq,
            i <= sorted_seq.len(),
            forall|k: int|
                0 <= k < sorted_seq.len() ==> is_scalar(#[trigger] sorted_seq[k].code),
            codes_of(result@) == codes_of(base) + cp_codes(sorted_seq.take(i as int)),
        decreases sorted_seq.len() - i,
    {
        let cp = buffer[i];
        crate::emit::write(result, cp);
        i = i + 1;
        proof {
            assert(sorted_seq.take(i as int).drop_last() =~= sorted_seq.take(i as int - 1));
            assert(cp_codes(sorted_seq.take(i as int)) =~= cp_codes(
                sorted_seq.take(i as int - 1),
            ).push(cp.code));
            assert(codes_of(result@) =~= codes_of(base) + cp_codes(sorted_seq.take(i as int)));
        }
    }
    proof {
        assert(sorted_seq.take(sorted_seq.len() as int) =~= sorted_seq);
    }
    buffer.clear();
}

/// Flush the buffer: the out-of-line entry point the driver calls.
pub fn flush(result: &mut String, buffer: &mut Vec<Codepoint>)
    requires
        forall|i: int|
            0 <= i < old(buffer)@.len() ==> is_scalar(#[trigger] old(buffer)@[i].code),
    ensures
        codes_of(final(result)@) == codes_of(old(result)@) + cp_codes(ccc_sort(old(buffer)@)),
        final(buffer)@.len() == 0,
{
    flush_inline(result, buffer)
}

} // verus!
