//! The whole pipeline run sequentially over one buffer: split, aggregate
//! every range, merge, render.
//!
//! A parallel driver does exactly the same per range; the contract here
//! shows that the number of parts never changes the outcome, because the
//! ranges are cut right after record separators.

use vstd::prelude::*;

use crate::aggregate::agg;
use crate::aggregate::process_chunk;
use crate::chunk::chunk_data;
use crate::merge::chunk_tables;
use crate::merge::lemma_merge_all_chunk_tables;
use crate::merge::lemma_split_merge_all;
use crate::merge::merge_and_sort;
use crate::merge::tables_count;
use crate::parse::ParseError;
use crate::parse::concat_all;
use crate::parse::lemma_parse_chunks_err_extends;
use crate::parse::lemma_parse_chunks_ok;
use crate::parse::no_blank_records;
use crate::parse::parse_chunk;
use crate::parse::parse_chunks;
use crate::report::render_report;
use crate::report::spec_report;
use crate::table::Table;
use vstd::slice::slice_subrange;

verus! {

/// The byte ranges of `data` cut out by `rg`, as byte sequences.
pub open spec fn subs_of(data: Seq<u8>, rg: Seq<(usize, usize)>) -> Seq<Seq<u8>> {
    Seq::new(rg.len(), |i: int| data.subrange((rg[i]).0 as int, (rg[i]).1 as int))
}

/// The end of the `k`-th prefix of ranges.
spec fn end_of(rg: Seq<(usize, usize)>, k: int) -> int {
    if k <= 0 {
        0
    } else {
        (rg[k - 1]).1 as int
    }
}

/// Contiguous ranges chain up: the ranges are well formed.
spec fn ranges_wf(data: Seq<u8>, rg: Seq<(usize, usize)>) -> bool {
    &&& rg.len() >= 1
    &&& (rg[0]).0 == 0
    &&& (rg[rg.len() - 1]).1 == data.len()
    &&& forall|i: int| 0 <= i < rg.len() - 1 ==> (#[trigger] rg[i]).1 == rg[i + 1].0
    &&& forall|i: int| 0 <= i < rg.len() ==> (#[trigger] rg[i]).0 <= rg[i].1 <= data.len()
    &&& forall|i: int|
        0 <= i < rg.len() - 1 ==> (#[trigger] rg[i]).0 < rg[i].1 && data[(rg[i]).1 - 1] == 10
}

/// The concatenation of the first `m` ranges is the prefix of the buffer
/// up to where the `m`-th range ends.
proof fn lemma_concat_prefix(data: Seq<u8>, rg: Seq<(usize, usize)>, m: int)
    requires
        ranges_wf(data, rg),
        0 <= m <= rg.len(),
    ensures
        concat_all(subs_of(data, rg).take(m)) == data.subrange(0, end_of(rg, m)),
    decreases m,
{
    let subs = subs_of(data, rg);
    if m == 0 {
        assert(subs.take(0) =~= Seq::<Seq<u8>>::empty());
        assert(concat_all(subs.take(0)) =~= data.subrange(0, 0));
    } else {
        lemma_concat_prefix(data, rg, m - 1);
        assert(subs.take(m).drop_last() =~= subs.take(m - 1));
        assert(subs.take(m).last() == subs[m - 1]);
        assert(data.subrange(0, end_of(rg, m - 1)) + data.subrange(
            (rg[m - 1]).0 as int,
            (rg[m - 1]).1 as int,
        ) =~= data.subrange(0, end_of(rg, m)));
    }
}

/// A range whose left edge sits right after a separator (or at the very
/// start) inherits the absence of blank records from the whole buffer.
proof fn lemma_subrange_no_blank(data: Seq<u8>, lo: int, hi: int)
    requires
        no_blank_records(data),
        0 <= lo <= hi <= data.len(),
        lo > 0 ==> data[lo - 1] == 10,
    ensures
        no_blank_records(data.subrange(lo, hi)),
{
    let s = data.subrange(lo, hi);
    assert forall|l: int| 0 <= l < s.len() && #[trigger] s[l] == 10 implies l >= 1 && s[l - 1]
        != 10 by {
        assert(s[l] == data[lo + l]);
        if l == 0 {
            assert(false);
        } else {
            assert(s[l - 1] == data[lo + l - 1]);
        }
    }
}

/// On a buffer without blank records, parsing the whole buffer and
/// parsing its ranges one by one are the same computation.
proof fn lemma_whole_equals_ranges(data: Seq<u8>, rg: Seq<(usize, usize)>)
    requires
        no_blank_records(data),
        ranges_wf(data, rg),
    ensures
        parse_chunk(data) == parse_chunks(subs_of(data, rg)),
        parse_chunks(subs_of(data, rg)) matches Ok(rs) ==> agg(rs) == chunk_tables(
            subs_of(data, rg),
        ),
{
    let subs = subs_of(data, rg);
    lemma_concat_prefix(data, rg, rg.len() as int);
    assert(subs.take(rg.len() as int) =~= subs);
    assert(data.subrange(0, data.len() as int) =~= data);
    assert forall|i: int| 0 <= i < subs.len() - 1 implies ((#[trigger] subs[i]).len() > 0
        ==> subs[i][subs[i].len() - 1] == 10) && no_blank_records(subs[i]) by {
        let lo = (rg[i]).0 as int;
        let hi = (rg[i]).1 as int;
        assert(subs[i] == data.subrange(lo, hi));
        assert(subs[i][subs[i].len() - 1] == data[hi - 1]);
        if i > 0 {
            assert((rg[i - 1]).1 == (rg[i]).0);
            assert(data[lo - 1] == 10);
        }
        lemma_subrange_no_blank(data, lo, hi);
    }
    lemma_split_merge_all(subs);
}

/// Run the whole pipeline over one buffer, splitting it into at most
/// `parts` record-aligned ranges and aggregating them one after the
/// other.  On a buffer without blank records the outcome is exactly that
/// of aggregating the buffer in one piece, whatever `parts` is; a parse
/// failure in any range is the failure of the whole run, and no report
/// is produced.
pub fn summarize(data: &[u8], parts: usize) -> (r: Result<(Table, Vec<u8>), ParseError>)
    requires
        1 <= parts,
        data@.len() <= u32::MAX,
    ensures
        r matches Ok(p) ==> p.0.wf() && p.0.sorted() && p.1@ == spec_report(p.0),
        no_blank_records(data@) ==> match r {
            Ok(p) => parse_chunk(data@) matches Ok(rs) && p.0@ == agg(rs),
            Err(e) => parse_chunk(data@) matches Err(e2) && e2 == e,
        },
{
    let ranges = chunk_data(data, parts, 10u8);
    let ghost rg = ranges@;
    let ghost subs = subs_of(data@, rg);
    proof {
        assert(ranges_wf(data@, rg));
    }
    let nr = ranges.len();
    let mut tables: Vec<Table> = Vec::new();
    let mut k: usize = 0;
    while k < nr
        invariant
            0 <= k <= nr,
            nr == rg.len(),
            rg == ranges@,
            subs == subs_of(data@, rg),
            ranges_wf(data@, rg),
            data@.len() <= u32::MAX,
            tables@.len() == k,
            forall|i: int| 0 <= i < k ==> parse_chunk(#[trigger] subs[i]) is Ok,
            forall|i: int| 0 <= i < k ==> (#[trigger] tables@[i]).wf(),
            forall|i: int|
                0 <= i < k ==> (#[trigger] tables@[i])@ == (match parse_chunk(subs[i]) {
                    Ok(rs) => agg(rs),
                    Err(_) => Map::<Seq<u8>, crate::stat::GStat>::empty(),
                }),
            2 * tables_count(tables@) <= end_of(rg, k as int),
        decreases nr - k,
    {
        let (lo, hi) = ranges[k];
        let chunk = slice_subrange(data, lo, hi);
        proof {
            assert(chunk@ == subs[k as int]);
        }
        match process_chunk(chunk) {
            Err(e) => {
                proof {
                    assert forall|i: int| 0 <= i < subs.take(k as int).len() implies parse_chunk(
                        #[trigger] subs.take(k as int)[i],
                    ) is Ok by {
                        assert(subs.take(k as int)[i] == subs[i]);
                    }
                    lemma_parse_chunks_ok(subs.take(k as int));
                    assert(subs.take(k as int + 1).drop_last() =~= subs.take(k as int));
                    assert(subs.take(k as int + 1).last() == subs[k as int]);
                    lemma_parse_chunks_err_extends(subs, k as int + 1);
                    if no_blank_records(data@) {
                        lemma_whole_equals_ranges(data@, rg);
                    }
                }
                return Err(e);
            },
            Ok((_n, t)) => {
                let ghost tables0 = tables@;
                tables.push(t);
                proof {
                    assert(forall|i: int| 0 <= i < tables0.len() ==> tables@[i] == tables0[i]);
                    assert(tables@[k as int] == t);
                    assert(tables@.drop_last() =~= tables0);
                    assert(2 * t.count_sum() <= (rg[k as int]).1 - (rg[k as int]).0);
                    if k > 0 {
                        assert((rg[k as int - 1]).1 == (rg[k as int]).0);
                    }
                }
                k = k + 1;
            },
        }
    }
    proof {
        assert(subs.take(nr as int) =~= subs);
        assert forall|i: int| 0 <= i < tables@.len() implies (#[trigger] tables@[i]).wf() by {}
        lemma_parse_chunks_ok(subs);
        lemma_merge_all_chunk_tables(tables@, subs);
    }
    let merged = merge_and_sort(&tables);
    let out = render_report(&merged);
    proof {
        if no_blank_records(data@) {
            lemma_whole_equals_ranges(data@, rg);
        }
    }
    Ok((merged, out))
}

} // verus!
