//! Merging partial tables into one sorted table.
//!
//! Merging is pointwise `g_merge`, a commutative and associative
//! operation, so the partial results of parallel workers can be folded
//! in any order.

use vstd::prelude::*;

use crate::aggregate::agg;
use crate::parse::chain2;
use crate::parse::concat_all;
use crate::parse::lemma_concat_all_no_blank;
use crate::parse::lemma_concat_all_tail;
use crate::parse::no_blank_records;
use crate::parse::parse_chunks;
use crate::parse::parse_chunk;
use crate::parse::lemma_parse_chunk_concat;
use crate::stat::GStat;
use crate::stat::g_merge;
use crate::stat::lemma_merge_associative;
use crate::stat::lemma_merge_commutative;
use crate::table::Table;
use crate::table::upsert;
use crate::table::lemma_count_prefix_nonneg;
use crate::table::lemma_map_prefix_contains_key;

verus! {

/// Pointwise merge of two tables' mappings.
pub open spec fn merge_maps(m1: Map<Seq<u8>, GStat>, m2: Map<Seq<u8>, GStat>) -> Map<
    Seq<u8>,
    GStat,
> {
    Map::new(
        |k: Seq<u8>| m1.contains_key(k) || m2.contains_key(k),
        |k: Seq<u8>|
            if m1.contains_key(k) && m2.contains_key(k) {
                g_merge(m1[k], m2[k])
            } else if m1.contains_key(k) {
                m1[k]
            } else {
                m2[k]
            },
    )
}

/// The merge of all the given tables, folded left to right.
pub open spec fn merge_all(ts: Seq<Table>) -> Map<Seq<u8>, GStat>
    decreases ts.len(),
{
    if ts.len() == 0 {
        Map::empty()
    } else {
        merge_maps(merge_all(ts.drop_last()), ts.last()@)
    }
}

/// Total observation count over all the given tables.
pub open spec fn tables_count(ts: Seq<Table>) -> int
    decreases ts.len(),
{
    if ts.len() == 0 {
        0
    } else {
        tables_count(ts.drop_last()) + ts.last().count_sum()
    }
}

/// Merging tables is commutative.
pub proof fn lemma_merge_maps_commutative(m1: Map<Seq<u8>, GStat>, m2: Map<Seq<u8>, GStat>)
    ensures
        merge_maps(m1, m2) == merge_maps(m2, m1),
{
    assert forall|k: Seq<u8>|
        merge_maps(m1, m2).contains_key(k) implies #[trigger] merge_maps(m1, m2)[k] == merge_maps(
        m2,
        m1,
    )[k] by {
        if m1.contains_key(k) && m2.contains_key(k) {
            lemma_merge_commutative(m1[k], m2[k]);
        }
    }
    assert(merge_maps(m1, m2) =~= merge_maps(m2, m1));
}

/// Merging tables is associative.
pub proof fn lemma_merge_maps_associative(
    m1: Map<Seq<u8>, GStat>,
    m2: Map<Seq<u8>, GStat>,
    m3: Map<Seq<u8>, GStat>,
)
    ensures
        merge_maps(merge_maps(m1, m2), m3) == merge_maps(m1, merge_maps(m2, m3)),
{
    assert forall|k: Seq<u8>|
        merge_maps(merge_maps(m1, m2), m3).contains_key(k) implies #[trigger] merge_maps(
        merge_maps(m1, m2),
        m3,
    )[k] == merge_maps(m1, merge_maps(m2, m3))[k] by {
        if m1.contains_key(k) && m2.contains_key(k) && m3.contains_key(k) {
            lemma_merge_associative(m1[k], m2[k], m3[k]);
        }
    }
    assert(merge_maps(merge_maps(m1, m2), m3) =~= merge_maps(m1, merge_maps(m2, m3)));
}

/// The empty table is the unit of merging.
pub proof fn lemma_merge_maps_empty(m: Map<Seq<u8>, GStat>)
    ensures
        merge_maps(m, Map::empty()) == m,
        merge_maps(Map::empty(), m) == m,
{
    assert(merge_maps(m, Map::empty()) =~= m);
    assert(merge_maps(Map::empty(), m) =~= m);
}

/// Folding one accumulator into the right table commutes with merging.
pub proof fn lemma_merge_upsert(
    m1: Map<Seq<u8>, GStat>,
    m2: Map<Seq<u8>, GStat>,
    k: Seq<u8>,
    g: GStat,
)
    ensures
        merge_maps(m1, upsert(m2, k, g)) == upsert(merge_maps(m1, m2), k, g),
{
    if m1.contains_key(k) && m2.contains_key(k) {
        lemma_merge_associative(m1[k], m2[k], g);
    }
    assert(merge_maps(m1, upsert(m2, k, g)) =~= upsert(merge_maps(m1, m2), k, g));
}

/// Aggregating two record sequences separately and merging the results
/// is the same as aggregating their concatenation.
pub proof fn lemma_agg_concat(a: Seq<(Seq<u8>, int)>, b: Seq<(Seq<u8>, int)>)
    ensures
        agg(a + b) == merge_maps(agg(a), agg(b)),
    decreases b.len(),
{
    if b.len() == 0 {
        assert(a + b =~= a);
        lemma_merge_maps_empty(agg(a));
    } else {
        let b1 = b.drop_last();
        let x = b.last();
        lemma_agg_concat(a, b1);
        assert((a + b).drop_last() =~= a + b1);
        assert((a + b).last() == x);
        lemma_merge_upsert(agg(a), agg(b1), x.0, crate::stat::g_single(x.1));
    }
}

/// Splitting the input right after a record separator, aggregating the
/// two parts independently and merging the results yields exactly the
/// aggregation of the whole input; errors are also preserved.  The first
/// part must end at a separator and contain no blank record.
pub proof fn lemma_split_merge(a: Seq<u8>, b: Seq<u8>)
    requires
        a.len() > 0 ==> a[a.len() - 1] == 10,
        no_blank_records(a),
    ensures
        parse_chunk(a + b) == chain2(parse_chunk(a), parse_chunk(b)),
        parse_chunk(a) matches Ok(ra) ==> (parse_chunk(b) matches Ok(rb) ==> (parse_chunk(a + b)
            matches Ok(rs) && agg(rs) == merge_maps(agg(ra), agg(rb)))),
{
    lemma_parse_chunk_concat(a, b);
    match parse_chunk(a) {
        Ok(ra) => {
            match parse_chunk(b) {
                Ok(rb) => {
                    lemma_agg_concat(ra, rb);
                },
                Err(_) => {},
            }
        },
        Err(_) => {},
    }
}

/// The merged mapping of the ranges' individual aggregations; ranges
/// that fail contribute nothing (the case is irrelevant once every
/// range parses).
pub open spec fn chunk_tables(cs: Seq<Seq<u8>>) -> Map<Seq<u8>, GStat>
    decreases cs.len(),
{
    if cs.len() == 0 {
        Map::empty()
    } else {
        merge_maps(
            chunk_tables(cs.drop_last()),
            match parse_chunk(cs.last()) {
                Ok(rs) => agg(rs),
                Err(_) => Map::empty(),
            },
        )
    }
}

/// Splitting the input into any number of ranges, each but the last cut
/// right after a record separator and free of blank records, then
/// aggregating every range independently and merging the partial
/// tables, yields exactly the aggregation of the whole input; parsing
/// the whole also fails exactly when parsing some range fails.
pub proof fn lemma_split_merge_all(cs: Seq<Seq<u8>>)
    requires
        forall|i: int|
            0 <= i < cs.len() - 1 ==> ((#[trigger] cs[i]).len() > 0 ==> cs[i][cs[i].len() - 1]
                == 10),
        forall|i: int| 0 <= i < cs.len() - 1 ==> no_blank_records(#[trigger] cs[i]),
    ensures
        parse_chunk(concat_all(cs)) == parse_chunks(cs),
        parse_chunks(cs) matches Ok(rs) ==> agg(rs) == chunk_tables(cs),
    decreases cs.len(),
{
    if cs.len() == 0 {
        assert(concat_all(cs) =~= Seq::<u8>::empty());
    } else {
        let cs1 = cs.drop_last();
        let b = cs.last();
        assert forall|i: int| 0 <= i < cs1.len() implies ((#[trigger] cs1[i]).len() > 0
            ==> cs1[i][cs1[i].len() - 1] == 10) && no_blank_records(cs1[i]) by {
            assert(cs1[i] == cs[i]);
        }
        lemma_split_merge_all(cs1);
        let a = concat_all(cs1);
        lemma_concat_all_tail(cs1);
        lemma_concat_all_no_blank(cs1);
        lemma_split_merge(a, b);
        match parse_chunks(cs1) {
            Ok(ra) => {
                match parse_chunk(b) {
                    Ok(rb) => {
                        lemma_agg_concat(ra, rb);
                    },
                    Err(_) => {},
                }
            },
            Err(_) => {},
        }
    }
}

/// Tables that each hold one range's aggregation merge to the ranges'
/// merged mapping.
pub proof fn lemma_merge_all_chunk_tables(ts: Seq<Table>, cs: Seq<Seq<u8>>)
    requires
        ts.len() == cs.len(),
        forall|i: int| 0 <= i < cs.len() ==> parse_chunk(#[trigger] cs[i]) is Ok,
        forall|i: int|
            0 <= i < cs.len() ==> (#[trigger] ts[i])@ == (match parse_chunk(cs[i]) {
                Ok(rs) => agg(rs),
                Err(_) => Map::<Seq<u8>, GStat>::empty(),
            }),
    ensures
        merge_all(ts) == chunk_tables(cs),
    decreases cs.len(),
{
    if cs.len() > 0 {
        assert forall|i: int| 0 <= i < cs.drop_last().len() implies parse_chunk(
            #[trigger] cs.drop_last()[i],
        ) is Ok && ts.drop_last()[i]@ == (match parse_chunk(cs.drop_last()[i]) {
            Ok(rs) => agg(rs),
            Err(_) => Map::<Seq<u8>, GStat>::empty(),
        }) by {
            assert(cs.drop_last()[i] == cs[i]);
            assert(ts.drop_last()[i] == ts[i]);
        }
        lemma_merge_all_chunk_tables(ts.drop_last(), cs.drop_last());
    }
}

/// `count_prefix` grows with the prefix.
proof fn lemma_count_prefix_mono(t: Table, j: int, n: int)
    requires
        j <= n,
    ensures
        t.count_prefix(j) <= t.count_prefix(n),
    decreases n - j,
{
    if j < n {
        lemma_count_prefix_mono(t, j + 1, n);
    }
}

/// A prefix of the tables accounts for at most the whole count.
proof fn lemma_tables_count_take_le(ts: Seq<Table>, m: int)
    requires
        0 <= m <= ts.len(),
    ensures
        tables_count(ts.take(m)) <= tables_count(ts),
    decreases ts.len() - m,
{
    if m == ts.len() {
        assert(ts.take(m) =~= ts);
    } else {
        lemma_tables_count_take_le(ts, m + 1);
        assert(ts.take(m + 1).drop_last() =~= ts.take(m));
        assert(ts.take(m + 1).last() == ts[m]);
        lemma_count_prefix_nonneg(ts[m], ts[m].len());
    }
}

/// Merge all partial tables into one table whose keys are sorted in
/// strictly increasing byte-lexicographic order.
pub fn merge_and_sort(tables: &Vec<Table>) -> (r: Table)
    requires
        forall|t: int| 0 <= t < tables@.len() ==> (#[trigger] tables@[t]).wf(),
        tables_count(tables@) <= u32::MAX,
    ensures
        r.wf(),
        r.sorted(),
        r@ == merge_all(tables@),
        r.count_sum() == tables_count(tables@),
{
    let mut r = Table::new();
    let nt = tables.len();
    proof {
        assert(tables@.take(0) =~= Seq::<Table>::empty());
    }
    let mut ti: usize = 0;
    while ti < nt
        invariant
            0 <= ti <= nt,
            nt == tables@.len(),
            forall|t: int| 0 <= t < tables@.len() ==> (#[trigger] tables@[t]).wf(),
            tables_count(tables@) <= u32::MAX,
            r.wf(),
            r.sorted(),
            r@ == merge_all(tables@.take(ti as int)),
            r.count_sum() == tables_count(tables@.take(ti as int)),
        decreases nt - ti,
    {
        let ghost t = tables@[ti as int];
        let n = tables[ti].names.len();
        proof {
            lemma_merge_maps_empty(merge_all(tables@.take(ti as int)));
            assert(t.map_prefix(0) == Map::<Seq<u8>, GStat>::empty());
        }
        let mut j: usize = 0;
        while j < n
            invariant
                0 <= j <= n,
                ti < tables@.len(),
                nt == tables@.len(),
                t == tables@[ti as int],
                n == t.names@.len(),
                forall|tt: int| 0 <= tt < tables@.len() ==> (#[trigger] tables@[tt]).wf(),
                tables_count(tables@) <= u32::MAX,
                r.wf(),
                r.sorted(),
                r@ == merge_maps(merge_all(tables@.take(ti as int)), t.map_prefix(j as int)),
                r.count_sum() == tables_count(tables@.take(ti as int)) + t.count_prefix(j as int),
            decreases n - j,
        {
            proof {
                lemma_map_prefix_contains_key(t, j as int, t.key_at(j as int));
                if t.map_prefix(j as int).contains_key(t.key_at(j as int)) {
                    let i = choose|i: int| 0 <= i < j as int && #[trigger] t.key_at(i) == t.key_at(
                        j as int,
                    );
                    assert(false);
                }
                lemma_count_prefix_mono(t, j as int + 1, t.len());
                lemma_tables_count_take_le(tables@, ti as int + 1);
                assert(tables@.take(ti as int + 1).drop_last() =~= tables@.take(ti as int));
                assert(tables@.take(ti as int + 1).last() == t);
            }
            r.insert_merge(tables[ti].names[j].as_slice(), tables[ti].stats[j]);
            proof {
                lemma_merge_upsert(
                    merge_all(tables@.take(ti as int)),
                    t.map_prefix(j as int),
                    t.key_at(j as int),
                    t.stat_at(j as int),
                );
            }
            j = j + 1;
        }
        proof {
            assert(t.map_prefix(t.len()) == t@);
            assert(tables@.take(ti as int + 1).drop_last() =~= tables@.take(ti as int));
            assert(tables@.take(ti as int + 1).last() == t);
        }
        ti = ti + 1;
    }
    proof {
        assert(tables@.take(nt as int) =~= tables@);
    }
    r
}

} // verus!
