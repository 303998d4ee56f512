//! Aggregating one byte range into a per-station statistics table.

use vstd::prelude::*;

use crate::parse::ParseError;
use crate::parse::chain;
use crate::parse::parse_chunk;
use crate::parse::parse_number;
use crate::search::lemma_find_byte_is;
use crate::search::lemma_find_byte_none;
use crate::stat::GStat;
use crate::stat::g_single;
use crate::table::Table;
use vstd::slice::slice_subrange;

verus! {

/// The statistics table denoted by a sequence of records.
pub open spec fn agg(rs: Seq<(Seq<u8>, int)>) -> Map<Seq<u8>, GStat>
    decreases rs.len(),
{
    if rs.len() == 0 {
        Map::empty()
    } else {
        crate::table::upsert(agg(rs.drop_last()), rs.last().0, g_single(rs.last().1))
    }
}

/// Parse one byte range and fold every record into a fresh table.
///
/// Returns the number of records together with the table, or the first
/// error.  The range must be small enough that its record count fits in
/// a `u32`.
pub fn process_chunk(data: &[u8]) -> (r: Result<(u32, Table), ParseError>)
    requires
        data@.len() <= u32::MAX,
    ensures
        match r {
            Ok(p) => parse_chunk(data@) matches Ok(rs) && p.1@ == agg(rs) && p.0 as int
                == rs.len() && p.1.wf() && p.1.count_sum() == rs.len() && 2 * rs.len()
                <= data@.len(),
            Err(e) => parse_chunk(data@) matches Err(e2) && e2 == e,
        },
{
    let len = data.len();
    let mut pos: usize = 0;
    let mut total: u32 = 0;
    let mut table = Table::new();
    let ghost mut rs_done: Seq<(Seq<u8>, int)> = Seq::empty();
    let mut done = false;
    let mut err: Option<ParseError> = None;
    proof {
        assert(data@.skip(0) =~= data@);
        match parse_chunk(data@) {
            Ok(rs) => {
                assert(Seq::<(Seq<u8>, int)>::empty() + rs =~= rs);
            },
            Err(_) => {},
        }
    }
    while !done
        invariant
            0 <= pos <= data@.len(),
            data@.len() <= u32::MAX,
            len == data@.len(),
            table.wf(),
            table@ == agg(rs_done),
            table.count_sum() == rs_done.len(),
            total as int == rs_done.len(),
            2 * rs_done.len() <= pos,
            !done ==> err is None && parse_chunk(data@) == chain(
                rs_done,
                parse_chunk(data@.skip(pos as int)),
            ),
            done ==> (match err {
                None => parse_chunk(data@) == Ok::<Seq<(Seq<u8>, int)>, ParseError>(rs_done),
                Some(e) => parse_chunk(data@) matches Err(e2) && e2 == e,
            }),
        decreases data@.len() - pos + (if done {
            0int
        } else {
            1int
        }),
    {
        let rest = slice_subrange(data, pos, len);
        let ghost srest = data@.skip(pos as int);
        proof {
            assert(rest@ =~= srest);
        }
        match memchr::memchr(10u8, rest) {
            None => {
                proof {
                    lemma_find_byte_none(srest, 10);
                    assert(rs_done + Seq::<(Seq<u8>, int)>::empty() =~= rs_done);
                }
                done = true;
            },
            Some(idx) => {
                proof {
                    lemma_find_byte_is(srest, 10, idx as int);
                }
                if idx == 0 {
                    proof {
                        assert(rs_done + Seq::<(Seq<u8>, int)>::empty() =~= rs_done);
                    }
                    done = true;
                } else {
                    let line = slice_subrange(data, pos, pos + idx);
                    proof {
                        assert(line@ =~= srest.subrange(0, idx as int));
                    }
                    match memchr::memchr(59u8, line) {
                        None => {
                            proof {
                                lemma_find_byte_none(line@, 59);
                            }
                            err = Some(ParseError::NoSeparator);
                            done = true;
                        },
                        Some(sep) => {
                            proof {
                                lemma_find_byte_is(line@, 59, sep as int);
                            }
                            let station = slice_subrange(data, pos, pos + sep);
                            let after = slice_subrange(data, pos + sep + 1, pos + idx);
                            proof {
                                assert(station@ =~= line@.subrange(0, sep as int));
                                assert(after@ =~= line@.skip(sep as int + 1));
                            }
                            match parse_number(after) {
                                Err(e) => {
                                    err = Some(e);
                                    done = true;
                                },
                                Ok(num) => {
                                    let ghost prev = rs_done;
                                    let ghost rec = (station@, num as int);
                                    proof {
                                        assert(srest.skip(idx as int + 1) =~= data@.skip(
                                            pos + idx + 1,
                                        ));
                                        match parse_chunk(srest.skip(idx as int + 1)) {
                                            Ok(rs) => {
                                                assert(prev + (seq![rec] + rs) =~= prev.push(rec)
                                                    + rs);
                                            },
                                            Err(_) => {},
                                        }
                                    }
                                    table.record(station, num);
                                    total = total + 1;
                                    proof {
                                        rs_done = rs_done.push(rec);
                                        assert(rs_done.drop_last() =~= prev);
                                        assert(rs_done.last() == rec);
                                    }
                                    pos = pos + idx + 1;
                                },
                            }
                        },
                    }
                }
            },
        }
    }
    match err {
        Some(e) => Err(e),
        None => Ok((total, table)),
    }
}

} // verus!
