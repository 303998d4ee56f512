//! Parsing records and fixed-point temperatures.
//!
//! A record is one line `<station>;<temperature>\n`.  A temperature is an
//! optional `-`, one or two integer digits, a `.`, and exactly one
//! fractional digit; it denotes an integer number of tenths of a degree.

use vstd::prelude::*;

use crate::search::find_byte;
use crate::search::lemma_find_byte_props;

verus! {

/// Why a range of input was rejected.
#[derive(Clone, Copy, Debug, PartialEq, Eq, Structural)]
pub enum ParseError {
    /// A record had no `;` between station name and temperature.
    NoSeparator,
    /// A temperature field did not match the fixed-point grammar.
    BadNumber,
}

pub open spec fn is_digit(b: u8) -> bool {
    48 <= b <= 57
}

/// The value denoted by a temperature field, in tenths of a degree, or
/// `None` when the field does not match the grammar.
pub open spec fn parse_temp(s: Seq<u8>) -> Option<int> {
    let neg = s.len() > 0 && s[0] == 45;
    let d = if neg {
        s.drop_first()
    } else {
        s
    };
    if d.len() == 3 && is_digit(d[0]) && d[1] == 46 && is_digit(d[2]) {
        let m = (d[0] - 48) * 10 + (d[2] - 48);
        Some(if neg { -m } else { m })
    } else if d.len() == 4 && is_digit(d[0]) && is_digit(d[1]) && d[2] == 46 && is_digit(d[3]) {
        let m = (d[0] - 48) * 100 + (d[1] - 48) * 10 + (d[3] - 48);
        Some(if neg { -m } else { m })
    } else {
        None
    }
}

/// The station name and temperature of one record line (without the
/// trailing newline), or the error that rejects it.
pub open spec fn parse_line(line: Seq<u8>) -> Result<(Seq<u8>, int), ParseError> {
    match find_byte(line, 59) {
        None => Err(ParseError::NoSeparator),
        Some(i) => match parse_temp(line.skip(i + 1)) {
            None => Err(ParseError::BadNumber),
            Some(t) => Ok((line.subrange(0, i), t)),
        },
    }
}

/// All records of one byte range, in order.  Processing stops without
/// error at an empty line or when no newline remains; any malformed
/// record that is reached rejects the whole range.
pub open spec fn parse_chunk(s: Seq<u8>) -> Result<Seq<(Seq<u8>, int)>, ParseError>
    decreases s.len(),
    via parse_chunk_decreases
{
    match find_byte(s, 10) {
        None => Ok(Seq::empty()),
        Some(i) => {
            if i == 0 {
                Ok(Seq::empty())
            } else {
                match parse_line(s.subrange(0, i)) {
                    Err(e) => Err(e),
                    Ok(r) => match parse_chunk(s.skip(i + 1)) {
                        Err(e) => Err(e),
                        Ok(rs) => Ok(seq![r] + rs),
                    },
                }
            }
        },
    }
}

#[via_fn]
proof fn parse_chunk_decreases(s: Seq<u8>) {
    lemma_find_byte_props(s, 10);
}

/// Prepend already-parsed records to the outcome on the remaining input.
pub open spec fn chain(
    prefix: Seq<(Seq<u8>, int)>,
    rest: Result<Seq<(Seq<u8>, int)>, ParseError>,
) -> Result<Seq<(Seq<u8>, int)>, ParseError> {
    match rest {
        Ok(rs) => Ok(prefix + rs),
        Err(e) => Err(e),
    }
}

/// The records of two ranges parsed separately, in order; the first
/// error wins, errors of the first range before errors of the second.
pub open spec fn chain2(
    x: Result<Seq<(Seq<u8>, int)>, ParseError>,
    y: Result<Seq<(Seq<u8>, int)>, ParseError>,
) -> Result<Seq<(Seq<u8>, int)>, ParseError> {
    match x {
        Err(e) => Err(e),
        Ok(u) => match y {
            Err(e) => Err(e),
            Ok(v) => Ok(u + v),
        },
    }
}

/// No record of `s` is empty: a newline never stands first nor right
/// after another newline.
pub open spec fn no_blank_records(s: Seq<u8>) -> bool {
    forall|i: int| 0 <= i < s.len() && #[trigger] s[i] == 10 ==> i >= 1 && s[i - 1] != 10
}

/// Cutting right after a record separator does not change what is
/// parsed: the records of the whole are the records of the two parts,
/// provided the first part ends at a separator and has no blank record
/// (a blank record stops parsing early).
pub proof fn lemma_parse_chunk_concat(a: Seq<u8>, b: Seq<u8>)
    requires
        a.len() > 0 ==> a[a.len() - 1] == 10,
        no_blank_records(a),
    ensures
        parse_chunk(a + b) == chain2(parse_chunk(a), parse_chunk(b)),
    decreases a.len(),
{
    if a.len() == 0 {
        assert(a + b =~= b);
        match parse_chunk(b) {
            Ok(v) => {
                assert(Seq::<(Seq<u8>, int)>::empty() + v =~= v);
            },
            Err(_) => {},
        }
    } else {
        lemma_find_byte_props(a, 10);
        match find_byte(a, 10) {
            None => {
                assert(a[a.len() - 1] == 10);
                assert(false);
            },
            Some(i) => {
                assert(a[i] == 10);
                assert(i >= 1);
                assert forall|j: int| 0 <= j < i implies (a + b)[j] != 10 by {
                    assert((a + b)[j] == a[j]);
                }
                assert((a + b)[i] == a[i]);
                crate::search::lemma_find_byte_is(a + b, 10, i);
                assert((a + b).subrange(0, i) =~= a.subrange(0, i));
                let rest_a = a.skip(i + 1);
                assert((a + b).skip(i + 1) =~= rest_a + b);
                if rest_a.len() > 0 {
                    assert(rest_a[rest_a.len() - 1] == a[a.len() - 1]);
                }
                assert forall|j: int| 0 <= j < rest_a.len() && #[trigger] rest_a[j] == 10 implies j
                    >= 1 && rest_a[j - 1] != 10 by {
                    assert(rest_a[j] == a[i + 1 + j]);
                    if j == 0 {
                        assert(a[i + 1 + j - 1] != 10);
                        assert(false);
                    } else {
                        assert(rest_a[j - 1] == a[i + j]);
                    }
                }
                lemma_parse_chunk_concat(rest_a, b);
                match parse_line(a.subrange(0, i)) {
                    Err(_) => {},
                    Ok(rr) => {
                        match parse_chunk(rest_a) {
                            Err(_) => {},
                            Ok(u) => {
                                match parse_chunk(b) {
                                    Err(_) => {},
                                    Ok(v) => {
                                        assert(seq![rr] + (u + v) =~= (seq![rr] + u) + v);
                                    },
                                }
                            },
                        }
                    },
                }
            },
        }
    }
}

/// All the given byte ranges concatenated in order.
pub open spec fn concat_all(cs: Seq<Seq<u8>>) -> Seq<u8>
    decreases cs.len(),
{
    if cs.len() == 0 {
        Seq::empty()
    } else {
        concat_all(cs.drop_last()) + cs.last()
    }
}

/// The ranges parsed one after the other; the earliest range's error wins.
pub open spec fn parse_chunks(cs: Seq<Seq<u8>>) -> Result<Seq<(Seq<u8>, int)>, ParseError>
    decreases cs.len(),
{
    if cs.len() == 0 {
        Ok(Seq::empty())
    } else {
        chain2(parse_chunks(cs.drop_last()), parse_chunk(cs.last()))
    }
}

/// Ranges that all parse make the whole sequence parse.
pub proof fn lemma_parse_chunks_ok(cs: Seq<Seq<u8>>)
    requires
        forall|i: int| 0 <= i < cs.len() ==> parse_chunk(#[trigger] cs[i]) is Ok,
    ensures
        parse_chunks(cs) is Ok,
    decreases cs.len(),
{
    if cs.len() > 0 {
        assert forall|i: int| 0 <= i < cs.drop_last().len() implies parse_chunk(
            #[trigger] cs.drop_last()[i],
        ) is Ok by {
            assert(cs.drop_last()[i] == cs[i]);
        }
        lemma_parse_chunks_ok(cs.drop_last());
    }
}

/// An error among the first `m` ranges decides the whole sequence.
pub proof fn lemma_parse_chunks_err_extends(cs: Seq<Seq<u8>>, m: int)
    requires
        0 <= m <= cs.len(),
        parse_chunks(cs.take(m)) is Err,
    ensures
        parse_chunks(cs) == parse_chunks(cs.take(m)),
    decreases cs.len() - m,
{
    if m == cs.len() {
        assert(cs.take(m) =~= cs);
    } else {
        assert(cs.take(m + 1).drop_last() =~= cs.take(m));
        assert(cs.take(m + 1).last() == cs[m]);
        lemma_parse_chunks_err_extends(cs, m + 1);
    }
}

/// Concatenation preserves the absence of blank records.
pub proof fn lemma_no_blank_concat(a: Seq<u8>, b: Seq<u8>)
    requires
        no_blank_records(a),
        no_blank_records(b),
    ensures
        no_blank_records(a + b),
{
    assert forall|i: int| 0 <= i < (a + b).len() && #[trigger] (a + b)[i] == 10 implies i >= 1 && (a
        + b)[i - 1] != 10 by {
        if i < a.len() {
            assert((a + b)[i] == a[i]);
            assert((a + b)[i - 1] == a[i - 1]);
        } else if i == a.len() {
            assert((a + b)[i] == b[0]);
            assert(false);
        } else {
            assert((a + b)[i] == b[i - a.len()]);
            assert((a + b)[i - 1] == b[i - a.len() - 1]);
        }
    }
}

/// If every range ends with a separator when non-empty, so does their
/// concatenation.
pub proof fn lemma_concat_all_tail(cs: Seq<Seq<u8>>)
    requires
        forall|i: int|
            0 <= i < cs.len() ==> ((#[trigger] cs[i]).len() > 0 ==> cs[i][cs[i].len() - 1] == 10),
    ensures
        concat_all(cs).len() > 0 ==> concat_all(cs)[concat_all(cs).len() - 1] == 10,
    decreases cs.len(),
{
    if cs.len() > 0 {
        lemma_concat_all_tail(cs.drop_last());
        let a = concat_all(cs.drop_last());
        let b = cs.last();
        if b.len() > 0 {
            assert((a + b)[(a + b).len() - 1] == b[b.len() - 1]);
        } else {
            assert(a + b =~= a);
        }
    }
}

/// If no range holds a blank record, neither does their concatenation.
pub proof fn lemma_concat_all_no_blank(cs: Seq<Seq<u8>>)
    requires
        forall|i: int| 0 <= i < cs.len() ==> no_blank_records(#[trigger] cs[i]),
    ensures
        no_blank_records(concat_all(cs)),
    decreases cs.len(),
{
    if cs.len() == 0 {
    } else {
        lemma_concat_all_no_blank(cs.drop_last());
        lemma_no_blank_concat(concat_all(cs.drop_last()), cs.last());
    }
}

/// Decode a temperature field into tenths of a degree.
pub fn parse_number(data: &[u8]) -> (r: Result<i16, ParseError>)
    ensures
        match r {
            Ok(v) => parse_temp(data@) == Some(v as int) && -999 <= v <= 999,
            Err(e) => parse_temp(data@) is None && e == ParseError::BadNumber,
        },
{
    let n = data.len();
    let neg = n > 0 && *vstd::slice::slice_index_get(data, 0) == 45;
    let off: usize = if neg {
        1
    } else {
        0
    };
    proof {
        if neg {
            assert(data@.drop_first() =~= data@.subrange(1, n as int));
        }
    }
    let m = n - off;
    if m == 3 {
        let d0 = *vstd::slice::slice_index_get(data, off);
        let d1 = *vstd::slice::slice_index_get(data, off + 1);
        let d2 = *vstd::slice::slice_index_get(data, off + 2);
        if 48 <= d0 && d0 <= 57 && d1 == 46 && 48 <= d2 && d2 <= 57 {
            let v: i16 = (d0 - 48) as i16 * 10 + (d2 - 48) as i16;
            Ok(if neg { -v } else { v })
        } else {
            Err(ParseError::BadNumber)
        }
    } else if m == 4 {
        let d0 = *vstd::slice::slice_index_get(data, off);
        let d1 = *vstd::slice::slice_index_get(data, off + 1);
        let d2 = *vstd::slice::slice_index_get(data, off + 2);
        let d3 = *vstd::slice::slice_index_get(data, off + 3);
        if 48 <= d0 && d0 <= 57 && 48 <= d1 && d1 <= 57 && d2 == 46 && 48 <= d3 && d3 <= 57 {
            let v: i16 = (d0 - 48) as i16 * 100 + (d1 - 48) as i16 * 10 + (d3 - 48) as i16;
            Ok(if neg { -v } else { v })
        } else {
            Err(ParseError::BadNumber)
        }
    } else {
        Err(ParseError::BadNumber)
    }
}

} // verus!
