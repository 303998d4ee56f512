//! Splitting the input buffer into record-aligned byte ranges.

use vstd::prelude::*;

use vstd::slice::slice_subrange;

verus! {

/// The target size of a range: an even share of the buffer.
pub open spec fn split_target(len: int, parts: int) -> int
    recommends
        parts >= 1,
{
    len / parts
}

/// Split `data` into at most `parts` contiguous ranges.  Every range but
/// the last ends immediately after an occurrence of `needle`, namely the
/// first occurrence at or past the range's even-share target, so no
/// record is ever split across two ranges.
pub fn chunk_data(data: &[u8], parts: usize, needle: u8) -> (r: Vec<(usize, usize)>)
    requires
        1 <= parts,
    ensures
        1 <= r@.len() <= parts,
        (r@[0]).0 == 0,
        (r@[r@.len() - 1]).1 == data@.len(),
        forall|i: int| 0 <= i < r@.len() - 1 ==> (#[trigger] r@[i]).1 == r@[i + 1].0,
        forall|i: int| 0 <= i < r@.len() ==> (#[trigger] r@[i]).0 <= r@[i].1 <= data@.len(),
        forall|i: int|
            0 <= i < r@.len() - 1 ==> {
                let lo = (#[trigger] r@[i]).0;
                let hi = r@[i].1;
                &&& hi - lo > split_target(data@.len() as int, parts as int)
                &&& data@[hi - 1] == needle
                &&& forall|j: int|
                    lo + split_target(data@.len() as int, parts as int) <= j < hi - 1
                        ==> data@[j] != needle
            },
        ({
            let last = r@[r@.len() - 1];
            ||| r@.len() == parts
            ||| last.1 - last.0 <= split_target(data@.len() as int, parts as int)
            ||| forall|j: int|
                last.0 + split_target(data@.len() as int, parts as int) <= j < data@.len()
                    ==> data@[j] != needle
        }),
{
    let len = data.len();
    let jump = len / parts;
    let mut r: Vec<(usize, usize)> = Vec::new();
    let mut start: usize = 0;
    let mut stopped = false;
    while r.len() < parts - 1 && !stopped && len - start > jump
        invariant
            1 <= parts,
            len == data@.len(),
            jump == split_target(len as int, parts as int),
            0 <= start <= len,
            r@.len() <= parts - 1,
            r@.len() == 0 ==> start == 0,
            r@.len() > 0 ==> (r@[0]).0 == 0 && (r@[r@.len() - 1]).1 == start,
            forall|i: int| 0 <= i < r@.len() - 1 ==> (#[trigger] r@[i]).1 == r@[i + 1].0,
            forall|i: int| 0 <= i < r@.len() ==> (#[trigger] r@[i]).0 <= r@[i].1 <= len,
            forall|i: int|
                0 <= i < r@.len() ==> {
                    let lo = (#[trigger] r@[i]).0;
                    let hi = r@[i].1;
                    &&& hi - lo > jump
                    &&& data@[hi - 1] == needle
                    &&& forall|j: int| lo + jump <= j < hi - 1 ==> data@[j] != needle
                },
            stopped ==> start + jump <= len && forall|j: int|
                start + jump <= j < len ==> data@[j] != needle,
        decreases len - start + (if stopped {
            0int
        } else {
            1int
        }),
    {
        let probe = slice_subrange(data, start + jump, len);
        match memchr::memchr(needle, probe) {
            Some(off) => {
                let end = start + jump + off + 1;
                let ghost r0 = r@;
                r.push((start, end));
                proof {
                    assert(r@[r@.len() - 1] == (start, end));
                    assert(forall|i: int| 0 <= i < r0.len() ==> r@[i] == r0[i]);
                    assert(data@[end - 1] == probe@[off as int]);
                    assert forall|j: int| start + jump <= j < end - 1 implies data@[j]
                        != needle by {
                        assert(probe@[j - start - jump] == data@[j]);
                    }
                }
                start = end;
            },
            None => {
                stopped = true;
                proof {
                    assert forall|j: int| start + jump <= j < len implies data@[j] != needle by {
                        assert(probe@[j - start - jump] == data@[j]);
                    }
                }
            },
        }
    }
    let ghost r0 = r@;
    r.push((start, len));
    proof {
        assert(r@[r@.len() - 1] == (start, len));
        assert(forall|i: int| 0 <= i < r0.len() ==> r@[i] == r0[i]);
    }
    r
}

} // verus!
