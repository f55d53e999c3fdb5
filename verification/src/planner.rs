//! The chunk planner: split `[0, len)` into per-worker byte ranges whose
//! interior boundaries fall immediately after a line terminator.
//!
//! Each naive split point `i * len / workers` is moved forward to just past
//! the next terminator; the first range starts at 0, the last ends at `len`,
//! and neighbouring ranges share their boundary, so the ranges partition the
//! whole input.

use vstd::arithmetic::div_mod::{lemma_div_is_ordered, lemma_div_multiples_vanish};
use vstd::arithmetic::mul::lemma_mul_inequality;
use vstd::prelude::*;

use crate::scan::term_byte;
use crate::InputError;

verus! {

/// A half-open byte interval `[start, end)` of the input, owned by one
/// worker.
#[derive(Debug, Clone, Copy, PartialEq, Eq, Structural)]
pub struct ChunkRange {
    pub start: usize,
    pub end: usize,
}

/// The naive split point of worker `i` before alignment.
pub open spec fn naive_point(len: int, workers: int, i: int) -> int {
    i * len / workers
}

/// `b` is the aligned boundary for worker `i`: the position immediately
/// after the first line terminator at or past the naive point (the naive
/// point itself when it already sits at the end).
pub open spec fn boundary_ok(data: Seq<u8>, workers: int, i: int, b: int) -> bool {
    let p = naive_point(data.len() as int, workers, i);
    if p >= data.len() {
        b == data.len()
    } else {
        &&& p < b <= data.len()
        &&& data[b - 1] == term_byte()
        &&& forall|j: int| p <= j < b - 1 ==> data[j] != term_byte()
    }
}

/// A plan in which the ranges are in order, contiguous, and cover exactly
/// `[0, len)`.
pub open spec fn ranges_partition(rs: Seq<ChunkRange>, len: int) -> bool {
    &&& rs.len() >= 1
    &&& rs[0].start == 0
    &&& rs[rs.len() - 1].end == len
    &&& forall|i: int| 0 <= i < rs.len() ==> (#[trigger] rs[i]).start <= rs[i].end <= len
    &&& forall|i: int| 0 <= i < rs.len() - 1 ==> (#[trigger] rs[i]).end == rs[i + 1].start
}

/// The bytes of the ranges, concatenated in plan order.
pub open spec fn concat_ranges(data: Seq<u8>, rs: Seq<ChunkRange>) -> Seq<u8>
    decreases rs.len(),
{
    if rs.len() == 0 {
        Seq::empty()
    } else {
        concat_ranges(data, rs.drop_last()) + data.subrange(
            rs.last().start as int,
            rs.last().end as int,
        )
    }
}

/// Contiguous ranges concatenate to the span they cover.
proof fn lemma_concat_ranges_span(data: Seq<u8>, rs: Seq<ChunkRange>)
    requires
        rs.len() >= 1,
        forall|i: int| 0 <= i < rs.len() ==> (#[trigger] rs[i]).start <= rs[i].end <= data.len(),
        forall|i: int| 0 <= i < rs.len() - 1 ==> (#[trigger] rs[i]).end == rs[i + 1].start,
    ensures
        rs[0].start <= rs[rs.len() - 1].end,
        concat_ranges(data, rs) == data.subrange(
            rs[0].start as int,
            rs[rs.len() - 1].end as int,
        ),
    decreases rs.len(),
{
    if rs.len() == 1 {
        assert(rs.drop_last().len() == 0);
        assert(concat_ranges(data, rs.drop_last()) == Seq::<u8>::empty());
        assert(concat_ranges(data, rs) =~= data.subrange(
            rs[0].start as int,
            rs[0].end as int,
        ));
    } else {
        let front = rs.drop_last();
        assert(forall|i: int| 0 <= i < front.len() ==> front[i] == #[trigger] rs[i]);
        lemma_concat_ranges_span(data, front);
        let a = rs[0].start as int;
        let mid = rs.last().start as int;
        let e = rs.last().end as int;
        assert(front[front.len() - 1].end == rs.last().start);
        assert(a <= mid <= e <= data.len());
        assert(concat_ranges(data, front) == data.subrange(a, mid));
        assert(concat_ranges(data, rs) == data.subrange(a, mid) + data.subrange(mid, e));
        assert(data.subrange(a, mid) + data.subrange(mid, e) =~= data.subrange(a, e));
    }
}

/// Any partition plan reconstructs the input exactly: concatenating the
/// chunks' byte ranges gives back the whole file.
pub proof fn lemma_ranges_reconstruct(data: Seq<u8>, rs: Seq<ChunkRange>)
    requires
        ranges_partition(rs, data.len() as int),
    ensures
        concat_ranges(data, rs) == data,
{
    lemma_concat_ranges_span(data, rs);
    assert(data.subrange(0, data.len() as int) =~= data);
}

/// The position immediately after the first terminator at or past `pos`,
/// if the tail holds one.
fn align_forward(data: &Vec<u8>, pos: usize) -> (r: Option<usize>)
    requires
        pos <= data@.len(),
    ensures
        match r {
            Some(b) => pos < b <= data@.len() && data@[b - 1] == term_byte() && forall|j: int|
                pos <= j < b - 1 ==> data@[j] != term_byte(),
            None => forall|j: int| pos <= j < data@.len() ==> data@[j] != term_byte(),
        },
{
    let mut j: usize = pos;
    while j < data.len()
        invariant
            pos <= j <= data@.len(),
            forall|t: int| pos <= t < j ==> data@[t] != term_byte(),
        decreases data@.len() - j,
    {
        if data[j] == 10 {
            return Some(j + 1);
        }
        j = j + 1;
    }
    None
}

/// The naive split point `i * len / workers`, computed without overflow.
fn naive_split(len: usize, workers: usize, i: usize) -> (p: usize)
    requires
        1 <= workers,
        i <= workers,
    ensures
        p == naive_point(len as int, workers as int, i as int),
        p <= len,
{
    proof {
        assert((i as int) * (len as int) < 0x100000000000000000000000000000000int) by (nonlinear_arith)
            requires
                0 <= i < 0x10000000000000000,
                0 <= len < 0x10000000000000000,
        ;
        lemma_mul_inequality(i as int, workers as int, len as int);
        lemma_div_is_ordered((i as int) * (len as int), (workers as int) * (len as int), workers as int);
        lemma_div_multiples_vanish(len as int, workers as int);
    }
    let p128: u128 = (i as u128) * (len as u128) / (workers as u128);
    p128 as usize
}

/// Compute `workers` line-aligned, contiguous ranges covering `[0, len)`.
///
/// Fails with `MissingTerminator` exactly when some interior naive point has
/// no line terminator anywhere after it — a truncated final line.
pub fn plan_chunks(data: &Vec<u8>, workers: usize) -> (r: Result<Vec<ChunkRange>, InputError>)
    requires
        1 <= workers,
    ensures
        match r {
            Ok(rs) => {
                &&& rs@.len() == workers
                &&& ranges_partition(rs@, data@.len() as int)
                &&& forall|i: int|
                    1 <= i < workers ==> boundary_ok(
                        data@,
                        workers as int,
                        i,
                        (#[trigger] rs@[i]).start as int,
                    )
            },
            Err(e) => {
                &&& e == InputError::MissingTerminator
                &&& exists|i: int|
                    1 <= i < workers && naive_point(data@.len() as int, workers as int, i)
                        < data@.len() && forall|j: int|
                        naive_point(data@.len() as int, workers as int, i) <= j < data@.len()
                            ==> data@[j] != term_byte()
            },
        },
{
    let n = data.len();
    let mut ranges: Vec<ChunkRange> = Vec::new();
    let mut prev_end: usize = 0;
    let mut i: usize = 1;
    while i < workers
        invariant
            1 <= i <= workers,
            n == data@.len(),
            ranges@.len() == i - 1,
            prev_end <= n,
            i == 1 ==> prev_end == 0,
            i > 1 ==> boundary_ok(data@, workers as int, i - 1, prev_end as int),
            i > 1 ==> ranges@[i - 2].end == prev_end,
            ranges@.len() > 0 ==> ranges@[0].start == 0,
            forall|t: int| 0 <= t < i - 1 ==> (#[trigger] ranges@[t]).start <= ranges@[t].end <= n,
            forall|t: int| 0 <= t < i - 2 ==> (#[trigger] ranges@[t]).end == ranges@[t + 1].start,
            forall|t: int|
                1 <= t < i ==> boundary_ok(
                    data@,
                    workers as int,
                    t,
                    if t < i - 1 {
                        (#[trigger] ranges@[t]).start as int
                    } else {
                        prev_end as int
                    },
                ),
        decreases workers - i,
    {
        let p = naive_split(n, workers, i);
        let b: usize;
        if p >= n {
            b = n;
        } else {
            match align_forward(data, p) {
                Some(found) => {
                    b = found;
                },
                None => {
                    return Err(InputError::MissingTerminator);
                },
            }
        }
        proof {
            // Boundaries never move backwards: the previous boundary is the
            // first terminator after an earlier naive point.
            if i > 1 {
                let len = n as int;
                let w = workers as int;
                lemma_mul_inequality(i - 1, i as int, len);
                lemma_div_is_ordered((i - 1) * len, (i as int) * len, w);
                assert(naive_point(len, w, i - 1) <= naive_point(len, w, i as int));
                if prev_end > b {
                    assert(boundary_ok(data@, w, i - 1, prev_end as int));
                    assert(naive_point(len, w, i - 1) < data@.len());
                    assert(data@[b - 1] == term_byte());
                    assert(naive_point(len, w, i - 1) <= b - 1 < prev_end - 1);
                    assert(false);
                }
            }
        }
        ranges.push(ChunkRange { start: prev_end, end: b });
        prev_end = b;
        i = i + 1;
    }
    ranges.push(ChunkRange { start: prev_end, end: n });
    proof {
        assert(ranges@[0].start == 0);
        assert(ranges@[ranges@.len() - 1].end == n);
    }
    Ok(ranges)
}

} // verus!
