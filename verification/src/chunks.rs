//! Bytes cut into chunks of one size.

use vstd::prelude::*;

verus! {

/// The bytes from `start` to before `end`.
#[derive(Clone, Copy, PartialEq, Eq, Structural, Debug)]
pub struct ByteRange {
    pub start: u64,
    pub end: u64,
}

/// The chunks of the bytes from `from` to `total`: each of `size` bytes, but
/// for the last, which has the rest.
pub open spec fn chunks_from(from: u64, total: u64, size: u64) -> Seq<ByteRange>
    decreases total - from,
{
    if from >= total || size == 0 {
        Seq::empty()
    } else {
        let end = if total - from > size {
            (from + size) as u64
        } else {
            total
        };
        seq![ByteRange { start: from, end }] + chunks_from(end, total, size)
    }
}

/// The chunks of `total` bytes.
pub fn chunk_ranges(total: u64, size: u64) -> (r: Vec<ByteRange>)
    requires
        size > 0,
    ensures
        r@ == chunks_from(0, total, size),
{
    let mut out: Vec<ByteRange> = Vec::new();
    let mut from: u64 = 0;
    assert(out@ + chunks_from(0, total, size) =~= chunks_from(0, total, size));
    while from < total
        invariant
            size > 0,
            from <= total,
            chunks_from(0, total, size) == out@ + chunks_from(from, total, size),
        decreases total - from,
    {
        let ghost before = out@;
        let ghost start = from;
        let end: u64 = if total - from > size {
            from + size
        } else {
            total
        };
        let piece = ByteRange { start: from, end };
        out.push(piece);
        from = end;
        assert(before + (seq![piece] + chunks_from(end, total, size)) =~= out@ + chunks_from(
            end,
            total,
            size,
        ));
    }
    assert(out@ + Seq::<ByteRange>::empty() =~= out@);
    out
}

/// That ranges follow on each other from `from` to `total`.
pub open spec fn contiguous(s: Seq<ByteRange>, from: u64, total: u64) -> bool
    decreases s.len(),
{
    if s.len() == 0 {
        from == total
    } else {
        s[0].start == from && s[0].end > from && contiguous(s.skip(1), s[0].end, total)
    }
}

/// The chunks hold every byte once, in order, and none is larger than the size.
pub proof fn chunks_cover(from: u64, total: u64, size: u64)
    requires
        size > 0,
        from <= total,
    ensures
        contiguous(chunks_from(from, total, size), from, total),
        forall|i: int|
            0 <= i < chunks_from(from, total, size).len() ==> (#[trigger] chunks_from(
                from,
                total,
                size,
            )[i]).end - chunks_from(from, total, size)[i].start <= size,
    decreases total - from,
{
    if from < total {
        let s = chunks_from(from, total, size);
        let end = s[0].end;
        chunks_cover(end, total, size);
        let rest = chunks_from(end, total, size);
        assert(s.skip(1) =~= rest);
        assert forall|i: int| 0 <= i < s.len() implies (#[trigger] s[i]).end - s[i].start
            <= size by {
            if i > 0 {
                assert(s[i] == rest[i - 1]);
            }
        }
    }
}

/// Chunks that follow on each other, put together, are the bytes that they
/// were cut from.
pub proof fn chunks_join(bytes: Seq<u8>, s: Seq<ByteRange>, from: u64)
    requires
        contiguous(s, from, bytes.len() as u64),
        bytes.len() <= u64::MAX,
        from <= bytes.len(),
    ensures
        joined_chunks(bytes, s) == bytes.skip(from as int),
    decreases s.len(),
{
    if s.len() == 0 {
        assert(bytes.skip(from as int) =~= Seq::empty());
    } else {
        lemma_contiguous_end(s.skip(1), s[0].end, bytes.len() as u64);
        chunks_join(bytes, s.skip(1), s[0].end);
        assert(bytes.subrange(from as int, s[0].end as int) + bytes.skip(s[0].end as int)
            =~= bytes.skip(from as int));
    }
}

/// Ranges of bytes, put together.
pub open spec fn joined_chunks(bytes: Seq<u8>, s: Seq<ByteRange>) -> Seq<u8>
    decreases s.len(),
{
    if s.len() == 0 {
        Seq::empty()
    } else {
        bytes.subrange(s[0].start as int, s[0].end as int) + joined_chunks(bytes, s.skip(1))
    }
}

proof fn lemma_contiguous_end(s: Seq<ByteRange>, from: u64, total: u64)
    requires
        contiguous(s, from, total),
    ensures
        from <= total,
    decreases s.len(),
{
    if s.len() > 0 {
        lemma_contiguous_end(s.skip(1), s[0].end, total);
    }
}

/// Every chunk begins a whole number of sizes behind the first and ends where
/// the next begins; the last ends with the bytes. No byte is left over.
pub proof fn chunks_are_evenly_cut(from: u64, total: u64, size: u64, i: int)
    requires
        size > 0,
        from <= total,
        0 <= i < chunks_from(from, total, size).len(),
    ensures
        ({
            let s = chunks_from(from, total, size);
            &&& s[i].start == from + i * size
            &&& i + 1 < s.len() ==> s[i].end == from + (i + 1) * size
            &&& i + 1 == s.len() ==> s[i].end == total && total <= from + (i + 1) * size
            &&& s[i].start < s[i].end
        }),
    decreases total - from,
{
    let s = chunks_from(from, total, size);
    let end = if total - from > size {
        (from + size) as u64
    } else {
        total
    };
    let rest = chunks_from(end, total, size);
    assert(s.skip(1) =~= rest);
    assert(0 * size == 0 && 1 * size == size) by (nonlinear_arith);
    if i == 0 {
        if end == total {
            assert(rest.len() == 0);
        } else {
            assert(rest.len() > 0);
        }
    } else {
        assert(s[i] == rest[i - 1]);
        chunks_are_evenly_cut(end, total, size, i - 1);
        assert(i * size == (i - 1) * size + size) by (nonlinear_arith);
        assert((i + 1) * size == i * size + size) by (nonlinear_arith);
    }
}

} // verus!
