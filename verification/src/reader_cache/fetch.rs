//! How superfiles come into the disk cache.

use vstd::arithmetic::div_mod::lemma_fundamental_div_mod;
use vstd::prelude::*;

use crate::chunks::{
    chunk_ranges, chunks_cover, chunks_from, chunks_join, joined_chunks, ByteRange,
};
use crate::error::joined;
use crate::lazy_source::{SourceView, StorageRangeSource};
use crate::lex::bytes_copy;
use crate::manifest::entry::SuperfileUri;
use crate::reader_cache::disk::{DiskCacheError, DiskCacheStore};
use crate::text::{chars_of, text_eq};
use crate::writer::upload::{segment_path_text, segment_storage_path};

verus! {

// ---------------------------------------------------------------- configuration

/// How a superfile that is not cached is fetched.
#[derive(Clone, Copy, PartialEq, Eq, Structural, Debug)]
pub enum ColdFetchMode {
    /// All of it at once; the file is written meanwhile.
    HybridWithPrefetch,
    /// Not into the cache at all.
    RangeOnly,
    /// By ranges at first, all of it later.
    LazyForegroundWithBackgroundFill,
}

/// The way that a reader of a superfile takes.
#[derive(Clone, Copy, PartialEq, Eq, Structural, Debug)]
pub enum ColdPath {
    Hybrid,
    Lazy,
}

/// Why the cache has no reader where it is to be passed over.
pub open spec fn range_only_text() -> Seq<char> {
    "ColdFetchMode::RangeOnly bypasses the disk cache; construct StorageRangeSource + open_lazy directly"@
}

/// The way that a reader of a superfile takes.
pub fn cold_path(mode: ColdFetchMode) -> (r: Result<ColdPath, DiskCacheError>)
    ensures
        match mode {
            ColdFetchMode::HybridWithPrefetch => r == Ok::<ColdPath, DiskCacheError>(
                ColdPath::Hybrid,
            ),
            ColdFetchMode::LazyForegroundWithBackgroundFill => r == Ok::<ColdPath, DiskCacheError>(
                ColdPath::Lazy,
            ),
            ColdFetchMode::RangeOnly => r matches Err(DiskCacheError::SuperfileOpen(s)) && s@
                == range_only_text(),
        },
{
    match mode {
        ColdFetchMode::HybridWithPrefetch => Ok(ColdPath::Hybrid),
        ColdFetchMode::LazyForegroundWithBackgroundFill => Ok(ColdPath::Lazy),
        ColdFetchMode::RangeOnly => Err(
            DiskCacheError::SuperfileOpen(
                "ColdFetchMode::RangeOnly bypasses the disk cache; construct StorageRangeSource + open_lazy directly".to_string(),
            ),
        ),
    }
}

/// Seconds between two sweeps; none where no sweep is to run.
pub fn sweep_interval(threshold_secs: u64, interval_secs: u64) -> (r: Option<u64>)
    ensures
        threshold_secs == 0 ==> r is None,
        threshold_secs > 0 ==> r == Some(
            if interval_secs == 0 {
                1u64
            } else {
                interval_secs
            },
        ),
{
    if threshold_secs == 0 {
        None
    } else if interval_secs == 0 {
        Some(1)
    } else {
        Some(interval_secs)
    }
}

/// How many superfiles are filled at a time: at least one.
pub fn prefetch_permits(prefetch_concurrency: usize) -> (r: usize)
    ensures
        r == if prefetch_concurrency == 0 {
            1
        } else {
            prefetch_concurrency
        },
{
    if prefetch_concurrency == 0 {
        1
    } else {
        prefetch_concurrency
    }
}

// ---------------------------------------------------------------- chunks

/// The quotient, rounded up.
pub open spec fn div_up(a: int, b: int) -> int {
    (a + b - 1) / b
}

/// Bytes of the chunks of a fetch that reads all at once: no more chunks than
/// streams, unless the chunks are to be larger than that.
pub open spec fn hybrid_chunk(size: u64, chunk_bytes: u64, streams: u64) -> int {
    let per_stream = div_up(
        size as int,
        if streams == 0 {
            1
        } else {
            streams as int
        },
    );
    if per_stream > chunk_bytes {
        per_stream
    } else {
        chunk_bytes as int
    }
}

/// The chunks of a fetch that reads all at once.
pub fn hybrid_chunks(size: u64, chunk_bytes: u64, streams: u64) -> (r: Vec<ByteRange>)
    ensures
        r@ == chunks_from(0, size, hybrid_chunk(size, chunk_bytes, streams) as u64),
        hybrid_chunk(size, chunk_bytes, streams) <= u64::MAX,
{
    let n: u64 = if streams == 0 {
        1
    } else {
        streams
    };
    let sum: u128 = size as u128 + (n as u128 - 1);
    let wide: u128 = sum / n as u128;
    proof {
        lemma_div_up_bound(size as int, n as int);
    }
    let per_stream: u64 = wide as u64;
    let chunk: u64 = if per_stream > chunk_bytes {
        per_stream
    } else {
        chunk_bytes
    };
    if size == 0 || chunk == 0 {
        return Vec::new();
    }
    chunk_ranges(size, chunk)
}

proof fn lemma_div_up_bound(a: int, b: int)
    requires
        0 <= a,
        b >= 1,
    ensures
        0 <= div_up(a, b) <= a,
        a > 0 ==> div_up(a, b) >= 1,
        div_up(a, b) * b >= a,
{
    let x = a + b - 1;
    lemma_fundamental_div_mod(x, b);
    let q = x / b;
    let r = x % b;
    assert(x == b * q + r && 0 <= r < b);
    assert(q >= 0) by (nonlinear_arith)
        requires
            x == b * q + r,
            0 <= r < b,
            x >= 0,
    ;
    assert(b * q == q * b) by (nonlinear_arith);
    if a > 0 {
        assert(q >= 1) by (nonlinear_arith)
            requires
                x == b * q + r,
                0 <= r < b,
                x >= b,
        ;
        assert(q <= a) by (nonlinear_arith)
            requires
                b * q <= a + b - 1,
                b >= 1,
                a >= 1,
        ;
    } else {
        assert(q <= 0) by (nonlinear_arith)
            requires
                b * q <= b - 1,
                b >= 1,
        ;
    }
}

/// The chunks of a fetch to disk. They do not grow with the superfile.
pub fn fill_chunks(size: u64, chunk_bytes: u64) -> (r: Vec<ByteRange>)
    ensures
        r@ == chunks_from(
            0,
            size,
            if chunk_bytes == 0 {
                1
            } else {
                chunk_bytes
            },
        ),
{
    chunk_ranges(
        size,
        if chunk_bytes == 0 {
            1
        } else {
            chunk_bytes
        },
    )
}

/// A fetch that reads all at once has no more chunks than streams.
pub proof fn hybrid_uses_its_streams(size: u64, chunk_bytes: u64, streams: u64)
    requires
        streams > 0,
    ensures
        chunks_from(0, size, hybrid_chunk(size, chunk_bytes, streams) as u64).len() <= streams,
{
    let c = hybrid_chunk(size, chunk_bytes, streams);
    lemma_div_up_bound(size as int, streams as int);
    let per = div_up(size as int, streams as int);
    if size > 0 {
        assert(c * streams >= size) by (nonlinear_arith)
            requires
                c >= per,
                per * streams >= size,
                streams > 0,
        ;
        lemma_chunk_count(0, size, c as u64, streams as nat);
    }
}

proof fn lemma_chunk_count(from: u64, total: u64, size: u64, n: nat)
    requires
        size > 0,
        from <= total,
        size * n >= total - from,
    ensures
        chunks_from(from, total, size).len() <= n,
    decreases n,
{
    if from < total {
        if n == 0 {
            assert(size * n == 0) by (nonlinear_arith)
                requires
                    n == 0,
            ;
        }
        let end = if total - from > size {
            (from + size) as u64
        } else {
            total
        };
        assert(size * (n - 1) == size * n - size) by (nonlinear_arith);
        if end < total {
            lemma_chunk_count(end, total, size, (n - 1) as nat);
        } else {
            assert(chunks_from(end, total, size).len() == 0);
        }
    }
}

/// The parts, one behind the other.
pub open spec fn parts_joined(parts: Seq<Vec<u8>>) -> Seq<u8>
    decreases parts.len(),
{
    if parts.len() == 0 {
        Seq::empty()
    } else {
        parts_joined(parts.drop_last()) + parts.last()@
    }
}

/// The bytes of a superfile, put together from its chunks.
pub fn assemble_chunks(parts: &Vec<Vec<u8>>) -> (r: Vec<u8>)
    ensures
        r@ == parts_joined(parts@),
{
    let mut out: Vec<u8> = Vec::new();
    let mut i: usize = 0;
    assert(parts@.take(0) =~= Seq::empty());
    while i < parts.len()
        invariant
            i <= parts@.len(),
            out@ == parts_joined(parts@.take(i as int)),
        decreases parts@.len() - i,
    {
        proof {
            assert(parts@.take(i as int + 1).drop_last() =~= parts@.take(i as int));
            assert(parts@.take(i as int + 1).last() == parts@[i as int]);
        }
        let mut more = bytes_copy(parts[i].as_slice());
        out.append(&mut more);
        i = i + 1;
    }
    assert(parts@.take(i as int) =~= parts@);
    out
}

proof fn lemma_parts_are_chunks(object: Seq<u8>, ranges: Seq<ByteRange>, parts: Seq<Vec<u8>>)
    requires
        ranges.len() == parts.len(),
        forall|i: int|
            0 <= i < ranges.len() ==> (#[trigger] parts[i])@ == object.subrange(
                ranges[i].start as int,
                ranges[i].end as int,
            ),
    ensures
        parts_joined(parts) == joined_chunks(object, ranges),
    decreases ranges.len(),
{
    if ranges.len() > 0 {
        let r = ranges.drop_last();
        let p = parts.drop_last();
        assert forall|i: int| 0 <= i < r.len() implies (#[trigger] p[i])@ == object.subrange(
            r[i].start as int,
            r[i].end as int,
        ) by {
            assert(p[i] == parts[i]);
        }
        lemma_parts_are_chunks(object, r, p);
        lemma_joined_push(object, ranges);
    }
}

proof fn lemma_joined_push(object: Seq<u8>, s: Seq<ByteRange>)
    requires
        s.len() > 0,
    ensures
        joined_chunks(object, s) == joined_chunks(object, s.drop_last()) + object.subrange(
            s.last().start as int,
            s.last().end as int,
        ),
    decreases s.len(),
{
    let piece = object.subrange(s.last().start as int, s.last().end as int);
    if s.len() == 1 {
        assert(s.skip(1) =~= Seq::empty());
        assert(s.drop_last() =~= Seq::empty());
        assert(piece + Seq::<u8>::empty() =~= Seq::<u8>::empty() + piece);
    } else {
        lemma_joined_push(object, s.skip(1));
        assert(s.skip(1).drop_last() =~= s.drop_last().skip(1));
        assert(s.skip(1).last() == s.last());
        let first = object.subrange(s[0].start as int, s[0].end as int);
        let mid = joined_chunks(object, s.drop_last().skip(1));
        assert(s.drop_last()[0] == s[0]);
        assert(first + (mid + piece) =~= (first + mid) + piece);
    }
}

/// Where every chunk holds what the object holds there, what is put together is
/// the object.
pub proof fn assembled_is_object(object: Seq<u8>, size: u64, parts: Seq<Vec<u8>>)
    requires
        size > 0,
        object.len() <= u64::MAX,
        ({
            let ranges = chunks_from(0, object.len() as u64, size);
            ranges.len() == parts.len() && forall|i: int|
                0 <= i < ranges.len() ==> (#[trigger] parts[i])@ == object.subrange(
                    ranges[i].start as int,
                    ranges[i].end as int,
                )
        }),
    ensures
        parts_joined(parts) == object,
{
    let ranges = chunks_from(0, object.len() as u64, size);
    lemma_parts_are_chunks(object, ranges, parts);
    chunks_cover(0, object.len() as u64, size);
    chunks_join(object, ranges, 0);
    assert(object.skip(0) =~= object);
}

// ---------------------------------------------------------------- opening by ranges

/// Bytes at the end of a superfile that a reader asks for first.
pub const PARQUET_TAIL_SPEC_BYTES: u64 = 65536;

/// Bytes of the vectors that a reader asks for where nothing better is known.
pub const VECTOR_OPEN_HEADER_FALLBACK_BYTES: u64 = 32;

/// Bytes of the terms that a reader asks for where nothing better is known.
pub const FTS_OPEN_HEADER_FALLBACK_BYTES: u64 = 48;

/// Where the parts of a superfile lie.
#[derive(Debug)]
pub struct SubsectionOffsets {
    pub total_size: u64,
    /// Offset and length of the vectors.
    pub vec: Option<(u64, u64)>,
    /// Offset and length of the terms.
    pub fts: Option<(u64, u64)>,
    /// Offsets and lengths of what a reader of the vectors asks for.
    pub vec_open_ranges: Vec<(u64, u64)>,
    /// Offsets and lengths of what a reader of the terms asks for.
    pub fts_open_ranges: Vec<(u64, u64)>,
    /// Bytes that are at hand, with their offsets.
    pub open_blob: Vec<(u64, Vec<u8>)>,
}

impl DiskCacheStore {
    /// The source of a superfile that is read by ranges alone, past the cache:
    /// the books stay as they are. A size of zero is not known.
    pub fn open_range_only(
        &self,
        uri: &SuperfileUri,
        offsets: Option<&SubsectionOffsets>,
    ) -> (r: StorageRangeSource)
        ensures
            r@ == (SourceView {
                uri: segment_path_text(*uri),
                size: match offsets {
                    Some(o) => o.total_size,
                    None => 0,
                },
            }),
    {
        let path = segment_storage_path(uri);
        match offsets {
            Some(o) => {
                if o.total_size > 0 {
                    StorageRangeSource::with_known_size(path, o.total_size)
                } else {
                    StorageRangeSource::with_unknown_size(path)
                }
            },
            None => StorageRangeSource::with_unknown_size(path),
        }
    }
}

/// The ranges of offsets and lengths, without the empty ones.
pub open spec fn hint_ranges(s: Seq<(u64, u64)>) -> Seq<ByteRange>
    decreases s.len(),
{
    if s.len() == 0 {
        Seq::empty()
    } else {
        let rest = hint_ranges(s.drop_last());
        if s.last().1 > 0 {
            rest.push(
                ByteRange { start: s.last().0, end: (s.last().0 + s.last().1) as u64 },
            )
        } else {
            rest
        }
    }
}

/// What is asked for of one subsection: what is known to be needed, else a
/// header.
pub open spec fn section_hints(
    open: Seq<(u64, u64)>,
    section: Option<(u64, u64)>,
    fallback: u64,
) -> Seq<(u64, u64)> {
    if open.len() > 0 {
        open
    } else {
        match section {
            Some(s) => if s.1 > 0 {
                seq![
                    (
                        s.0,
                        if fallback < s.1 {
                            fallback
                        } else {
                            s.1
                        },
                    ),
                ]
            } else {
                Seq::empty()
            },
            None => Seq::empty(),
        }
    }
}

/// The end of a superfile that a reader asks for first.
pub open spec fn tail_range(total_size: u64) -> Seq<ByteRange> {
    if total_size == 0 {
        Seq::empty()
    } else if total_size > PARQUET_TAIL_SPEC_BYTES {
        seq![ByteRange { start: (total_size - PARQUET_TAIL_SPEC_BYTES) as u64, end: total_size }]
    } else {
        seq![ByteRange { start: 0, end: total_size }]
    }
}

/// What must be fetched before a reader can open a superfile by ranges: nothing
/// where the bytes are at hand, else its end and the heads of its subsections.
pub open spec fn open_ranges(o: SubsectionOffsets) -> Seq<ByteRange> {
    if o.open_blob@.len() > 0 {
        Seq::empty()
    } else {
        tail_range(o.total_size) + hint_ranges(
            section_hints(o.vec_open_ranges@, o.vec, VECTOR_OPEN_HEADER_FALLBACK_BYTES),
        ) + hint_ranges(
            section_hints(o.fts_open_ranges@, o.fts, FTS_OPEN_HEADER_FALLBACK_BYTES),
        )
    }
}

/// That the ranges end before the largest offset there is.
pub open spec fn hints_fit(s: Seq<(u64, u64)>) -> bool {
    forall|i: int| 0 <= i < s.len() ==> (#[trigger] s[i]).0 + s[i].1 <= u64::MAX
}

/// That what must be fetched before a reader can open ends before the largest
/// offset there is.
pub open spec fn open_fits(o: SubsectionOffsets) -> bool {
    o.open_blob@.len() > 0 || hints_fit(
        section_hints(o.vec_open_ranges@, o.vec, VECTOR_OPEN_HEADER_FALLBACK_BYTES),
    ) && hints_fit(section_hints(o.fts_open_ranges@, o.fts, FTS_OPEN_HEADER_FALLBACK_BYTES))
}

fn hints_in_range(hints: &Vec<(u64, u64)>) -> (r: bool)
    ensures
        r == hints_fit(hints@),
{
    let mut i: usize = 0;
    while i < hints.len()
        invariant
            i <= hints@.len(),
            forall|k: int| 0 <= k < i ==> (#[trigger] hints@[k]).0 + hints@[k].1 <= u64::MAX,
        decreases hints@.len() - i,
    {
        let (off, len) = hints[i];
        if len > u64::MAX - off {
            assert(hints@[i as int].0 + hints@[i as int].1 > u64::MAX);
            return false;
        }
        i = i + 1;
    }
    true
}

fn push_hints(out: &mut Vec<ByteRange>, hints: &Vec<(u64, u64)>)
    requires
        hints_fit(hints@),
    ensures
        final(out)@ == old(out)@ + hint_ranges(hints@),
{
    let ghost before = out@;
    let mut i: usize = 0;
    assert(hints@.take(0) =~= Seq::empty());
    assert(out@ =~= before + hint_ranges(hints@.take(0)));
    while i < hints.len()
        invariant
            i <= hints@.len(),
            hints_fit(hints@),
            out@ == before + hint_ranges(hints@.take(i as int)),
        decreases hints@.len() - i,
    {
        let ghost had = out@;
        proof {
            assert(hints@.take(i as int + 1).drop_last() =~= hints@.take(i as int));
            assert(hints@.take(i as int + 1).last() == hints@[i as int]);
        }
        let (off, len) = hints[i];
        if len > 0 {
            let range = ByteRange { start: off, end: off + len };
            out.push(range);
            assert(out@ =~= had.push(range));
            assert(out@ =~= before + hint_ranges(hints@.take(i as int + 1)));
        }
        i = i + 1;
    }
    assert(hints@.take(i as int) =~= hints@);
}

fn section(open: &Vec<(u64, u64)>, at: Option<(u64, u64)>, fallback: u64) -> (r: Vec<(u64, u64)>)
    ensures
        r@ == section_hints(open@, at, fallback),
{
    let mut out: Vec<(u64, u64)> = Vec::new();
    if open.len() > 0 {
        let mut i: usize = 0;
        while i < open.len()
            invariant
                i <= open@.len(),
                out@ == open@.take(i as int),
            decreases open@.len() - i,
        {
            out.push(open[i]);
            i = i + 1;
            assert(open@.take(i as int) =~= open@.take(i as int - 1).push(open@[i as int - 1]));
        }
        assert(open@.take(i as int) =~= open@);
        return out;
    }
    match at {
        Some((off, len)) => {
            if len > 0 {
                let n: u64 = if fallback < len {
                    fallback
                } else {
                    len
                };
                out.push((off, n));
            }
        },
        None => {},
    }
    assert(out@ =~= section_hints(open@, at, fallback));
    out
}

/// Whether [`plan_lazy_open`] can be asked.
pub fn lazy_open_fits(o: &SubsectionOffsets) -> (r: bool)
    ensures
        r == open_fits(*o),
{
    o.open_blob.len() > 0 || hints_in_range(
        &section(&o.vec_open_ranges, o.vec, VECTOR_OPEN_HEADER_FALLBACK_BYTES),
    ) && hints_in_range(&section(&o.fts_open_ranges, o.fts, FTS_OPEN_HEADER_FALLBACK_BYTES))
}

/// What must be fetched before a reader can open a superfile by ranges.
pub fn plan_lazy_open(o: &SubsectionOffsets) -> (r: Vec<ByteRange>)
    requires
        open_fits(*o),
    ensures
        r@ == open_ranges(*o),
{
    let mut out: Vec<ByteRange> = Vec::new();
    if o.open_blob.len() > 0 {
        return out;
    }
    if o.total_size > 0 {
        let start: u64 = if o.total_size > PARQUET_TAIL_SPEC_BYTES {
            o.total_size - PARQUET_TAIL_SPEC_BYTES
        } else {
            0
        };
        out.push(ByteRange { start, end: o.total_size });
    }
    assert(out@ =~= tail_range(o.total_size));
    let vec_hints = section(&o.vec_open_ranges, o.vec, VECTOR_OPEN_HEADER_FALLBACK_BYTES);
    push_hints(&mut out, &vec_hints);
    let fts_hints = section(&o.fts_open_ranges, o.fts, FTS_OPEN_HEADER_FALLBACK_BYTES);
    push_hints(&mut out, &fts_hints);
    out
}

// ---------------------------------------------------------------- after a fetch

/// What follows a fetch that all who ask for a superfile share.
#[derive(Debug)]
pub enum SharedFetch {
    /// The reader is there.
    Serve,
    /// Try once more, for this caller alone.
    Again,
    /// There is no room.
    Fail(DiskCacheError),
}

/// What follows the shared fetch of the path that reads all at once: want of
/// room is final, other errors get a second try.
pub fn after_hybrid_fetch(error: Option<&DiskCacheError>) -> (r: SharedFetch)
    ensures
        match error {
            None => r is Serve,
            Some(DiskCacheError::BudgetExceeded) => r == SharedFetch::Fail(
                DiskCacheError::BudgetExceeded,
            ),
            Some(_) => r is Again,
        },
{
    match error {
        None => SharedFetch::Serve,
        Some(DiskCacheError::BudgetExceeded) => SharedFetch::Fail(DiskCacheError::BudgetExceeded),
        Some(_) => SharedFetch::Again,
    }
}

/// The error of the other paths after a second try: that of the try, and where
/// it went well one that says that the first did not.
pub fn second_try_error(second: Result<(), DiskCacheError>, path: ColdPath) -> (r: DiskCacheError)
    ensures
        match second {
            Err(e) => r == e,
            Ok(_) => r matches DiskCacheError::SuperfileOpen(s) && s@ == match path {
                ColdPath::Hybrid => "cold fetch error"@,
                ColdPath::Lazy => "lazy cold fetch error"@,
            },
        },
{
    match second {
        Err(e) => e,
        Ok(()) => DiskCacheError::SuperfileOpen(
            match path {
                ColdPath::Hybrid => "cold fetch error".to_string(),
                ColdPath::Lazy => "lazy cold fetch error".to_string(),
            },
        ),
    }
}

// ---------------------------------------------------------------- filling in the background

/// A character in lower case, where it is an ASCII letter.
pub open spec fn ascii_lower(c: char) -> char {
    if 'A' <= c && c <= 'Z' {
        ((c as u32) + 32) as char
    } else {
        c
    }
}

/// A text with its ASCII letters in lower case.
pub open spec fn lower_text(s: Seq<char>) -> Seq<char> {
    Seq::new(s.len(), |i: int| ascii_lower(s[i]))
}

/// That a setting switches the background fill off.
pub open spec fn switches_off(v: Seq<char>) -> bool {
    v == "1"@ || lower_text(v) == "true"@
}

/// Whether a setting switches the background fill off. Without the setting it
/// is on.
pub fn skip_background_fill(setting: Option<&str>) -> (r: bool)
    ensures
        r == (setting matches Some(v) && switches_off(v@)),
{
    match setting {
        None => false,
        Some(v) => {
            if text_eq(v, "1") {
                return true;
            }
            let s = chars_of(v);
            proof {
                reveal_strlit("true");
            }
            if s.len() != 4 {
                assert(lower_text(v@).len() != "true"@.len());
                return false;
            }
            let r = is_letter(s[0], 't', 'T') && is_letter(s[1], 'r', 'R') && is_letter(
                s[2],
                'u',
                'U',
            ) && is_letter(s[3], 'e', 'E');
            proof {
                let l = lower_text(v@);
                assert(l[0] == ascii_lower(s@[0]));
                assert(l[1] == ascii_lower(s@[1]));
                assert(l[2] == ascii_lower(s@[2]));
                assert(l[3] == ascii_lower(s@[3]));
                if r {
                    assert(l =~= "true"@);
                }
            }
            r
        },
    }
}

fn is_letter(c: char, lower: char, upper: char) -> (r: bool)
    requires
        'A' <= upper && upper <= 'Z',
        lower as u32 == upper as u32 + 32,
    ensures
        r == (ascii_lower(c) == lower),
{
    c == lower || c == upper
}

/// Where the wait for the readers of a superfile stands.
#[derive(Clone, Copy, PartialEq, Eq, Structural, Debug)]
pub enum WaitPhase {
    /// Some may hold it.
    Poll,
    /// None seemed to hold it a moment ago.
    Recheck,
}

/// What the wait does next.
#[derive(Clone, Copy, PartialEq, Eq, Structural, Debug)]
pub enum WaitStep {
    /// Give up: cache or reader are gone.
    Stop,
    /// Fill the cache.
    Proceed,
    /// Sleep, and go on in the phase.
    Sleep(WaitPhase),
    /// Go on in the phase at once.
    Look(WaitPhase),
}

/// What the wait does next, by how many hold the cache and the reader, and how
/// many wait for the fill.
pub open spec fn wait_step(
    phase: WaitPhase,
    store_holders: usize,
    reader_holders: usize,
    promotion_waiters: u64,
) -> WaitStep {
    match phase {
        WaitPhase::Poll => if store_holders == 0 || reader_holders == 0 {
            WaitStep::Stop
        } else if promotion_waiters > 0 {
            WaitStep::Proceed
        } else if reader_holders <= 1 {
            WaitStep::Sleep(WaitPhase::Recheck)
        } else {
            WaitStep::Sleep(WaitPhase::Poll)
        },
        WaitPhase::Recheck => if reader_holders > 1 {
            WaitStep::Look(WaitPhase::Poll)
        } else if store_holders == 0 {
            WaitStep::Stop
        } else {
            WaitStep::Proceed
        },
    }
}

/// The wait before a superfile is filled in the background. It ends when none
/// but the cache holds its reader, at two looks a moment apart, or when somebody
/// waits for the fill.
pub fn wait_for_release(
    phase: WaitPhase,
    store_holders: usize,
    reader_holders: usize,
    promotion_waiters: u64,
) -> (r: WaitStep)
    ensures
        r == wait_step(phase, store_holders, reader_holders, promotion_waiters),
{
    match phase {
        WaitPhase::Poll => {
            if store_holders == 0 || reader_holders == 0 {
                WaitStep::Stop
            } else if promotion_waiters > 0 {
                WaitStep::Proceed
            } else if reader_holders <= 1 {
                WaitStep::Sleep(WaitPhase::Recheck)
            } else {
                WaitStep::Sleep(WaitPhase::Poll)
            }
        },
        WaitPhase::Recheck => {
            if reader_holders > 1 {
                WaitStep::Look(WaitPhase::Poll)
            } else if store_holders == 0 {
                WaitStep::Stop
            } else {
                WaitStep::Proceed
            }
        },
    }
}

/// While a reader is held and nobody waits for the fill, the fill does not
/// begin.
pub proof fn held_readers_delay_the_fill(
    phase: WaitPhase,
    store_holders: usize,
    reader_holders: usize,
)
    requires
        reader_holders > 1,
    ensures
        wait_step(phase, store_holders, reader_holders, 0) !is Proceed,
{
}

/// What the wait for a fill does next.
#[derive(Clone, Copy, PartialEq, Eq, Structural, Debug)]
pub enum PromotionStep {
    /// The superfile is mapped.
    Promoted,
    /// Look again in a moment.
    Sleep,
    TimedOut,
}

/// What the wait for a fill does next: it ends at the timeout, even where the
/// superfile is mapped by then.
pub open spec fn promotion_after(
    promoted: bool,
    elapsed_us: u64,
    timeout_us: u64,
) -> PromotionStep {
    if elapsed_us >= timeout_us {
        PromotionStep::TimedOut
    } else if promoted {
        PromotionStep::Promoted
    } else {
        PromotionStep::Sleep
    }
}

/// What the wait for a fill does next.
pub fn promotion_step(promoted: bool, elapsed_us: u64, timeout_us: u64) -> (r: PromotionStep)
    ensures
        r == promotion_after(promoted, elapsed_us, timeout_us),
{
    if elapsed_us >= timeout_us {
        PromotionStep::TimedOut
    } else if promoted {
        PromotionStep::Promoted
    } else {
        PromotionStep::Sleep
    }
}

/// Where a background fill stands.
#[derive(Debug)]
pub enum FillEvent {
    /// The readers have let go.
    Released,
    /// A permit came, or the text of the error why none did.
    Permit(Result<(), String>),
    /// All chunks are on disk; false where the fill was given up on the way.
    Fetched(Result<bool, DiskCacheError>),
    /// The file is mapped and has replaced what was held.
    Promoted(Result<(), DiskCacheError>),
}

/// What a background fill does next.
#[derive(Debug)]
pub enum FillAction {
    AcquirePermit,
    Fetch,
    /// Rename and map the file, and let it replace what is held.
    Promote,
    /// Forget the superfile and, where it says so, remove the file. Then end,
    /// with the error if there is one.
    RollBack { remove_file: bool, error: Option<DiskCacheError> },
    Done,
}

/// The text of a fill that got no permit.
pub open spec fn no_permit_text(e: Seq<char>) -> Seq<char> {
    "prefetch semaphore closed: "@ + e
}

/// The next action of a background fill. A cache that nobody else holds any
/// more is not filled: what was begun is rolled back, as after an error.
pub fn fill_action(event: FillEvent, abandoned: bool) -> (r: FillAction)
    ensures
        match event {
            FillEvent::Permit(Err(e)) => r matches FillAction::RollBack {
                remove_file: false,
                error: Some(DiskCacheError::SuperfileOpen(s)),
            } && s@ == no_permit_text(e@),
            FillEvent::Fetched(Err(e)) => r == (FillAction::RollBack {
                remove_file: true,
                error: Some(e),
            }),
            FillEvent::Promoted(Err(e)) => r == (FillAction::RollBack {
                remove_file: true,
                error: Some(e),
            }),
            FillEvent::Released => r == if abandoned {
                FillAction::RollBack { remove_file: true, error: None }
            } else {
                FillAction::AcquirePermit
            },
            FillEvent::Permit(Ok(_)) => r == if abandoned {
                FillAction::RollBack { remove_file: true, error: None }
            } else {
                FillAction::Fetch
            },
            FillEvent::Fetched(Ok(complete)) => r == if abandoned {
                FillAction::RollBack { remove_file: true, error: None }
            } else if complete {
                FillAction::Promote
            } else {
                FillAction::Done
            },
            FillEvent::Promoted(Ok(_)) => r == if abandoned {
                FillAction::RollBack { remove_file: true, error: None }
            } else {
                FillAction::Done
            },
        },
{
    match event {
        FillEvent::Permit(Err(e)) => FillAction::RollBack {
            remove_file: false,
            error: Some(
                DiskCacheError::SuperfileOpen(joined("prefetch semaphore closed: ", e.as_str())),
            ),
        },
        FillEvent::Fetched(Err(e)) => FillAction::RollBack { remove_file: true, error: Some(e) },
        FillEvent::Promoted(Err(e)) => FillAction::RollBack { remove_file: true, error: Some(e) },
        FillEvent::Released => {
            if abandoned {
                FillAction::RollBack { remove_file: true, error: None }
            } else {
                FillAction::AcquirePermit
            }
        },
        FillEvent::Permit(Ok(())) => {
            if abandoned {
                FillAction::RollBack { remove_file: true, error: None }
            } else {
                FillAction::Fetch
            }
        },
        FillEvent::Fetched(Ok(complete)) => {
            if abandoned {
                FillAction::RollBack { remove_file: true, error: None }
            } else if complete {
                FillAction::Promote
            } else {
                FillAction::Done
            }
        },
        FillEvent::Promoted(Ok(())) => {
            if abandoned {
                FillAction::RollBack { remove_file: true, error: None }
            } else {
                FillAction::Done
            }
        },
    }
}

/// What the fetching of chunks does next.
#[derive(Clone, Copy, PartialEq, Eq, Structural, Debug)]
pub enum ChunkStep {
    /// Ask for the chunk.
    Start(usize),
    /// Wait for one that is on its way.
    Await,
    /// The fetch was given up.
    GiveUp,
    /// All have come.
    Complete,
}

/// The next step of a fetch of `n_chunks` chunks, `next` of which were asked
/// for and `in_flight` are on their way.
pub open spec fn chunk_after(
    next: usize,
    n_chunks: usize,
    in_flight: usize,
    streams: usize,
    abandoned: bool,
) -> ChunkStep {
    if abandoned {
        ChunkStep::GiveUp
    } else if next < n_chunks && (in_flight < streams || in_flight == 0) {
        ChunkStep::Start(next)
    } else if in_flight > 0 {
        ChunkStep::Await
    } else {
        ChunkStep::Complete
    }
}

/// The next step of a fetch of `n_chunks` chunks, `next` of which were asked
/// for and `in_flight` are on their way: no more than `streams` at a time.
pub fn chunk_step(
    next: usize,
    n_chunks: usize,
    in_flight: usize,
    streams: usize,
    abandoned: bool,
) -> (r: ChunkStep)
    ensures
        r == chunk_after(next, n_chunks, in_flight, streams, abandoned),
{
    if abandoned {
        ChunkStep::GiveUp
    } else if next < n_chunks && (in_flight < streams || in_flight == 0) {
        ChunkStep::Start(next)
    } else if in_flight > 0 {
        ChunkStep::Await
    } else {
        ChunkStep::Complete
    }
}

// ---------------------------------------------------------------- laws

/// A fetch that reads all at once has the smallest chunks that are no smaller
/// than asked and need no more chunks than there are streams; without streams
/// it reads as with one.
pub proof fn hybrid_chunks_are_no_larger_than_needed(
    size: u64,
    chunk_bytes: u64,
    streams: u64,
    other: int,
)
    requires
        other >= chunk_bytes,
        other * (if streams == 0 {
            1int
        } else {
            streams as int
        }) >= size,
    ensures
        chunk_bytes <= hybrid_chunk(size, chunk_bytes, streams) <= other,
        hybrid_chunk(size, chunk_bytes, streams) * (if streams == 0 {
            1int
        } else {
            streams as int
        }) >= size,
{
    let n: int = if streams == 0 {
        1
    } else {
        streams as int
    };
    let c = hybrid_chunk(size, chunk_bytes, streams);
    lemma_div_up_bound(size as int, n);
    let x = size + n - 1;
    lemma_fundamental_div_mod(x, n);
    let q = div_up(size as int, n);
    assert(q <= other) by (nonlinear_arith)
        requires
            n * q <= size + n - 1,
            other * n >= size,
            n >= 1,
    ;
    assert(c * n >= size) by (nonlinear_arith)
        requires
            c >= q,
            q * n >= size,
            n >= 1,
    ;
}

/// A range behind an offset.
pub open spec fn range_at(hint: (u64, u64)) -> ByteRange {
    ByteRange { start: hint.0, end: (hint.0 + hint.1) as u64 }
}

proof fn lemma_hint_ranges(s: Seq<(u64, u64)>)
    ensures
        hint_ranges(s) == s.filter(|h: (u64, u64)| h.1 > 0).map_values(
            |h: (u64, u64)| range_at(h),
        ),
    decreases s.len(),
{
    reveal(Seq::filter);
    let p = |h: (u64, u64)| h.1 > 0;
    let f = |h: (u64, u64)| range_at(h);
    if s.len() > 0 {
        lemma_hint_ranges(s.drop_last());
        let rest = s.drop_last().filter(p);
        assert(rest.push(s.last()).map_values(f) =~= rest.map_values(f).push(f(s.last())));
    } else {
        assert(s.filter(p).map_values(f) =~= Seq::empty());
    }
}

/// The ranges that open one subsection: those that are known to be needed, and
/// where none is known the first `header` bytes of the subsection, as far as it
/// has so many.
pub open spec fn opens_section(
    open: Seq<(u64, u64)>,
    section: Option<(u64, u64)>,
    header: u64,
    range: ByteRange,
) -> bool {
    if open.len() > 0 {
        exists|i: int| 0 <= i < open.len() && (#[trigger] open[i]).1 > 0 && range == range_at(open[i])
    } else {
        section matches Some(s) && range.start == s.0 && range.start < range.end && range.end
            - range.start <= s.1 && range.end - range.start <= header && (range.end - range.start
            == s.1 || range.end - range.start == header)
    }
}

proof fn lemma_section_opens(
    open: Seq<(u64, u64)>,
    section: Option<(u64, u64)>,
    header: u64,
    range: ByteRange,
)
    requires
        header > 0,
        hints_fit(section_hints(open, section, header)),
    ensures
        hint_ranges(section_hints(open, section, header)).contains(range) == opens_section(
            open,
            section,
            header,
            range,
        ),
{
    let s = section_hints(open, section, header);
    let p = |h: (u64, u64)| h.1 > 0;
    let f = |h: (u64, u64)| range_at(h);
    lemma_hint_ranges(s);
    let kept = s.filter(p);
    let ranges = hint_ranges(s);
    if ranges.contains(range) {
        let i = choose|i: int| 0 <= i < ranges.len() && ranges[i] == range;
        assert(kept.contains(kept[i]));
        s.lemma_filter_pred(p, i);
        s.lemma_filter_contains_rev(p, kept[i]);
        assert(s.contains(kept[i]) && p(kept[i]));
        let j = choose|j: int| 0 <= j < s.len() && s[j] == kept[i];
        assert(s[j].1 > 0 && range == range_at(s[j]));
        assert(s[j].0 + s[j].1 <= u64::MAX);
    }
    if opens_section(open, section, header, range) {
        if open.len() > 0 {
            let j = choose|j: int|
                0 <= j < open.len() && (#[trigger] open[j]).1 > 0 && range == range_at(open[j]);
            assert(s[j] == open[j]);
            s.lemma_filter_contains(p, j);
            let i = choose|i: int| 0 <= i < kept.len() && kept[i] == s[j];
            assert(ranges[i] == range);
        } else {
            assert(s[0].1 > 0);
            s.lemma_filter_contains(p, 0);
            let i = choose|i: int| 0 <= i < kept.len() && kept[i] == s[0];
            assert(s[0].0 + s[0].1 <= u64::MAX);
            assert(ranges[i] == range);
        }
    }
}

/// Before a reader opens a superfile by ranges, the end of the superfile and
/// what opens its subsections are fetched, and nothing else; the end comes
/// first. Where the bytes are at hand already, nothing is fetched.
pub proof fn lazy_opens_fetch_what_opens(o: SubsectionOffsets, range: ByteRange)
    requires
        open_fits(o),
    ensures
        o.open_blob@.len() > 0 ==> open_ranges(o).len() == 0,
        o.open_blob@.len() == 0 ==> (open_ranges(o).contains(range) <==> {
            ||| o.total_size > 0 && range.end == o.total_size && range.start
                == if o.total_size < 65536 {
                0
            } else {
                o.total_size - 65536
            }
            ||| opens_section(o.vec_open_ranges@, o.vec, 32, range)
            ||| opens_section(o.fts_open_ranges@, o.fts, 48, range)
        }),
        o.open_blob@.len() == 0 && o.total_size > 0 ==> open_ranges(o).len() > 0 && open_ranges(
            o,
        )[0].end == o.total_size && (open_ranges(o)[0].start == 0 || open_ranges(o)[0].end
            - open_ranges(o)[0].start == 65536),
{
    if o.open_blob@.len() == 0 {
        let t = tail_range(o.total_size);
        let v = hint_ranges(section_hints(o.vec_open_ranges@, o.vec, 32));
        let f = hint_ranges(section_hints(o.fts_open_ranges@, o.fts, 48));
        let all = open_ranges(o);
        assert(all == t + v + f);
        lemma_section_opens(o.vec_open_ranges@, o.vec, 32, range);
        lemma_section_opens(o.fts_open_ranges@, o.fts, 48, range);
        assert(all.contains(range) <==> t.contains(range) || v.contains(range) || f.contains(
            range,
        )) by {
            if all.contains(range) {
                let i = choose|i: int| 0 <= i < all.len() && all[i] == range;
                if i < t.len() {
                    assert(t[i] == range);
                } else if i < t.len() + v.len() {
                    assert(v[i - t.len()] == range);
                } else {
                    assert(f[i - t.len() - v.len()] == range);
                }
            }
            if t.contains(range) {
                let i = choose|i: int| 0 <= i < t.len() && t[i] == range;
                assert(all[i] == range);
            }
            if v.contains(range) {
                let i = choose|i: int| 0 <= i < v.len() && v[i] == range;
                assert(all[t.len() + i] == range);
            }
            if f.contains(range) {
                let i = choose|i: int| 0 <= i < f.len() && f[i] == range;
                assert(all[t.len() + v.len() + i] == range);
            }
        }
        if o.total_size > 0 {
            assert(t.len() == 1 && all[0] == t[0]);
            assert(t.contains(range) <==> range == t[0]);
        }
    }
}

/// A setting switches the background fill off just where it is `1`, or `true`
/// in capital letters, small letters or both.
pub proof fn fills_are_switched_off_by_two_words(v: Seq<char>)
    ensures
        switches_off(v) <==> v == seq!['1'] || (v.len() == 4 && (v[0] == 't' || v[0] == 'T') && (
        v[1] == 'r' || v[1] == 'R') && (v[2] == 'u' || v[2] == 'U') && (v[3] == 'e' || v[3]
            == 'E')),
{
    reveal_strlit("1");
    reveal_strlit("true");
    assert("1"@ =~= seq!['1']);
    let l = lower_text(v);
    assert("true"@.len() == 4 && l.len() == v.len());
    if v.len() == 1 && v[0] == '1' {
        assert(v =~= seq!['1']);
    }
    if v.len() == 4 {
        assert(l[0] == ascii_lower(v[0]));
        assert(l[1] == ascii_lower(v[1]));
        assert(l[2] == ascii_lower(v[2]));
        assert(l[3] == ascii_lower(v[3]));
        if l[0] == 't' && l[1] == 'r' && l[2] == 'u' && l[3] == 'e' {
            assert(l =~= "true"@);
        }
        if l == "true"@ {
            assert(l[0] == 't' && l[1] == 'r' && l[2] == 'u' && l[3] == 'e');
        }
        assert(ascii_lower(v[0]) == 't' <==> v[0] == 't' || v[0] == 'T');
        assert(ascii_lower(v[1]) == 'r' <==> v[1] == 'r' || v[1] == 'R');
        assert(ascii_lower(v[2]) == 'u' <==> v[2] == 'u' || v[2] == 'U');
        assert(ascii_lower(v[3]) == 'e' <==> v[3] == 'e' || v[3] == 'E');
    }
}

/// Once none but the cache holds the reader, two looks are enough for the fill
/// to begin, and one is not. Who waits for the fill hastens it at the first
/// look, and a cache that is gone is not filled.
pub proof fn released_readers_are_filled(
    phase: WaitPhase,
    store_holders: usize,
    reader_holders: usize,
    promotion_waiters: u64,
)
    ensures
        store_holders == 0 ==> wait_step(
            phase,
            store_holders,
            reader_holders,
            promotion_waiters,
        ) !is Proceed,
        store_holders > 0 && reader_holders == 1 ==> wait_step(
            WaitPhase::Poll,
            store_holders,
            reader_holders,
            0,
        ) == WaitStep::Sleep(WaitPhase::Recheck) && wait_step(
            WaitPhase::Recheck,
            store_holders,
            reader_holders,
            0,
        ) is Proceed,
        store_holders > 0 && reader_holders > 0 && promotion_waiters > 0 ==> wait_step(
            WaitPhase::Poll,
            store_holders,
            reader_holders,
            promotion_waiters,
        ) is Proceed,
        store_holders > 0 && reader_holders > 1 ==> wait_step(
            WaitPhase::Poll,
            store_holders,
            reader_holders,
            0,
        ) == WaitStep::Sleep(WaitPhase::Poll),
        reader_holders > 1 ==> wait_step(
            WaitPhase::Recheck,
            store_holders,
            reader_holders,
            promotion_waiters,
        ) == WaitStep::Look(WaitPhase::Poll),
        reader_holders == 0 ==> wait_step(
            WaitPhase::Poll,
            store_holders,
            reader_holders,
            promotion_waiters,
        ) is Stop,
        store_holders == 0 ==> wait_step(
            WaitPhase::Poll,
            store_holders,
            reader_holders,
            promotion_waiters,
        ) is Stop,
{
}

/// Chunks are asked for in order, with no more on their way than there are
/// streams, but for one where there are none. A fetch waits only for what is on
/// its way, while no further chunk can be asked for, and is complete just where
/// all were asked for and have come.
pub proof fn chunks_are_fetched_within_their_streams(
    next: usize,
    n_chunks: usize,
    in_flight: usize,
    streams: usize,
    abandoned: bool,
)
    ensures
        ({
            let step = chunk_after(next, n_chunks, in_flight, streams, abandoned);
            &&& step is GiveUp <==> abandoned
            &&& step matches ChunkStep::Start(i) ==> i == next && next < n_chunks && (in_flight + 1
                <= streams || in_flight == 0)
            &&& step is Await ==> in_flight > 0 && (next >= n_chunks || in_flight >= streams)
            &&& step is Complete ==> in_flight == 0 && next >= n_chunks
        }),
{
}

/// The wait for a fill ends at its timeout, and before that just where the
/// superfile is mapped.
pub proof fn promotions_are_awaited_until_the_timeout(
    promoted: bool,
    elapsed_us: u64,
    timeout_us: u64,
)
    ensures
        promotion_after(promoted, elapsed_us, timeout_us) is TimedOut <==> timeout_us <= elapsed_us,
        promotion_after(promoted, elapsed_us, timeout_us) is Promoted ==> promoted,
        promotion_after(promoted, elapsed_us, timeout_us) is Sleep ==> !promoted,
{
}

} // verus!
