//! Reading ranges of an object in the storage.

use vstd::prelude::*;

use crate::error::StorageError;

verus! {

/// How often a range is asked for again after a short answer.
pub const MAX_SHORT_READ_RETRIES: u32 = 4;

/// Errors of reading ranges.
#[derive(Debug)]
pub enum LazyByteSourceError {
    /// The range reaches beyond the object.
    OutOfBounds { start: u64, len: u64, size: u64 },
    /// The storage gave fewer bytes than were asked for, again and again.
    ShortRead { start: u64, requested: u64, got: u64 },
    Storage(StorageError),
}

/// An object in the storage that is read by ranges.
#[derive(Debug)]
pub struct StorageRangeSource {
    uri: String,
    /// Zero as long as it is not known.
    size: u64,
}

pub struct SourceView {
    pub uri: Seq<char>,
    pub size: u64,
}

impl View for StorageRangeSource {
    type V = SourceView;

    closed spec fn view(&self) -> SourceView {
        SourceView { uri: self.uri@, size: self.size }
    }
}

/// That a range ends before the largest offset there is, as far as the size of
/// the object does not see to that.
pub open spec fn range_fits(size: u64, start: u64, len: u64) -> bool {
    size == 0 || size == u64::MAX ==> start + len <= u64::MAX
}

impl StorageRangeSource {
    /// A source whose size the storage was asked for.
    pub fn new(uri: String, head: Result<u64, StorageError>) -> (r: Result<Self, StorageError>)
        ensures
            match head {
                Ok(size) => r matches Ok(s) && s@ == (SourceView { uri: uri@, size }),
                Err(e) => r == Err::<Self, StorageError>(e),
            },
    {
        match head {
            Ok(size) => Ok(StorageRangeSource { uri, size }),
            Err(e) => Err(e),
        }
    }

    /// A source of a size that the caller knows.
    pub fn with_known_size(uri: String, size: u64) -> (r: Self)
        ensures
            r@ == (SourceView { uri: uri@, size }),
    {
        StorageRangeSource { uri, size }
    }

    /// A source whose size is learned with the first read of its end.
    pub fn with_unknown_size(uri: String) -> (r: Self)
        ensures
            r@ == (SourceView { uri: uri@, size: 0 }),
    {
        StorageRangeSource { uri, size: 0 }
    }

    /// The name of the object.
    pub fn uri(&self) -> (r: &str)
        ensures
            r@ == self@.uri,
    {
        self.uri.as_str()
    }

    /// The size of the object; zero as long as it is not known.
    pub fn size(&self) -> (r: u64)
        ensures
            r == self@.size,
    {
        self.size
    }

    /// Takes note of the size that came with the end of the object.
    pub fn note_size(&mut self, total: u64)
        ensures
            final(self)@ == (SourceView { uri: old(self)@.uri, size: total }),
    {
        self.size = total;
    }

    /// The reading of a range begins. One that reaches beyond the object is
    /// refused, where its size is known.
    pub fn range(&self, start: u64, len: u64) -> (r: Result<RangeRead, LazyByteSourceError>)
        requires
            range_fits(self@.size, start, len),
        ensures
            if self@.size > 0 && start + len > self@.size {
                r == Err::<RangeRead, LazyByteSourceError>(
                    LazyByteSourceError::OutOfBounds { start, len, size: self@.size },
                )
            } else {
                r matches Ok(read) && read.well_formed() && read@ == (ReadView {
                    start,
                    len,
                    got: Seq::empty(),
                    stalls: 0,
                })
            },
    {
        if self.size > 0 {
            let within = start <= self.size && len <= self.size - start;
            if !within {
                return Err(LazyByteSourceError::OutOfBounds { start, len, size: self.size });
            }
        }
        let read = RangeRead { start, len, got: Vec::new(), stalls: 0 };
        Ok(read)
    }
}

/// The reading of a range: what has come so far.
#[derive(Debug)]
pub struct RangeRead {
    start: u64,
    len: u64,
    got: Vec<u8>,
    stalls: u32,
}

pub struct ReadView {
    pub start: u64,
    pub len: u64,
    pub got: Seq<u8>,
    /// How many answers were short.
    pub stalls: u32,
}

impl View for RangeRead {
    type V = ReadView;

    closed spec fn view(&self) -> ReadView {
        ReadView { start: self.start, len: self.len, got: self.got@, stalls: self.stalls }
    }
}

/// What the storage is asked for next.
#[derive(Clone, Copy, PartialEq, Eq, Structural, Debug)]
pub enum ReadStep {
    /// The bytes from `start` to before `end`.
    Fetch { start: u64, end: u64 },
    /// Nothing: all has come.
    Complete,
}

/// The part of an answer that is taken: never more than is missing.
pub open spec fn taken(read: ReadView, chunk: Seq<u8>) -> Seq<u8> {
    let missing = read.len - read.got.len();
    if chunk.len() <= missing {
        chunk
    } else {
        chunk.take(missing)
    }
}

/// What an answer leads to: more bytes, or the end of the reading where it was
/// empty or one short answer too many.
pub open spec fn read_after(read: ReadView, chunk: Seq<u8>) -> Result<ReadView, ReadView> {
    let got = read.got + taken(read, chunk);
    if chunk.len() == 0 {
        Err(read)
    } else if got.len() >= read.len {
        Ok(ReadView { got, ..read })
    } else if read.stalls >= MAX_SHORT_READ_RETRIES {
        Err(ReadView { got, ..read })
    } else {
        Ok(ReadView { got, stalls: (read.stalls + 1) as u32, ..read })
    }
}

impl RangeRead {
    /// That no more came than was asked for, and the range has an end.
    pub open spec fn well_formed(&self) -> bool {
        &&& self@.got.len() <= self@.len
        &&& self@.start + self@.len <= u64::MAX
        &&& self@.stalls <= MAX_SHORT_READ_RETRIES
    }

    /// What the storage is asked for next.
    pub fn step(&self) -> (r: ReadStep)
        requires
            self.well_formed(),
        ensures
            if self@.got.len() == self@.len {
                r is Complete
            } else {
                r == (ReadStep::Fetch {
                    start: (self@.start + self@.got.len()) as u64,
                    end: (self@.start + self@.len) as u64,
                })
            },
    {
        let n: usize = self.got.len();
        if n as u64 == self.len {
            ReadStep::Complete
        } else {
            ReadStep::Fetch { start: self.start + n as u64, end: self.start + self.len }
        }
    }

    /// The reading after an answer to what was asked for.
    pub fn accept(self, answer: Result<Vec<u8>, StorageError>) -> (r: Result<
        RangeRead,
        LazyByteSourceError,
    >)
        requires
            self.well_formed(),
            self@.got.len() < self@.len,
        ensures
            match answer {
                Err(e) => r == Err::<RangeRead, LazyByteSourceError>(
                    LazyByteSourceError::Storage(e),
                ),
                Ok(chunk) => match read_after(self@, chunk@) {
                    Ok(next) => r matches Ok(n) && n@ == next && n.well_formed(),
                    Err(last) => r == Err::<RangeRead, LazyByteSourceError>(
                        LazyByteSourceError::ShortRead {
                            start: self@.start,
                            requested: self@.len,
                            got: last.got.len() as u64,
                        },
                    ),
                },
            },
    {
        let mut chunk = match answer {
            Ok(c) => c,
            Err(e) => return Err(LazyByteSourceError::Storage(e)),
        };
        let ghost before = self@;
        let ghost whole = chunk@;
        let had: usize = self.got.len();
        let n: usize = chunk.len();
        if n == 0 {
            return Err(
                LazyByteSourceError::ShortRead {
                    start: self.start,
                    requested: self.len,
                    got: had as u64,
                },
            );
        }
        let missing: u64 = self.len - had as u64;
        if n as u64 > missing {
            chunk.truncate(missing as usize);
        }
        assert(chunk@ =~= taken(before, whole));
        let mut got = self.got;
        got.append(&mut chunk);
        let now: usize = got.len();
        if (now as u64) < self.len {
            if self.stalls >= MAX_SHORT_READ_RETRIES {
                return Err(
                    LazyByteSourceError::ShortRead {
                        start: self.start,
                        requested: self.len,
                        got: now as u64,
                    },
                );
            }
            let next = RangeRead {
                start: self.start,
                len: self.len,
                got,
                stalls: self.stalls + 1,
            };
            return Ok(next);
        }
        Ok(RangeRead { start: self.start, len: self.len, got, stalls: self.stalls })
    }

    /// The bytes of the range, when all has come.
    pub fn finish(self) -> (r: Vec<u8>)
        requires
            self.well_formed(),
            self@.got.len() == self@.len,
        ensures
            r@ == self@.got,
    {
        self.got
    }
}

// ---------------------------------------------------------------- laws

/// That what has come so far is what the object holds there.
pub open spec fn agrees(read: ReadView, object: Seq<u8>) -> bool {
    read.start + read.got.len() <= object.len() && read.got == object.subrange(
        read.start as int,
        read.start + read.got.len(),
    )
}

/// Short answers or not: where every answer begins with the bytes that were
/// asked for, what has come is what the object holds there. When the reading is
/// complete, that is the range.
pub proof fn range_read_is_exact(read: ReadView, object: Seq<u8>, chunk: Seq<u8>)
    requires
        agrees(read, object),
        read.got.len() <= read.len,
        ({
            let at = read.start + read.got.len();
            let t = taken(read, chunk);
            at + t.len() <= object.len() && t == object.subrange(at, at + t.len())
        }),
        read_after(read, chunk) is Ok,
    ensures
        agrees(read_after(read, chunk)->Ok_0, object),
        read_after(read, chunk)->Ok_0.got.len() == read.len ==> read_after(read, chunk)->Ok_0.got
            == object.subrange(read.start as int, read.start + read.len),
{
    let t = taken(read, chunk);
    let a = read.start as int;
    let b = a + read.got.len();
    assert(object.subrange(a, b) + object.subrange(b, b + t.len()) =~= object.subrange(
        a,
        b + t.len(),
    ));
}

/// A reading ends: every answer that does not complete it uses one of the few
/// that may be short.
pub proof fn range_read_ends(read: ReadView, chunk: Seq<u8>)
    requires
        read.got.len() < read.len,
        read.stalls <= MAX_SHORT_READ_RETRIES,
        read_after(read, chunk) matches Ok(next) && next.got.len() < read.len,
    ensures
        read_after(read, chunk)->Ok_0.stalls == read.stalls + 1,
        read_after(read, chunk)->Ok_0.stalls <= MAX_SHORT_READ_RETRIES,
        read_after(read, chunk)->Ok_0.got.len() > read.got.len(),
{
}

/// Of an answer the first bytes are taken, as many as are missing, and all of
/// them where it has no more than that.
pub proof fn answers_fill_the_range(read: ReadView, chunk: Seq<u8>)
    requires
        read.got.len() <= read.len,
    ensures
        taken(read, chunk).is_prefix_of(chunk),
        taken(read, chunk) == chunk || read.got.len() + taken(read, chunk).len() == read.len,
        read.got.len() + taken(read, chunk).len() <= read.len,
{
    assert(taken(read, chunk).is_prefix_of(chunk));
}

/// An answer that brings what is missing completes the range, however many
/// were short before it. A short answer is followed by a further question, but
/// for the one behind four short answers, and an empty one never.
pub proof fn short_answers_are_asked_again(read: ReadView, chunk: Seq<u8>)
    requires
        read.got.len() < read.len,
    ensures
        chunk.len() == 0 ==> read_after(read, chunk) is Err,
        read.got.len() + chunk.len() >= read.len ==> read_after(read, chunk) is Ok && read_after(
            read,
            chunk,
        )->Ok_0.got.len() == read.len,
        0 < chunk.len() && read.got.len() + chunk.len() < read.len ==> (read_after(
            read,
            chunk,
        ) is Ok <==> read.stalls < 4),
        0 < chunk.len() && read.got.len() + chunk.len() < read.len && read.stalls < 4 ==> ({
            let next = read_after(read, chunk)->Ok_0;
            next.got == read.got + chunk && next.stalls == read.stalls + 1 && next.start
                == read.start && next.len == read.len
        }),
        0 < chunk.len() && read.got.len() + chunk.len() < read.len && read.stalls >= 4
            ==> read_after(read, chunk)->Err_0.got == read.got + chunk,
{
}

} // verus!
