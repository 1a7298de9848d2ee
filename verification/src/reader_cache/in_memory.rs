//! Readers of superfiles whose bytes are all in memory.

use std::collections::HashMap;
use std::sync::Arc;
use vstd::prelude::*;

use crate::error::joined;
use crate::ids::{id_text, write_id};
use crate::manifest::entry::SuperfileUri;
use crate::share::share;

verus! {

broadcast use vstd::std_specs::hash::group_hash_axioms;

/// Errors of the readers that are kept.
#[derive(Debug)]
pub enum ReaderCacheError {
    NotFound { uri: SuperfileUri },
    /// The bytes are no superfile.
    OpenFailed { source: String },
}

/// The text of an error.
pub open spec fn reader_error_text(e: ReaderCacheError) -> Seq<char> {
    match e {
        ReaderCacheError::NotFound { uri } => "superfile uri SuperfileUri("@ + id_text(uri.0)
            + ") not found in cache"@,
        ReaderCacheError::OpenFailed { source } => "failed to open superfile bytes: "@ + source@,
    }
}

impl ReaderCacheError {
    /// The error as a line of text.
    pub fn message(&self) -> (r: String)
        ensures
            r@ == reader_error_text(*self),
    {
        match self {
            ReaderCacheError::NotFound { uri } => {
                let mut s = "superfile uri SuperfileUri(".to_string();
                s.append(write_id(uri.0).as_str());
                s.append(") not found in cache");
                s
            },
            ReaderCacheError::OpenFailed { source } => {
                joined("failed to open superfile bytes: ", source.as_str())
            },
        }
    }
}

/// One superfile: the length of its bytes and its reader.
#[derive(Debug)]
pub struct Kept<R> {
    bytes: usize,
    reader: Arc<R>,
}

/// The readers of superfiles, by the numbers of their uris. Nothing leaves by
/// itself.
#[derive(Debug)]
pub struct InMemoryReaderCache<R> {
    entries: HashMap<u128, Kept<R>>,
}

/// The entries as pairs of a length and a reader, by the uri.
pub open spec fn no_readers<R>() -> Map<SuperfileUri, (usize, Arc<R>)> {
    Map::empty()
}

spec fn by_uri<R>(m: Map<u128, Kept<R>>) -> Map<SuperfileUri, (usize, Arc<R>)> {
    Map::new(
        |u: SuperfileUri| m.contains_key(u.0),
        |u: SuperfileUri| (m[u.0].bytes, m[u.0].reader),
    )
}

impl<R> View for InMemoryReaderCache<R> {
    type V = Map<SuperfileUri, (usize, Arc<R>)>;

    closed spec fn view(&self) -> Map<SuperfileUri, (usize, Arc<R>)> {
        by_uri(self.entries@)
    }
}

/// The bytes of all superfiles.
pub open spec fn resident<R>(m: Map<SuperfileUri, (usize, Arc<R>)>) -> nat
    decreases m.dom().len(),
    when m.dom().finite()
{
    if m.dom().len() == 0 {
        0
    } else {
        let k = m.dom().choose();
        m[k].0 as nat + resident(m.remove(k))
    }
}

proof fn lemma_resident_without<R>(m: Map<SuperfileUri, (usize, Arc<R>)>, key: SuperfileUri)
    requires
        m.dom().finite(),
        m.dom().contains(key),
    ensures
        resident(m) == m[key].0 + resident(m.remove(key)),
    decreases m.dom().len(),
{
    let c = m.dom().choose();
    assert(m.dom().contains(c));
    if c != key {
        let a = m.remove(c);
        let b = m.remove(key);
        assert(a.dom().contains(key));
        lemma_resident_without(a, key);
        assert(b.dom().contains(c));
        lemma_resident_without(b, c);
        assert(a.remove(key) =~= b.remove(c));
    }
}

proof fn lemma_by_uri<R>(m: Map<u128, Kept<R>>)
    requires
        m.dom().finite(),
    ensures
        by_uri(m).dom().finite(),
        by_uri(m).dom().len() == m.dom().len(),
    decreases m.dom().len(),
{
    if m.dom().len() == 0 {
        assert(by_uri(m).dom() =~= Set::empty()) by {
            assert forall|u: SuperfileUri| !by_uri(m).dom().contains(u) by {
                if m.dom().contains(u.0) {
                    assert(m.dom() =~= Set::empty());
                }
            }
        }
    } else {
        let k = m.dom().choose();
        assert(m.dom().contains(k));
        lemma_by_uri(m.remove(k));
        assert(by_uri(m.remove(k)).dom() =~= by_uri(m).dom().remove(SuperfileUri(k)));
        assert(by_uri(m).dom() =~= by_uri(m.remove(k)).dom().insert(SuperfileUri(k)));
    }
}

impl<R> InMemoryReaderCache<R> {
    /// No readers.
    pub fn new() -> (r: Self)
        ensures
            r@ == no_readers::<R>(),
    {
        let r = InMemoryReaderCache { entries: HashMap::new() };
        assert(r@ =~= no_readers::<R>());
        r
    }

    /// The number of superfiles.
    pub fn n_superfiles(&self) -> (n: usize)
        ensures
            n == self@.dom().len(),
            self@.dom().finite(),
    {
        proof {
            lemma_by_uri(self.entries@);
        }
        self.entries.len()
    }

    /// The reader of a superfile.
    pub fn reader(&self, uri: &SuperfileUri) -> (r: Result<Arc<R>, ReaderCacheError>)
        ensures
            match r {
                Ok(reader) => self@.dom().contains(*uri) && reader == self@[*uri].1,
                Err(e) => !self@.dom().contains(*uri) && e == (ReaderCacheError::NotFound {
                    uri: *uri,
                }),
            },
    {
        match self.entries.get(&uri.0) {
            Some(kept) => Ok(share(&kept.reader)),
            None => Err(ReaderCacheError::NotFound { uri: *uri }),
        }
    }

    /// Whether a superfile is there, so that its bytes need not be opened.
    pub fn contains(&self, uri: &SuperfileUri) -> (r: bool)
        ensures
            r == self@.dom().contains(*uri),
    {
        self.entries.contains_key(&uri.0)
    }

    /// Keeps the reader that bytes of this length were opened to. A superfile
    /// that is there already stays as it is, whatever its bytes were opened to.
    pub fn insert(&mut self, uri: SuperfileUri, bytes: usize, opened: Result<Arc<R>, String>) -> (r:
        Result<(), ReaderCacheError>)
        ensures
            if old(self)@.dom().contains(uri) {
                r is Ok && final(self)@ == old(self)@
            } else {
                match opened {
                    Ok(reader) => r is Ok && final(self)@ == old(self)@.insert(
                        uri,
                        (bytes, reader),
                    ),
                    Err(e) => final(self)@ == old(self)@ && r == Err::<(), ReaderCacheError>(
                        ReaderCacheError::OpenFailed { source: e },
                    ),
                }
            },
    {
        if self.entries.contains_key(&uri.0) {
            return Ok(());
        }
        match opened {
            Ok(reader) => {
                self.entries.insert(uri.0, Kept { bytes, reader });
                assert(self@ =~= old(self)@.insert(uri, (bytes, reader)));
                Ok(())
            },
            Err(source) => Err(ReaderCacheError::OpenFailed { source }),
        }
    }

    /// The bytes of all superfiles.
    pub fn resident_bytes(&self) -> (r: usize)
        requires
            resident(self@) <= usize::MAX,
        ensures
            r == resident(self@),
    {
        let ghost all = self@;
        let ghost mut left = self@;
        proof {
            lemma_by_uri(self.entries@);
        }
        let mut sum: usize = 0;
        for p in it: self.entries.iter()
            invariant
                all == self@,
                it.seq().no_duplicates(),
                forall|i: int|
                    0 <= i < it.seq().len() ==> self.entries@.contains_key(
                        *(#[trigger] it.seq()[i]).0,
                    ) && self.entries@[*it.seq()[i].0] == *it.seq()[i].1,
                forall|k: u128| #[trigger]
                    self.entries@.contains_key(k) ==> it.seq().contains((&k, &self.entries@[k])),
                resident(all) <= usize::MAX,
                left.dom().finite(),
                sum + resident(left) == resident(all),
                forall|u: SuperfileUri| #[trigger]
                    left.dom().contains(u) <==> all.dom().contains(u) && forall|j: int|
                        0 <= j < it.index() ==> *(#[trigger] it.seq()[j]).0 != u.0,
                forall|u: SuperfileUri| #[trigger] left.dom().contains(u) ==> left[u] == all[u],
        {
            let ghost u = SuperfileUri(*p.0);
            proof {
                let i = it.index() as int;
                assert(it.seq()[i] == p);
                assert forall|j: int| 0 <= j < i implies *(#[trigger] it.seq()[j]).0 != u.0 by {
                    if *it.seq()[j].0 == u.0 {
                        assert(it.seq()[j] == it.seq()[i]);
                    }
                }
                assert(left.dom().contains(u));
                lemma_resident_without(left, u);
            }
            sum = sum + p.1.bytes;
            proof {
                left = left.remove(u);
            }
        }
        assert(left.dom() =~= Set::empty()) by {
            assert forall|u: SuperfileUri| !left.dom().contains(u) by {
                if left.dom().contains(u) {
                    assert(self.entries@.contains_key(u.0));
                }
            }
        }
        sum
    }

    /// Lets a superfile go. Those who hold its reader keep it.
    pub fn remove(&mut self, uri: &SuperfileUri)
        ensures
            final(self)@ == old(self)@.remove(*uri),
    {
        self.entries.remove(&uri.0);
        assert(self@ =~= old(self)@.remove(*uri));
    }
}

impl<R> Default for InMemoryReaderCache<R> {
    fn default() -> (r: Self)
        ensures
            r@ == no_readers::<R>(),
    {
        InMemoryReaderCache::new()
    }
}

// ---------------------------------------------------------------- laws

/// The bytes of superfiles add up: a further one counts with its length.
pub proof fn resident_bytes_add_up<R>(
    m: Map<SuperfileUri, (usize, Arc<R>)>,
    uri: SuperfileUri,
    bytes: usize,
    reader: Arc<R>,
)
    requires
        m.dom().finite(),
        !m.dom().contains(uri),
    ensures
        resident(no_readers::<R>()) == 0,
        resident(m.insert(uri, (bytes, reader))) == resident(m) + bytes,
{
    let n = m.insert(uri, (bytes, reader));
    assert(n.remove(uri) =~= m);
    lemma_resident_without(n, uri);
    assert(no_readers::<R>().dom() =~= Set::empty());
}

} // verus!
