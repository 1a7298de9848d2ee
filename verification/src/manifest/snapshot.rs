//! The manifest of one version, and how its parts are loaded.

use std::sync::Arc;
use vstd::prelude::*;

use crate::error::StorageError;
use crate::ids::{id_text, write_id};
use crate::manifest::avro::part_readable;
use crate::manifest::entry::{SuperfileEntry, SuperfileEntryView};
use crate::manifest::list::{part_views, ManifestList, ManifestListEntryView};
use crate::manifest::part::{
    blake3_digest, decode_within, entry_views, part_datum, part_decoded, reads_back, ContentHash,
    ManifestPart, ManifestPartView, PartId, PartParseError,
};
use crate::options::SupertableOptions;
use crate::share::share;
use crate::text::hex_text;

verus! {

// ---------------------------------------------------------------- superfiles

/// The superfiles of one version of a table.
#[derive(Debug)]
pub struct SuperfileList {
    /// Zero at first; each commit adds one.
    pub manifest_id: u64,
    pub options: Arc<SupertableOptions>,
    pub superfiles: Vec<Arc<SuperfileEntry>>,
}

/// The number of rows of superfiles.
pub open spec fn total_docs(s: Seq<SuperfileEntryView>) -> nat
    decreases s.len(),
{
    if s.len() == 0 {
        0
    } else {
        total_docs(s.drop_last()) + s.last().n_docs as nat
    }
}

proof fn lemma_total_docs_grows(s: Seq<SuperfileEntryView>, n: int)
    requires
        0 <= n <= s.len(),
    ensures
        total_docs(s.take(n)) <= total_docs(s),
    decreases s.len() - n,
{
    if n < s.len() {
        assert(s.take(n + 1).drop_last() =~= s.take(n));
        lemma_total_docs_grows(s, n + 1);
    } else {
        assert(s.take(n) =~= s);
    }
}

/// A copy of a list of shared superfiles.
pub(crate) fn share_all(s: &Vec<Arc<SuperfileEntry>>) -> (r: Vec<Arc<SuperfileEntry>>)
    ensures
        r@ == s@,
{
    let mut r: Vec<Arc<SuperfileEntry>> = Vec::new();
    let mut i: usize = 0;
    while i < s.len()
        invariant
            i <= s@.len(),
            r@ == s@.take(i as int),
        decreases s@.len() - i,
    {
        r.push(share(&s[i]));
        i = i + 1;
        proof {
            assert(s@.take(i as int) =~= s@.take(i as int - 1).push(s@[i as int - 1]));
        }
    }
    proof {
        assert(s@.take(i as int) =~= s@);
    }
    r
}

impl SuperfileList {
    /// The first version: no superfiles.
    pub fn empty(options: Arc<SupertableOptions>) -> (r: Self)
        ensures
            r.manifest_id == 0,
            r.options == options,
            r.superfiles@.len() == 0,
    {
        SuperfileList { manifest_id: 0, options, superfiles: Vec::new() }
    }

    /// The next version: the same superfiles, and more behind them.
    pub fn with_appended(&self, new_entries: Vec<Arc<SuperfileEntry>>) -> (r: Self)
        requires
            self.manifest_id < u64::MAX,
        ensures
            r.manifest_id == self.manifest_id + 1,
            r.options == self.options,
            r.superfiles@ == self.superfiles@ + new_entries@,
    {
        let mut superfiles = share_all(&self.superfiles);
        let mut more = new_entries;
        superfiles.append(&mut more);
        SuperfileList {
            manifest_id: self.manifest_id + 1,
            options: share(&self.options),
            superfiles,
        }
    }

    /// The number of rows.
    pub fn n_docs_total(&self) -> (n: u64)
        requires
            total_docs(entry_views(self.superfiles@)) <= u64::MAX,
        ensures
            n == total_docs(entry_views(self.superfiles@)),
    {
        let ghost v = entry_views(self.superfiles@);
        let mut n: u64 = 0;
        let mut i: usize = 0;
        proof {
            assert(v.take(0) =~= Seq::empty());
        }
        while i < self.superfiles.len()
            invariant
                i <= self.superfiles@.len(),
                v == entry_views(self.superfiles@),
                total_docs(v) <= u64::MAX,
                n == total_docs(v.take(i as int)),
            decreases self.superfiles@.len() - i,
        {
            proof {
                assert(v.take(i as int + 1).drop_last() =~= v.take(i as int));
                assert(v.take(i as int + 1).last() == self.superfiles@[i as int]@);
                lemma_total_docs_grows(v, i as int + 1);
            }
            n = n + self.superfiles[i].n_docs;
            i = i + 1;
        }
        proof {
            assert(v.take(i as int) =~= v);
        }
        n
    }
}

/// The rows of the next version are those of this one and the new ones.
pub proof fn total_docs_of_appended(a: Seq<SuperfileEntryView>, b: Seq<SuperfileEntryView>)
    ensures
        total_docs(a + b) == total_docs(a) + total_docs(b),
    decreases b.len(),
{
    if b.len() == 0 {
        assert(a + b =~= a);
    } else {
        assert((a + b).drop_last() =~= a + b.drop_last());
        total_docs_of_appended(a, b.drop_last());
    }
}

// ---------------------------------------------------------------- loading

/// Why a part cannot be loaded.
#[derive(Debug)]
pub enum ManifestLoadError {
    /// The table has no storage.
    NoLoaderAttached,
    /// The list does not name the part.
    PartNotInList { part_id: PartId },
    Storage(StorageError),
    /// The bytes are not those that were written.
    ContentHashMismatch { expected: String, actual: String },
    Parse(PartParseError),
}

/// The text of an error.
pub open spec fn load_error_text(e: ManifestLoadError) -> Seq<char> {
    match e {
        ManifestLoadError::NoLoaderAttached => "no storage / loader attached to this manifest"@,
        ManifestLoadError::PartNotInList { part_id } => "part_id not in manifest list: "@ + id_text(
            part_id.0,
        ),
        ManifestLoadError::Storage(_) => "storage error during part load"@,
        ManifestLoadError::ContentHashMismatch { expected, actual } =>
            "content-hash mismatch: expected "@ + expected@ + ", got "@ + actual@,
        ManifestLoadError::Parse(_) => "part parse failed"@,
    }
}

impl ManifestLoadError {
    /// The error as a line of text.
    pub fn message(&self) -> (r: String)
        ensures
            r@ == load_error_text(*self),
    {
        match self {
            ManifestLoadError::NoLoaderAttached => {
                "no storage / loader attached to this manifest".to_string()
            },
            ManifestLoadError::PartNotInList { part_id } => {
                let mut s = "part_id not in manifest list: ".to_string();
                s.append(write_id(part_id.0).as_str());
                s
            },
            ManifestLoadError::Storage(_) => "storage error during part load".to_string(),
            ManifestLoadError::ContentHashMismatch { expected, actual } => {
                let mut s = "content-hash mismatch: expected ".to_string();
                s.append(expected.as_str());
                s.append(", got ");
                s.append(actual.as_str());
                s
            },
            ManifestLoadError::Parse(_) => "part parse failed".to_string(),
        }
    }
}

/// Where a part is stored, and the hash of its bytes.
#[derive(Debug)]
pub struct PartLocation {
    pub part_id: PartId,
    pub content_hash: ContentHash,
    pub uri: String,
}

/// The hash and the name of a part: those of the last entry that has its
/// identity.
pub open spec fn located(parts: Seq<ManifestListEntryView>, part_id: PartId) -> Option<
    (Seq<u8>, Seq<char>),
>
    decreases parts.len(),
{
    if parts.len() == 0 {
        None
    } else if parts.last().part_id == part_id {
        Some((parts.last().content_hash, parts.last().uri))
    } else {
        located(parts.drop_last(), part_id)
    }
}

/// Knows where the parts of a list are stored.
#[derive(Debug)]
pub struct ManifestPartLoader {
    parts_index: Vec<PartLocation>,
}

impl ManifestPartLoader {
    /// The hash and the name that are known of a part.
    pub closed spec fn knows(&self, part_id: PartId) -> Option<(Seq<u8>, Seq<char>)> {
        known_in(self.parts_index@, part_id)
    }

    /// A loader for the parts of a list.
    pub fn new(list: &ManifestList) -> (r: Self)
        ensures
            forall|id: PartId| #[trigger] r.knows(id) == located(list@.parts, id),
    {
        let ghost v = list@.parts;
        let mut index: Vec<PartLocation> = Vec::new();
        let mut i: usize = 0;
        while i < list.parts.len()
            invariant
                i <= list.parts@.len(),
                v == part_views(list.parts@),
                index@.len() == i,
                forall|k: int|
                    0 <= k < i ==> (#[trigger] index@[k]).part_id == v[k].part_id
                        && index@[k].content_hash@ == v[k].content_hash && index@[k].uri@
                        == v[k].uri,
            decreases list.parts@.len() - i,
        {
            let e = &list.parts[i];
            index.push(
                PartLocation {
                    part_id: e.part_id,
                    content_hash: e.content_hash,
                    uri: e.uri.clone(),
                },
            );
            i = i + 1;
        }
        proof {
            assert forall|id: PartId| known_in(index@, id) == located(v, id) by {
                lemma_known(index@, v, id);
            }
        }
        ManifestPartLoader { parts_index: index }
    }

    /// Where a part is stored.
    pub fn locate(&self, part_id: PartId) -> (r: Result<&PartLocation, ManifestLoadError>)
        ensures
            match r {
                Ok(l) => self.knows(part_id) == Some((l.content_hash@, l.uri@)),
                Err(e) => self.knows(part_id) is None && e == (ManifestLoadError::PartNotInList {
                    part_id,
                }),
            },
    {
        let mut i: usize = self.parts_index.len();
        proof {
            assert(self.parts_index@.take(i as int) =~= self.parts_index@);
        }
        while i > 0
            invariant
                i <= self.parts_index@.len(),
                self.knows(part_id) == known_in(self.parts_index@.take(i as int), part_id),
            decreases i,
        {
            proof {
                assert(self.parts_index@.take(i as int).drop_last() =~= self.parts_index@.take(
                    i as int - 1,
                ));
            }
            i = i - 1;
            if self.parts_index[i].part_id == part_id {
                return Ok(&self.parts_index[i]);
            }
        }
        Err(ManifestLoadError::PartNotInList { part_id })
    }

    /// The part, where `fetched` is what the storage answered to the name that
    /// [`Self::locate`] gives.
    pub fn load(&self, part_id: PartId, fetched: Result<Vec<u8>, StorageError>) -> (r: Result<
        ManifestPart,
        ManifestLoadError,
    >)
        ensures
            exists|limit: usize| #[trigger]
                loaded(limit, self.knows(part_id), part_id, fetched, r),
    {
        match self.locate(part_id) {
            Ok(l) => {
                let r = finish_part_load(&l.content_hash, fetched);
                proof {
                    let limit = choose|limit: usize| #[trigger]
                        loaded_as(limit, l.content_hash@, fetched, r);
                    assert(loaded(limit, self.knows(part_id), part_id, fetched, r));
                }
                r
            },
            Err(e) => {
                let r = Err(e);
                assert(loaded(0, self.knows(part_id), part_id, fetched, r));
                r
            },
        }
    }
}

/// What loading a part comes to: its error, or the part that its bytes hold
/// under a limit on Avro's allocations.
pub open spec fn loaded(
    limit: usize,
    known: Option<(Seq<u8>, Seq<char>)>,
    part_id: PartId,
    fetched: Result<Vec<u8>, StorageError>,
    r: Result<ManifestPart, ManifestLoadError>,
) -> bool {
    match known {
        None => r == Err::<ManifestPart, ManifestLoadError>(
            ManifestLoadError::PartNotInList { part_id },
        ),
        Some(k) => loaded_as(limit, k.0, fetched, r),
    }
}

/// What fetched bytes come to under a limit, where their hash is to be
/// `expected`.
pub open spec fn loaded_as(
    limit: usize,
    expected: Seq<u8>,
    fetched: Result<Vec<u8>, StorageError>,
    r: Result<ManifestPart, ManifestLoadError>,
) -> bool {
    match fetched {
        Err(e) => r == Err::<ManifestPart, ManifestLoadError>(ManifestLoadError::Storage(e)),
        Ok(bytes) => if blake3_digest(bytes@) != expected {
            r matches Err(ManifestLoadError::ContentHashMismatch { expected: e, actual: a }) && e@
                == hex_text(expected) && a@ == hex_text(blake3_digest(bytes@))
        } else {
            match part_decoded(limit, bytes@) {
                Ok(p) => r matches Ok(q) && q@ == p,
                Err(e) => r matches Err(ManifestLoadError::Parse(f)) && f@ == e,
            }
        },
    }
}

spec fn known_in(index: Seq<PartLocation>, part_id: PartId) -> Option<(Seq<u8>, Seq<char>)>
    decreases index.len(),
{
    if index.len() == 0 {
        None
    } else if index.last().part_id == part_id {
        Some((index.last().content_hash@, index.last().uri@))
    } else {
        known_in(index.drop_last(), part_id)
    }
}

proof fn lemma_known(index: Seq<PartLocation>, parts: Seq<ManifestListEntryView>, id: PartId)
    requires
        index.len() == parts.len(),
        forall|k: int|
            0 <= k < index.len() ==> (#[trigger] index[k]).part_id == parts[k].part_id
                && index[k].content_hash@ == parts[k].content_hash && index[k].uri@ == parts[k].uri,
    ensures
        known_in(index, id) == located(parts, id),
    decreases index.len(),
{
    if index.len() > 0 {
        assert(index.last() == index[index.len() - 1]);
        assert(parts.last() == parts[parts.len() - 1]);
        assert forall|k: int| 0 <= k < index.drop_last().len() implies (
        #[trigger] index.drop_last()[k]).part_id == parts.drop_last()[k].part_id
            && index.drop_last()[k].content_hash@ == parts.drop_last()[k].content_hash
            && index.drop_last()[k].uri@ == parts.drop_last()[k].uri by {
            assert(index.drop_last()[k] == index[k]);
            assert(parts.drop_last()[k] == parts[k]);
        }
        lemma_known(index.drop_last(), parts.drop_last(), id);
    }
}

/// The part that stored bytes hold. Bytes with another hash than the expected
/// one are never read as a part.
pub fn finish_part_load(expected: &ContentHash, outcome: Result<Vec<u8>, StorageError>) -> (r: Result<
    ManifestPart,
    ManifestLoadError,
>)
    ensures
        exists|limit: usize| #[trigger] loaded_as(limit, expected@, outcome, r),
{
    let bytes = match outcome {
        Ok(b) => b,
        Err(e) => {
            let r = Err(ManifestLoadError::Storage(e));
            assert(loaded_as(0, expected@, outcome, r));
            return r;
        },
    };
    let actual = ContentHash::of(bytes.as_slice());
    if !actual.same(expected) {
        let r = Err(
            ManifestLoadError::ContentHashMismatch {
                expected: expected.to_hex(),
                actual: actual.to_hex(),
            },
        );
        assert(loaded_as(0, expected@, outcome, r));
        return r;
    }
    let (limit, read) = decode_within(bytes.as_slice());
    let r = match read {
        Ok(p) => Ok(p),
        Err(e) => Err(ManifestLoadError::Parse(e)),
    };
    assert(loaded_as(limit, expected@, outcome, r));
    r
}

// ---------------------------------------------------------------- manifests

/// The manifest of one version: its superfiles and, where the table is stored,
/// its list and the loader of its parts.
#[derive(Debug)]
pub struct Manifest {
    pub superfile_list: SuperfileList,
    pub list: Option<Arc<ManifestList>>,
    pub loader: Option<Arc<ManifestPartLoader>>,
}

impl Manifest {
    /// The first version of a table without storage.
    pub fn empty(options: Arc<SupertableOptions>) -> (r: Self)
        ensures
            r.superfile_list.manifest_id == 0,
            r.superfile_list.options == options,
            r.superfile_list.superfiles@.len() == 0,
            r.list is None,
            r.loader is None,
    {
        Manifest { superfile_list: SuperfileList::empty(options), list: None, loader: None }
    }

    /// The next version, with more superfiles. List and loader stay as they
    /// are.
    pub fn with_appended(&self, new_entries: Vec<Arc<SuperfileEntry>>) -> (r: Self)
        requires
            self.superfile_list.manifest_id < u64::MAX,
        ensures
            r.superfile_list.manifest_id == self.superfile_list.manifest_id + 1,
            r.superfile_list.options == self.superfile_list.options,
            r.superfile_list.superfiles@ == self.superfile_list.superfiles@ + new_entries@,
            r.list == self.list,
            r.loader == self.loader,
    {
        Manifest {
            superfile_list: self.superfile_list.with_appended(new_entries),
            list: match &self.list {
                Some(l) => Some(share(l)),
                None => None,
            },
            loader: match &self.loader {
                Some(l) => Some(share(l)),
                None => None,
            },
        }
    }

    /// Where a part is stored.
    pub fn part_location(&self, part_id: PartId) -> (r: Result<&PartLocation, ManifestLoadError>)
        ensures
            match self.loader {
                None => r == Err::<&PartLocation, ManifestLoadError>(
                    ManifestLoadError::NoLoaderAttached,
                ),
                Some(loader) => match r {
                    Ok(l) => loader.knows(part_id) == Some((l.content_hash@, l.uri@)),
                    Err(e) => loader.knows(part_id) is None && e == (
                    ManifestLoadError::PartNotInList { part_id }),
                },
            },
    {
        match &self.loader {
            None => Err(ManifestLoadError::NoLoaderAttached),
            Some(loader) => loader.locate(part_id),
        }
    }

    /// A part, where `fetched` is what the storage answered to the name that
    /// [`Self::part_location`] gives.
    pub fn part(&self, part_id: PartId, fetched: Result<Vec<u8>, StorageError>) -> (r: Result<
        ManifestPart,
        ManifestLoadError,
    >)
        ensures
            match self.loader {
                None => r == Err::<ManifestPart, ManifestLoadError>(
                    ManifestLoadError::NoLoaderAttached,
                ),
                Some(loader) => exists|limit: usize| #[trigger]
                    loaded(limit, loader.knows(part_id), part_id, fetched, r),
            },
    {
        match &self.loader {
            None => Err(ManifestLoadError::NoLoaderAttached),
            Some(loader) => loader.load(part_id, fetched),
        }
    }
}

// ---------------------------------------------------------------- laws

/// The rows of one superfile are its rows.
pub proof fn one_superfile_has_its_rows(e: SuperfileEntryView)
    ensures
        total_docs(seq![e]) == e.n_docs,
        total_docs(Seq::empty()) == 0,
{
    assert(seq![e].drop_last() =~= Seq::empty());
    assert(total_docs(Seq::empty()) == 0);
}

/// A part is found where an entry of the list has its identity, with the hash
/// and the name of the last such entry.
pub proof fn parts_are_found_by_identity(parts: Seq<ManifestListEntryView>, part_id: PartId)
    ensures
        located(parts, part_id) is None <==> (forall|i: int|
            0 <= i < parts.len() ==> (#[trigger] parts[i]).part_id != part_id),
        located(parts, part_id) matches Some(l) ==> exists|i: int|
            #![trigger parts[i]]
            0 <= i < parts.len() && parts[i].part_id == part_id && l.0 == parts[i].content_hash
                && l.1 == parts[i].uri && (forall|j: int|
                i < j < parts.len() ==> (#[trigger] parts[j]).part_id != part_id),
    decreases parts.len(),
{
    if parts.len() > 0 {
        let last = parts.len() - 1;
        let rest = parts.drop_last();
        assert(parts[last] == parts.last());
        if parts.last().part_id != part_id {
            parts_are_found_by_identity(rest, part_id);
            if located(rest, part_id) is Some {
                let l = located(rest, part_id)->0;
                let i = choose|i: int|
                    #![trigger rest[i]]
                    0 <= i < rest.len() && rest[i].part_id == part_id && l.0
                        == rest[i].content_hash && l.1 == rest[i].uri && (forall|j: int|
                        i < j < rest.len() ==> (#[trigger] rest[j]).part_id != part_id);
                assert(parts[i] == rest[i]);
                assert forall|j: int| i < j < parts.len() implies (
                #[trigger] parts[j]).part_id != part_id by {
                    if j < last {
                        assert(parts[j] == rest[j]);
                    }
                }
            } else {
                assert forall|i: int| 0 <= i < parts.len() implies (
                #[trigger] parts[i]).part_id != part_id by {
                    if i < last {
                        assert(parts[i] == rest[i]);
                    }
                }
            }
        }
    }
}

/// Bytes are read as a part only where they are those that were written: with
/// another hash they are refused, and a fault of the storage is handed on. What
/// was written and comes back as it was loads as the part it was written from.
pub proof fn only_written_bytes_are_loaded(
    limit: usize,
    expected: Seq<u8>,
    fetched: Result<Vec<u8>, StorageError>,
    r: Result<ManifestPart, ManifestLoadError>,
    part: ManifestPartView,
)
    requires
        loaded_as(limit, expected, fetched, r),
    ensures
        r is Ok ==> fetched is Ok && blake3_digest(fetched->Ok_0@) == expected,
        fetched matches Err(e) ==> r == Err::<ManifestPart, ManifestLoadError>(
            ManifestLoadError::Storage(e),
        ),
        fetched matches Ok(bytes) ==> (blake3_digest(bytes@) != expected ==> r matches Err(
            ManifestLoadError::ContentHashMismatch { .. },
        )),
        fetched matches Ok(bytes) ==> (blake3_digest(bytes@) == expected && reads_back(part, bytes@)
            && part_readable(limit, part_datum(part)) ==> (r matches Ok(p) && p@ == part)),
{
    reveal(reads_back);
}

} // verus!
