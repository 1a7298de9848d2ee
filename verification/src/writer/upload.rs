//! How the bytes of superfiles reach the storage.

use vstd::prelude::*;

use crate::chunks::{chunk_ranges, chunks_from, ByteRange};
use crate::error::{CommitError, StorageError};
use crate::ids::{id_text, write_id};
use crate::manifest::entry::SuperfileUri;

verus! {

/// Bytes of the pieces that a large superfile is sent in.
pub const PART_BYTES: u64 = 8388608;

/// The name of a superfile in the storage.
pub open spec fn segment_path_text(uri: SuperfileUri) -> Seq<char> {
    "data/seg-"@ + id_text(uri.0) + ".sf"@
}

/// The name of a superfile in the storage.
pub fn segment_storage_path(uri: &SuperfileUri) -> (r: String)
    ensures
        r@ == segment_path_text(*uri),
{
    let mut s = "data/seg-".to_string();
    s.append(write_id(uri.0).as_str());
    s.append(".sf");
    s
}

/// How a superfile is sent.
#[derive(Clone, Copy, PartialEq, Eq, Structural, Debug)]
pub enum PutMode {
    /// In one request.
    Single,
    /// In pieces.
    Multipart,
}

/// How a superfile of `len` bytes is sent.
pub fn put_mode(len: u64, threshold: u64) -> (r: PutMode)
    ensures
        r is Multipart <==> len >= threshold,
{
    if len >= threshold {
        PutMode::Multipart
    } else {
        PutMode::Single
    }
}

/// What an attempt to send a superfile means for the commit. That there already
/// is an object of the name is no failure: an earlier try of the same commit
/// wrote it.
pub open spec fn put_outcome(outcome: Result<(), StorageError>) -> Result<(), CommitError> {
    match outcome {
        Ok(_) => Ok(()),
        Err(StorageError::PreconditionFailed { .. }) => Ok(()),
        Err(e) => Err(CommitError::Storage(e)),
    }
}

/// What an attempt to send a superfile means for the commit.
pub fn finish_segment_put(outcome: Result<(), StorageError>) -> (r: Result<(), CommitError>)
    ensures
        r == put_outcome(outcome),
{
    match outcome {
        Ok(()) => Ok(()),
        Err(StorageError::PreconditionFailed { .. }) => Ok(()),
        Err(e) => Err(CommitError::Storage(e)),
    }
}

/// The first failure among the superfiles of a commit.
pub open spec fn first_put_failure(
    outcomes: Seq<Result<(), StorageError>>,
    from: int,
) -> Option<StorageError>
    decreases outcomes.len() - from,
{
    if from >= outcomes.len() || from < 0 {
        None
    } else {
        match put_outcome(outcomes[from]) {
            Err(CommitError::Storage(e)) => Some(e),
            _ => first_put_failure(outcomes, from + 1),
        }
    }
}

/// What the attempts to send the superfiles of a commit mean for it: the first
/// failure is that of the commit.
pub fn finish_segment_puts(outcomes: Vec<Result<(), StorageError>>) -> (r: Result<(), CommitError>)
    ensures
        match first_put_failure(outcomes@, 0) {
            None => r is Ok,
            Some(e) => r == Err::<(), CommitError>(CommitError::Storage(e)),
        },
{
    let ghost all = outcomes@;
    let mut rest = outcomes;
    let ghost mut n: int = 0;
    assert(all.skip(0) =~= all);
    while rest.len() > 0
        invariant
            all == outcomes@,
            0 <= n <= all.len(),
            rest@ == all.skip(n),
            first_put_failure(all, 0) == first_put_failure(all, n),
        decreases rest@.len(),
    {
        let outcome = rest.remove(0);
        assert(outcome == all[n]);
        assert(rest@ =~= all.skip(n + 1));
        match finish_segment_put(outcome) {
            Ok(()) => {},
            Err(e) => {
                return Err(e);
            },
        }
        proof {
            n = n + 1;
        }
    }
    Ok(())
}

/// What follows the question whether there is an object of the name.
#[derive(Debug)]
pub enum UploadStart {
    /// Send these pieces, in this order.
    Send(Vec<ByteRange>),
    /// Do not send, with this answer.
    Stop(StorageError),
}

/// How an upload in pieces begins. An object that is there is not written
/// again; anything but its absence is an answer of its own.
pub fn start_upload(path: &str, len: u64, head: Result<(), StorageError>) -> (r: UploadStart)
    ensures
        match head {
            Ok(_) => r matches UploadStart::Stop(StorageError::PreconditionFailed { uri }) && uri@
                == path@,
            Err(StorageError::NotFound { .. }) => r matches UploadStart::Send(pieces) && pieces@
                == chunks_from(0, len, PART_BYTES),
            Err(e) => r == UploadStart::Stop(e),
        },
{
    match head {
        Ok(()) => UploadStart::Stop(StorageError::PreconditionFailed { uri: path.to_string() }),
        Err(StorageError::NotFound { .. }) => UploadStart::Send(chunk_ranges(len, PART_BYTES)),
        Err(e) => UploadStart::Stop(e),
    }
}

/// What follows the sending of the pieces.
#[derive(Debug)]
pub enum UploadEnd {
    /// The object is there.
    Done,
    /// Give the upload up, with this answer.
    Abort(StorageError),
}

/// How an upload ends. `fault` is the text of the first error, of a piece or of
/// the completion, where there was one.
pub fn finish_upload(path: &str, fault: Option<String>) -> (r: UploadEnd)
    ensures
        match fault {
            None => r is Done,
            Some(d) => r matches UploadEnd::Abort(StorageError::Permanent { uri, detail }) && uri@
                == path@ && detail == d,
        },
{
    match fault {
        None => UploadEnd::Done,
        Some(detail) => UploadEnd::Abort(
            StorageError::Permanent { uri: path.to_string(), detail },
        ),
    }
}

/// What the pointer's state means for the commit: its tag, none where there is
/// no pointer yet.
pub fn finish_pointer_head(head: Result<Option<String>, StorageError>) -> (r: Result<
    Option<String>,
    CommitError,
>)
    ensures
        match head {
            Ok(tag) => r == Ok::<Option<String>, CommitError>(tag),
            Err(StorageError::NotFound { .. }) => r == Ok::<Option<String>, CommitError>(None),
            Err(e) => r == Err::<Option<String>, CommitError>(CommitError::Storage(e)),
        },
{
    match head {
        Ok(tag) => Ok(tag),
        Err(StorageError::NotFound { .. }) => Ok(None),
        Err(e) => Err(CommitError::Storage(e)),
    }
}

// ---------------------------------------------------------------- laws

/// That a superfile is in the storage after an attempt to send it: it was
/// written, or it was there.
pub open spec fn is_there(outcome: Result<(), StorageError>) -> bool {
    outcome is Ok || (outcome matches Err(e) && e is PreconditionFailed)
}

/// A commit goes on where all its superfiles are in the storage. Else it fails
/// with the answer for the first that is not.
pub proof fn commits_need_all_superfiles(outcomes: Seq<Result<(), StorageError>>, from: int)
    requires
        0 <= from <= outcomes.len(),
    ensures
        first_put_failure(outcomes, from) is None <==> (forall|i: int|
            from <= i < outcomes.len() ==> is_there(#[trigger] outcomes[i])),
        first_put_failure(outcomes, from) matches Some(e) ==> exists|i: int|
            from <= i < outcomes.len() && #[trigger] outcomes[i] == Err::<(), StorageError>(e)
                && !is_there(outcomes[i]) && (forall|j: int|
                from <= j < i ==> is_there(#[trigger] outcomes[j])),
    decreases outcomes.len() - from,
{
    if from < outcomes.len() {
        let o = outcomes[from];
        if is_there(o) {
            commits_need_all_superfiles(outcomes, from + 1);
            assert(put_outcome(o) is Ok);
            if first_put_failure(outcomes, from + 1) is Some {
                let e = first_put_failure(outcomes, from + 1)->0;
                let i = choose|i: int|
                    from + 1 <= i < outcomes.len() && #[trigger] outcomes[i] == Err::<
                        (),
                        StorageError,
                    >(e) && !is_there(outcomes[i]) && (forall|j: int|
                        from + 1 <= j < i ==> is_there(#[trigger] outcomes[j]));
                assert(outcomes[i] == Err::<(), StorageError>(e));
            }
        } else {
            assert(put_outcome(o) == Err::<(), CommitError>(CommitError::Storage(o->Err_0)));
        }
    }
}

/// One attempt means for the commit what it means among others.
pub proof fn one_attempt_is_judged_alike(outcome: Result<(), StorageError>)
    ensures
        put_outcome(outcome) is Ok <==> is_there(outcome),
        !is_there(outcome) ==> put_outcome(outcome) == Err::<(), CommitError>(
            CommitError::Storage(outcome->Err_0),
        ),
{
}

} // verus!
