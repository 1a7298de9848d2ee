//! The errors of the table.

use vstd::prelude::*;

verus! {

/// What a storage backend answers when a request fails.
#[derive(Debug)]
pub enum StorageError {
    /// There is no object of that name.
    NotFound { uri: String },
    /// The object is not in the state that the request asked for.
    PreconditionFailed { uri: String },
    /// Every try met a passing fault.
    TransientExhausted { uri: String, detail: String },
    /// The request can never succeed.
    Permanent { uri: String, detail: String },
}

/// Errors of options and of building superfiles.
#[allow(inconsistent_fields)]
#[derive(Debug)]
pub enum BuildError {
    MissingIdColumn(String),
    IdColumnWrongType(String, String),
    IdColumnReserved(String),
    FtsColumnMissing { column: String },
    FtsColumnMustBeLargeUtf8 { column: String, actual: String },
    VectorColumnMissing { column: String },
    VectorColumnNotFixedSizeList { column: String, dim: usize, actual: String },
    VectorColumnDimMismatch { column: String, expected: usize, actual: usize },
    VectorColumnHasNulls { column: String, first_nulls: Vec<usize> },
    VectorDimOutOfRange { column: String, dim: usize },
    DuplicateLogicalName(String),
    ReservedSeparatorInColumnName(String),
    ReservedPrefixInColumnName(String),
    MissingTokenizer,
    BatchSchemaMismatch,
    Superfile(String),
    SupertableInUse,
    Store(String),
    ThreadPoolCreation(String),
    ReadAfterCommit(String),
    StorageConstruction(StorageError),
    DiskCacheRootUnwritable(String),
    PartitionColumnMissing(String),
}

#[allow(inconsistent_fields)]
pub enum BuildErrorView {
    MissingIdColumn(Seq<char>),
    IdColumnWrongType(Seq<char>, Seq<char>),
    IdColumnReserved(Seq<char>),
    FtsColumnMissing { column: Seq<char> },
    FtsColumnMustBeLargeUtf8 { column: Seq<char>, actual: Seq<char> },
    VectorColumnMissing { column: Seq<char> },
    VectorColumnNotFixedSizeList { column: Seq<char>, dim: usize, actual: Seq<char> },
    VectorColumnDimMismatch { column: Seq<char>, expected: usize, actual: usize },
    VectorColumnHasNulls { column: Seq<char>, first_nulls: Seq<usize> },
    VectorDimOutOfRange { column: Seq<char>, dim: usize },
    DuplicateLogicalName(Seq<char>),
    ReservedSeparatorInColumnName(Seq<char>),
    ReservedPrefixInColumnName(Seq<char>),
    MissingTokenizer,
    BatchSchemaMismatch,
    Superfile(Seq<char>),
    SupertableInUse,
    Store(Seq<char>),
    ThreadPoolCreation(Seq<char>),
    ReadAfterCommit(Seq<char>),
    StorageConstruction(StorageError),
    DiskCacheRootUnwritable(Seq<char>),
    PartitionColumnMissing(Seq<char>),
}

impl View for BuildError {
    type V = BuildErrorView;

    open spec fn view(&self) -> BuildErrorView {
        match *self {
            BuildError::MissingIdColumn(a) => BuildErrorView::MissingIdColumn(a@),
            BuildError::IdColumnWrongType(a, b) => BuildErrorView::IdColumnWrongType(a@, b@),
            BuildError::IdColumnReserved(a) => BuildErrorView::IdColumnReserved(a@),
            BuildError::FtsColumnMissing { column } => BuildErrorView::FtsColumnMissing {
                column: column@,
            },
            BuildError::FtsColumnMustBeLargeUtf8 { column, actual } => BuildErrorView::FtsColumnMustBeLargeUtf8 {
                column: column@, actual: actual@,
            },
            BuildError::VectorColumnMissing { column } => BuildErrorView::VectorColumnMissing {
                column: column@,
            },
            BuildError::VectorColumnNotFixedSizeList { column, dim, actual } => BuildErrorView::VectorColumnNotFixedSizeList {
                column: column@, dim, actual: actual@,
            },
            BuildError::VectorColumnDimMismatch { column, expected, actual } => BuildErrorView::VectorColumnDimMismatch {
                column: column@, expected, actual,
            },
            BuildError::VectorColumnHasNulls { column, first_nulls } => BuildErrorView::VectorColumnHasNulls {
                column: column@, first_nulls: first_nulls@,
            },
            BuildError::VectorDimOutOfRange { column, dim } => BuildErrorView::VectorDimOutOfRange {
                column: column@, dim,
            },
            BuildError::DuplicateLogicalName(a) => BuildErrorView::DuplicateLogicalName(a@),
            BuildError::ReservedSeparatorInColumnName(a) => BuildErrorView::ReservedSeparatorInColumnName(a@),
            BuildError::ReservedPrefixInColumnName(a) => BuildErrorView::ReservedPrefixInColumnName(a@),
            BuildError::MissingTokenizer => BuildErrorView::MissingTokenizer,
            BuildError::BatchSchemaMismatch => BuildErrorView::BatchSchemaMismatch,
            BuildError::Superfile(a) => BuildErrorView::Superfile(a@),
            BuildError::SupertableInUse => BuildErrorView::SupertableInUse,
            BuildError::Store(a) => BuildErrorView::Store(a@),
            BuildError::ThreadPoolCreation(a) => BuildErrorView::ThreadPoolCreation(a@),
            BuildError::ReadAfterCommit(a) => BuildErrorView::ReadAfterCommit(a@),
            BuildError::StorageConstruction(a) => BuildErrorView::StorageConstruction(a),
            BuildError::DiskCacheRootUnwritable(a) => BuildErrorView::DiskCacheRootUnwritable(a@),
            BuildError::PartitionColumnMissing(a) => BuildErrorView::PartitionColumnMissing(a@),
        }
    }
}

/// Errors of publishing a new manifest version.
#[derive(Debug)]
pub enum CommitError {
    Storage(StorageError),
    Build(BuildError),
    Encode(String),
    PointerParse(String),
    WriteContentionExhausted,
    SuperfileSpansPartition { detail: String },
}

/// Errors of opening and refreshing a table.
#[derive(Debug)]
pub enum OpenError {
    PointerUnreadable(StorageError),
    ManifestListParse(String),
    ManifestPartLoad { part_id: String, detail: String },
    ContentHashMismatch { expected: String, actual: String },
    Storage(StorageError),
    Build(BuildError),
    Commit(CommitError),
    OptionsHashMismatch { expected: String, actual: String },
}

/// Errors of queries.
#[derive(Debug)]
pub enum QueryError {
    Store(String),
    Parquet(String),
    Plan(String),
    Execute(String),
}

/// The text of a commit error.
pub open spec fn commit_error_text(e: CommitError) -> Seq<char> {
    match e {
        CommitError::Storage(_) => "storage error during commit"@,
        CommitError::Build(_) => "build error during commit"@,
        CommitError::Encode(s) => "manifest encode failed: "@ + s@,
        CommitError::PointerParse(s) => "pointer file parse failed: "@ + s@,
        CommitError::WriteContentionExhausted => "write contention exhausted retries"@,
        CommitError::SuperfileSpansPartition { detail } =>
            "segment spans partition boundary: "@ + detail@,
    }
}

/// Two texts, one behind the other.
pub(crate) fn joined(a: &str, b: &str) -> (r: String)
    ensures
        r@ == a@ + b@,
{
    let mut out = a.to_string();
    out.append(b);
    out
}

impl CommitError {
    /// The error as a line of text.
    pub fn message(&self) -> (r: String)
        ensures
            r@ == commit_error_text(*self),
    {
        match self {
            CommitError::Storage(_) => "storage error during commit".to_string(),
            CommitError::Build(_) => "build error during commit".to_string(),
            CommitError::Encode(s) => joined("manifest encode failed: ", s.as_str()),
            CommitError::PointerParse(s) => joined("pointer file parse failed: ", s.as_str()),
            CommitError::WriteContentionExhausted => {
                "write contention exhausted retries".to_string()
            },
            CommitError::SuperfileSpansPartition { detail } => {
                joined("segment spans partition boundary: ", detail.as_str())
            },
        }
    }
}

} // verus!
