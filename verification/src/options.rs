//! The configuration of a table.

use vstd::prelude::*;

use crate::error::{BuildError, BuildErrorView};
use crate::manifest::list::{PartitionStrategy, PartitionStrategyView};
use crate::scalar::{DataType, DataTypeView, TypeKind};
use crate::text::{chars_of, text_eq};

verus! {

/// Bounds of the dimension of vector columns.
pub const VECTOR_DIM_MIN: usize = 16;

pub const VECTOR_DIM_MAX: usize = 4096;

/// The character that column names must not hold.
pub const RESERVED_SEPARATOR: char = '\u{1F}';

/// What column names must not start with.
pub const RESERVED_PREFIX: &'static str = "inf.";

/// The default name of the id column.
pub const DEFAULT_ID_COLUMN: &'static str = "_id";

/// The decimal type of the id column.
pub const DECIMAL128_PRECISION: u8 = 38;

pub const DECIMAL128_SCALE: i8 = 0;

// ---------------------------------------------------------------- schemas

/// A column of a schema.
#[derive(Debug)]
pub struct Field {
    pub name: String,
    pub data_type: DataType,
    pub nullable: bool,
}

pub struct FieldView {
    pub name: Seq<char>,
    pub data_type: DataTypeView,
    pub nullable: bool,
}

impl View for Field {
    type V = FieldView;

    open spec fn view(&self) -> FieldView {
        FieldView { name: self.name@, data_type: self.data_type@, nullable: self.nullable }
    }
}

impl Clone for Field {
    fn clone(&self) -> (r: Self)
        ensures
            r@ == self@,
    {
        Field {
            name: self.name.clone(),
            data_type: self.data_type.clone(),
            nullable: self.nullable,
        }
    }
}

/// The columns of a schema.
pub open spec fn schema_view(s: Seq<Field>) -> Seq<FieldView> {
    Seq::new(s.len(), |i: int| s[i]@)
}

/// The first column of a name.
pub open spec fn field_named(s: Seq<FieldView>, name: Seq<char>) -> Option<FieldView>
    decreases s.len(),
{
    if s.len() == 0 {
        None
    } else if s[0].name == name {
        Some(s[0])
    } else {
        field_named(s.skip(1), name)
    }
}

/// Whether a name occurs among names.
pub open spec fn occurs(names: Seq<Seq<char>>, name: Seq<char>) -> bool {
    exists|i: int| 0 <= i < names.len() && #[trigger] names[i] == name
}

fn find_field<'a>(s: &'a Vec<Field>, name: &str) -> (r: Option<&'a Field>)
    ensures
        match r {
            Some(f) => field_named(schema_view(s@), name@) == Some(f@),
            None => field_named(schema_view(s@), name@) is None,
        },
{
    let ghost v = schema_view(s@);
    let mut i: usize = 0;
    proof {
        assert(v.skip(0) =~= v);
    }
    while i < s.len()
        invariant
            i <= s@.len(),
            v == schema_view(s@),
            field_named(v, name@) == field_named(v.skip(i as int), name@),
        decreases s@.len() - i,
    {
        proof {
            assert(v.skip(i as int)[0] == s@[i as int]@);
            assert(v.skip(i as int).skip(1) =~= v.skip(i as int + 1));
        }
        if text_eq(s[i].name.as_str(), name) {
            return Some(&s[i]);
        }
        i = i + 1;
    }
    None
}

// ---------------------------------------------------------------- columns

/// A full-text column.
#[derive(Debug)]
pub struct FtsConfig {
    pub column: String,
}

impl View for FtsConfig {
    type V = Seq<char>;

    open spec fn view(&self) -> Seq<char> {
        self.column@
    }
}

impl Clone for FtsConfig {
    fn clone(&self) -> (r: Self)
        ensures
            r@ == self@,
    {
        FtsConfig { column: self.column.clone() }
    }
}

/// How the distance of vectors is measured.
#[derive(Clone, Copy, PartialEq, Eq, Structural, Debug)]
pub enum Metric {
    Cosine,
    L2Sq,
    NegDot,
}

/// The name of a metric.
pub open spec fn metric_name(m: Metric) -> Seq<char> {
    match m {
        Metric::Cosine => "cosine"@,
        Metric::L2Sq => "l2sq"@,
        Metric::NegDot => "negdot"@,
    }
}

impl Metric {
    /// The name of the metric.
    pub fn name(&self) -> (r: &'static str)
        ensures
            r@ == metric_name(*self),
    {
        match self {
            Metric::Cosine => "cosine",
            Metric::L2Sq => "l2sq",
            Metric::NegDot => "negdot",
        }
    }
}

/// A vector column.
#[derive(Debug)]
pub struct VectorConfig {
    pub column: String,
    pub dim: usize,
    pub n_cent: usize,
    pub rot_seed: u64,
    pub metric: Metric,
}

pub struct VectorConfigView {
    pub column: Seq<char>,
    pub dim: usize,
    pub n_cent: usize,
    pub rot_seed: u64,
    pub metric: Metric,
}

impl View for VectorConfig {
    type V = VectorConfigView;

    open spec fn view(&self) -> VectorConfigView {
        VectorConfigView {
            column: self.column@,
            dim: self.dim,
            n_cent: self.n_cent,
            rot_seed: self.rot_seed,
            metric: self.metric,
        }
    }
}

impl Clone for VectorConfig {
    fn clone(&self) -> (r: Self)
        ensures
            r@ == self@,
    {
        VectorConfig {
            column: self.column.clone(),
            dim: self.dim,
            n_cent: self.n_cent,
            rot_seed: self.rot_seed,
            metric: self.metric,
        }
    }
}

/// The full-text columns of a list.
pub open spec fn fts_config_views(s: Seq<FtsConfig>) -> Seq<Seq<char>> {
    Seq::new(s.len(), |i: int| s[i]@)
}

/// The vector columns of a list.
pub open spec fn vector_config_views(s: Seq<VectorConfig>) -> Seq<VectorConfigView> {
    Seq::new(s.len(), |i: int| s[i]@)
}

/// The names of vector columns.
pub open spec fn vector_names(s: Seq<VectorConfigView>) -> Seq<Seq<char>> {
    Seq::new(s.len(), |i: int| s[i].column)
}

// ---------------------------------------------------------------- checks

/// Whether a text starts with another.
pub open spec fn has_prefix(s: Seq<char>, prefix: Seq<char>) -> bool {
    prefix.len() <= s.len() && s.take(prefix.len() as int) == prefix
}

/// What is wrong with a column name.
pub open spec fn name_fault(name: Seq<char>) -> Option<BuildErrorView> {
    if name.contains(RESERVED_SEPARATOR) {
        Some(BuildErrorView::ReservedSeparatorInColumnName(name))
    } else if has_prefix(name, RESERVED_PREFIX@) {
        Some(BuildErrorView::ReservedPrefixInColumnName(name))
    } else {
        None
    }
}

/// What is wrong with a full-text column.
pub open spec fn fts_fault(schema: Seq<FieldView>, column: Seq<char>) -> Option<BuildErrorView> {
    if name_fault(column) is Some {
        name_fault(column)
    } else {
        match field_named(schema, column) {
            None => Some(BuildErrorView::FtsColumnMissing { column }),
            Some(f) => if f.data_type.kind == TypeKind::LargeUtf8 {
                None
            } else {
                Some(
                    BuildErrorView::FtsColumnMustBeLargeUtf8 { column, actual: f.data_type.name },
                )
            },
        }
    }
}

/// The size of a list as the checks see it.
pub open spec fn list_len(list_size: i32) -> usize {
    if list_size < 0 {
        usize::MAX
    } else {
        list_size as usize
    }
}

/// What is wrong with a vector column.
pub open spec fn vector_fault(schema: Seq<FieldView>, vc: VectorConfigView) -> Option<
    BuildErrorView,
> {
    if name_fault(vc.column) is Some {
        name_fault(vc.column)
    } else if vc.dim < VECTOR_DIM_MIN || vc.dim > VECTOR_DIM_MAX {
        Some(BuildErrorView::VectorDimOutOfRange { column: vc.column, dim: vc.dim })
    } else {
        match field_named(schema, vc.column) {
            None => Some(BuildErrorView::VectorColumnMissing { column: vc.column }),
            Some(f) => match f.data_type.kind {
                TypeKind::FixedSizeList { float32_items: true, list_size } => if list_len(list_size)
                    == vc.dim {
                    None
                } else {
                    Some(
                        BuildErrorView::VectorColumnDimMismatch {
                            column: vc.column,
                            expected: vc.dim,
                            actual: list_len(list_size),
                        },
                    )
                },
                _ => Some(
                    BuildErrorView::VectorColumnNotFixedSizeList {
                        column: vc.column,
                        dim: vc.dim,
                        actual: f.data_type.name,
                    },
                ),
            },
        }
    }
}

/// The first fault among full-text columns.
pub open spec fn fts_faults(schema: Seq<FieldView>, s: Seq<Seq<char>>) -> Option<BuildErrorView>
    decreases s.len(),
{
    if s.len() == 0 {
        None
    } else if fts_fault(schema, s[0]) is Some {
        fts_fault(schema, s[0])
    } else {
        fts_faults(schema, s.skip(1))
    }
}

/// The first fault among vector columns.
pub open spec fn vector_faults(schema: Seq<FieldView>, s: Seq<VectorConfigView>) -> Option<
    BuildErrorView,
>
    decreases s.len(),
{
    if s.len() == 0 {
        None
    } else if vector_fault(schema, s[0]) is Some {
        vector_fault(schema, s[0])
    } else {
        vector_faults(schema, s.skip(1))
    }
}

/// The first name that occurred before.
pub open spec fn first_repeat(names: Seq<Seq<char>>, from: int) -> Option<Seq<char>>
    decreases names.len() - from,
{
    if from < 0 || from >= names.len() {
        None
    } else if occurs(names.take(from), names[from]) {
        Some(names[from])
    } else {
        first_repeat(names, from + 1)
    }
}

/// The first fault of a configuration.
pub open spec fn config_fault(
    schema: Seq<FieldView>,
    fts: Seq<Seq<char>>,
    vectors: Seq<VectorConfigView>,
    has_tokenizer: bool,
) -> Option<BuildErrorView> {
    if field_named(schema, DEFAULT_ID_COLUMN@) is Some {
        Some(BuildErrorView::IdColumnReserved(DEFAULT_ID_COLUMN@))
    } else if fts_faults(schema, fts) is Some {
        fts_faults(schema, fts)
    } else if vector_faults(schema, vectors) is Some {
        vector_faults(schema, vectors)
    } else if first_repeat(fts + vector_names(vectors), 0) is Some {
        Some(
            BuildErrorView::DuplicateLogicalName(
                first_repeat(fts + vector_names(vectors), 0)->0,
            ),
        )
    } else if fts.len() > 0 && !has_tokenizer {
        Some(BuildErrorView::MissingTokenizer)
    } else {
        None
    }
}

/// The view of an optional error.
pub open spec fn fault_view(e: Option<BuildError>) -> Option<BuildErrorView> {
    match e {
        Some(e) => Some(e@),
        None => None,
    }
}

fn starts_with_text(s: &Vec<char>, prefix: &str) -> (r: bool)
    ensures
        r == has_prefix(s@, prefix@),
{
    let p = chars_of(prefix);
    if p.len() > s.len() {
        return false;
    }
    let mut i: usize = 0;
    while i < p.len()
        invariant
            p@ == prefix@,
            p@.len() <= s@.len(),
            i <= p@.len(),
            forall|k: int| 0 <= k < i ==> s@[k] == p@[k],
        decreases p@.len() - i,
    {
        if s[i] != p[i] {
            assert(s@.take(p@.len() as int)[i as int] != p@[i as int]);
            return false;
        }
        i = i + 1;
    }
    assert(s@.take(p@.len() as int) =~= p@);
    true
}

fn check_user_column_name(name: &str) -> (r: Option<BuildError>)
    ensures
        fault_view(r) == name_fault(name@),
{
    let chars = chars_of(name);
    let mut i: usize = 0;
    while i < chars.len()
        invariant
            chars@ == name@,
            i <= chars@.len(),
            forall|k: int| 0 <= k < i ==> chars@[k] != RESERVED_SEPARATOR,
        decreases chars@.len() - i,
    {
        if chars[i] == RESERVED_SEPARATOR {
            assert(name@[i as int] == RESERVED_SEPARATOR);
            return Some(BuildError::ReservedSeparatorInColumnName(name.to_string()));
        }
        i = i + 1;
    }
    if starts_with_text(&chars, RESERVED_PREFIX) {
        return Some(BuildError::ReservedPrefixInColumnName(name.to_string()));
    }
    None
}

fn check_fts_column(schema: &Vec<Field>, column: &String) -> (r: Option<BuildError>)
    ensures
        fault_view(r) == fts_fault(schema_view(schema@), column@),
{
    let e = check_user_column_name(column.as_str());
    if e.is_some() {
        return e;
    }
    match find_field(schema, column.as_str()) {
        None => Some(BuildError::FtsColumnMissing { column: column.clone() }),
        Some(f) => {
            if f.data_type.kind == TypeKind::LargeUtf8 {
                None
            } else {
                Some(
                    BuildError::FtsColumnMustBeLargeUtf8 {
                        column: column.clone(),
                        actual: f.data_type.name.clone(),
                    },
                )
            }
        },
    }
}

fn check_vector_column(schema: &Vec<Field>, vc: &VectorConfig) -> (r: Option<BuildError>)
    ensures
        fault_view(r) == vector_fault(schema_view(schema@), vc@),
{
    let e = check_user_column_name(vc.column.as_str());
    if e.is_some() {
        return e;
    }
    if vc.dim < VECTOR_DIM_MIN || vc.dim > VECTOR_DIM_MAX {
        return Some(BuildError::VectorDimOutOfRange { column: vc.column.clone(), dim: vc.dim });
    }
    match find_field(schema, vc.column.as_str()) {
        None => Some(BuildError::VectorColumnMissing { column: vc.column.clone() }),
        Some(f) => match f.data_type.kind {
            TypeKind::FixedSizeList { float32_items: true, list_size } => {
                let actual: usize = if list_size < 0 {
                    usize::MAX
                } else {
                    list_size as usize
                };
                if actual == vc.dim {
                    None
                } else {
                    Some(
                        BuildError::VectorColumnDimMismatch {
                            column: vc.column.clone(),
                            expected: vc.dim,
                            actual,
                        },
                    )
                }
            },
            _ => Some(
                BuildError::VectorColumnNotFixedSizeList {
                    column: vc.column.clone(),
                    dim: vc.dim,
                    actual: f.data_type.name.clone(),
                },
            ),
        },
    }
}

fn check_fts_columns(schema: &Vec<Field>, s: &Vec<FtsConfig>) -> (r: Option<BuildError>)
    ensures
        fault_view(r) == fts_faults(schema_view(schema@), fts_config_views(s@)),
{
    let ghost v = fts_config_views(s@);
    let mut i: usize = 0;
    proof {
        assert(v.skip(0) =~= v);
    }
    while i < s.len()
        invariant
            i <= s@.len(),
            v == fts_config_views(s@),
            fts_faults(schema_view(schema@), v) == fts_faults(
                schema_view(schema@),
                v.skip(i as int),
            ),
        decreases s@.len() - i,
    {
        proof {
            assert(v.skip(i as int)[0] == s@[i as int]@);
            assert(v.skip(i as int).skip(1) =~= v.skip(i as int + 1));
        }
        let e = check_fts_column(schema, &s[i].column);
        if e.is_some() {
            return e;
        }
        i = i + 1;
    }
    None
}

fn check_vector_columns(schema: &Vec<Field>, s: &Vec<VectorConfig>) -> (r: Option<BuildError>)
    ensures
        fault_view(r) == vector_faults(schema_view(schema@), vector_config_views(s@)),
{
    let ghost v = vector_config_views(s@);
    let mut i: usize = 0;
    proof {
        assert(v.skip(0) =~= v);
    }
    while i < s.len()
        invariant
            i <= s@.len(),
            v == vector_config_views(s@),
            vector_faults(schema_view(schema@), v) == vector_faults(
                schema_view(schema@),
                v.skip(i as int),
            ),
        decreases s@.len() - i,
    {
        proof {
            assert(v.skip(i as int)[0] == s@[i as int]@);
            assert(v.skip(i as int).skip(1) =~= v.skip(i as int + 1));
        }
        let e = check_vector_column(schema, &s[i]);
        if e.is_some() {
            return e;
        }
        i = i + 1;
    }
    None
}

/// The `i`-th logical name: full-text columns first.
fn logical_name<'a>(fts: &'a Vec<FtsConfig>, vectors: &'a Vec<VectorConfig>, i: u128) -> (r:
    &'a String)
    requires
        i < fts@.len() + vectors@.len(),
    ensures
        r@ == (fts_config_views(fts@) + vector_names(vector_config_views(vectors@)))[i as int],
{
    let n: u128 = fts.len() as u128;
    if i < n {
        &fts[i as usize].column
    } else {
        let m: usize = vectors.len();
        assert(i - n < m);
        &vectors[(i - n) as usize].column
    }
}

fn repeated_name(fts: &Vec<FtsConfig>, vectors: &Vec<VectorConfig>) -> (r: Option<String>)
    ensures
        match r {
            Some(s) => first_repeat(
                fts_config_views(fts@) + vector_names(vector_config_views(vectors@)),
                0,
            ) == Some(s@),
            None => first_repeat(
                fts_config_views(fts@) + vector_names(vector_config_views(vectors@)),
                0,
            ) is None,
        },
{
    let ghost names = fts_config_views(fts@) + vector_names(vector_config_views(vectors@));
    let n: u128 = fts.len() as u128 + vectors.len() as u128;
    let mut i: u128 = 0;
    while i < n
        invariant
            n == fts@.len() + vectors@.len(),
            names == fts_config_views(fts@) + vector_names(vector_config_views(vectors@)),
            names.len() == n,
            i <= n,
            first_repeat(names, 0) == first_repeat(names, i as int),
        decreases n - i,
    {
        let name = logical_name(fts, vectors, i);
        let mut j: u128 = 0;
        while j < i
            invariant
                n == fts@.len() + vectors@.len(),
                names == fts_config_views(fts@) + vector_names(vector_config_views(vectors@)),
                names.len() == n,
                i < n,
                j <= i,
                name@ == names[i as int],
                first_repeat(names, 0) == first_repeat(names, i as int),
                forall|k: int| 0 <= k < j ==> #[trigger] names[k] != name@,
            decreases i - j,
        {
            if text_eq(logical_name(fts, vectors, j).as_str(), name.as_str()) {
                proof {
                    assert(names.take(i as int)[j as int] == name@);
                }
                return Some(name.clone());
            }
            j = j + 1;
        }
        proof {
            assert(!occurs(names.take(i as int), names[i as int])) by {
                assert(forall|k: int|
                    0 <= k < i ==> #[trigger] names.take(i as int)[k] == names[k]);
            }
        }
        i = i + 1;
    }
    None
}

/// The first fault of a configuration.
fn check_config(
    schema: &Vec<Field>,
    fts: &Vec<FtsConfig>,
    vectors: &Vec<VectorConfig>,
    has_tokenizer: bool,
) -> (r: Option<BuildError>)
    ensures
        fault_view(r) == config_fault(
            schema_view(schema@),
            fts_config_views(fts@),
            vector_config_views(vectors@),
            has_tokenizer,
        ),
{
    if find_field(schema, DEFAULT_ID_COLUMN).is_some() {
        return Some(BuildError::IdColumnReserved(DEFAULT_ID_COLUMN.to_string()));
    }
    let e = check_fts_columns(schema, fts);
    if e.is_some() {
        return e;
    }
    let e = check_vector_columns(schema, vectors);
    if e.is_some() {
        return e;
    }
    if let Some(name) = repeated_name(fts, vectors) {
        return Some(BuildError::DuplicateLogicalName(name));
    }
    if fts.len() > 0 && !has_tokenizer {
        return Some(BuildError::MissingTokenizer);
    }
    None
}

// ---------------------------------------------------------------- thread counts

/// The default number of threads that read: one for each core, at least one.
pub open spec fn reader_threads_of(cores: nat) -> nat {
    if cores >= 1 {
        cores
    } else {
        1
    }
}

/// The default number of threads that write: half of the cores rounded up, at
/// least one.
pub open spec fn writer_threads_of(cores: nat) -> nat {
    if cores >= 1 {
        (cores + 1) / 2
    } else {
        1
    }
}

/// `num_cpus::get`: how many cores this machine offers. It depends on the
/// machine, so nothing is said of it.
#[verifier::external_body]
fn logical_cores() -> usize {
    num_cpus::get()
}

/// The default number of threads that read.
pub fn default_reader_thread_count(cores: usize) -> (r: usize)
    ensures
        r == reader_threads_of(cores as nat),
        r >= 1,
{
    if cores >= 1 {
        cores
    } else {
        1
    }
}

/// The default number of threads that write.
pub fn default_writer_thread_count(cores: usize) -> (r: usize)
    ensures
        r == writer_threads_of(cores as nat),
        r >= 1,
{
    if cores >= 1 {
        cores / 2 + cores % 2
    } else {
        1
    }
}

// ---------------------------------------------------------------- options

/// Everything that is needed to make a table.
#[derive(Debug)]
pub struct SupertableOptions {
    /// The columns that callers append; the id column is not among them.
    pub schema: Vec<Field>,
    pub id_column: String,
    pub fts_columns: Vec<FtsConfig>,
    pub vector_columns: Vec<VectorConfig>,
    pub has_tokenizer: bool,
    pub reader_threads: usize,
    pub writer_threads: usize,
    pub memory_budget_bytes: Option<u64>,
    pub partition_strategy: Option<PartitionStrategy>,
    /// Superfiles of a part from which on a new part is begun.
    pub target_superfiles_per_partition: u64,
    /// Compressed bytes of a part from which on a new part is begun.
    pub part_size_threshold_bytes: u64,
    /// Up to how many parts are loaded when a table is opened.
    pub eager_load_threshold_parts: u32,
    pub max_commit_retries: u32,
    /// Mebibytes of buffered rows from which on a commit is made; zero for
    /// never.
    pub commit_threshold_size_mb: u64,
    /// Bytes of a superfile from which on it is stored in pieces.
    pub put_multipart_threshold_bytes: u64,
    pub verify_crc_on_open: bool,
}

pub struct SupertableOptionsView {
    pub schema: Seq<FieldView>,
    pub id_column: Seq<char>,
    pub fts_columns: Seq<Seq<char>>,
    pub vector_columns: Seq<VectorConfigView>,
    pub has_tokenizer: bool,
    pub reader_threads: nat,
    pub writer_threads: nat,
    pub memory_budget_bytes: Option<u64>,
    pub partition_strategy: Option<PartitionStrategyView>,
    pub target_superfiles_per_partition: u64,
    pub part_size_threshold_bytes: u64,
    pub eager_load_threshold_parts: u32,
    pub max_commit_retries: u32,
    pub commit_threshold_size_mb: u64,
    pub put_multipart_threshold_bytes: u64,
    pub verify_crc_on_open: bool,
}

/// The strategy of the options: that which was set, else one partition for
/// all.
pub open spec fn effective_strategy(o: SupertableOptionsView) -> PartitionStrategyView {
    match o.partition_strategy {
        Some(s) => s,
        None => PartitionStrategyView::Hash { column: o.id_column, n_buckets: 1 },
    }
}

/// The column that a strategy goes by.
pub open spec fn strategy_column(s: PartitionStrategyView) -> Seq<char> {
    match s {
        PartitionStrategyView::TimeRange { column, .. } => column,
        PartitionStrategyView::Hash { column, .. } => column,
        PartitionStrategyView::ColumnRange { column, .. } => column,
    }
}

/// That rows have the column that the partitions go by: it is one of the schema,
/// or that of the ids.
pub open spec fn partition_column_is_there(o: SupertableOptionsView) -> bool {
    o.partition_strategy matches Some(s) ==> strategy_column(s) == o.id_column || field_named(
        o.schema,
        strategy_column(s),
    ) is Some
}

/// The view of an optional strategy.
pub open spec fn opt_strategy(s: Option<PartitionStrategy>) -> Option<PartitionStrategyView> {
    match s {
        Some(s) => Some(s@),
        None => None,
    }
}

impl View for SupertableOptions {
    type V = SupertableOptionsView;

    open spec fn view(&self) -> SupertableOptionsView {
        SupertableOptionsView {
            schema: schema_view(self.schema@),
            id_column: self.id_column@,
            fts_columns: fts_config_views(self.fts_columns@),
            vector_columns: vector_config_views(self.vector_columns@),
            has_tokenizer: self.has_tokenizer,
            reader_threads: self.reader_threads as nat,
            writer_threads: self.writer_threads as nat,
            memory_budget_bytes: self.memory_budget_bytes,
            partition_strategy: opt_strategy(self.partition_strategy),
            target_superfiles_per_partition: self.target_superfiles_per_partition,
            part_size_threshold_bytes: self.part_size_threshold_bytes,
            eager_load_threshold_parts: self.eager_load_threshold_parts,
            max_commit_retries: self.max_commit_retries,
            commit_threshold_size_mb: self.commit_threshold_size_mb,
            put_multipart_threshold_bytes: self.put_multipart_threshold_bytes,
            verify_crc_on_open: self.verify_crc_on_open,
        }
    }
}

/// A number of threads in a configuration file.
#[derive(Clone, Copy, PartialEq, Eq, Structural, Debug)]
pub enum ThreadCount {
    /// Whatever suits the machine.
    Auto,
    /// This many.
    Fixed(usize),
}

/// The number of threads that a setting stands for, at least one.
pub open spec fn threads_of(setting: ThreadCount, default: nat) -> nat {
    let n = match setting {
        ThreadCount::Auto => default,
        ThreadCount::Fixed(n) => n as nat,
    };
    if n >= 1 {
        n
    } else {
        1
    }
}

impl ThreadCount {
    /// The number of threads that the setting stands for.
    pub fn resolve_or_default(&self, default: usize) -> (r: usize)
        ensures
            r == threads_of(*self, default as nat),
    {
        let n: usize = match *self {
            ThreadCount::Auto => default,
            ThreadCount::Fixed(n) => n,
        };
        if n >= 1 {
            n
        } else {
            1
        }
    }
}

/// The table's settings in a configuration file.
#[derive(Debug)]
pub struct SupertableConfig {
    pub reader_threads: ThreadCount,
    pub writer_threads: ThreadCount,
    pub commit_threshold_size_mb: u64,
    pub verify_crc_on_open: bool,
    pub id_column: String,
}

/// What a superfile is built with.
#[derive(Debug)]
pub struct BuilderOptions {
    pub schema: Vec<Field>,
    pub id_column: String,
    pub fts_columns: Vec<FtsConfig>,
    pub vector_columns: Vec<VectorConfig>,
    pub has_tokenizer: bool,
}

/// The options of a configuration, with everything else at its default.
pub open spec fn default_options(
    schema: Seq<FieldView>,
    fts: Seq<Seq<char>>,
    vectors: Seq<VectorConfigView>,
    has_tokenizer: bool,
    cores: nat,
) -> SupertableOptionsView {
    SupertableOptionsView {
        schema,
        id_column: DEFAULT_ID_COLUMN@,
        fts_columns: fts,
        vector_columns: vectors,
        has_tokenizer,
        reader_threads: reader_threads_of(cores),
        writer_threads: writer_threads_of(cores),
        memory_budget_bytes: None,
        partition_strategy: None,
        target_superfiles_per_partition: 10_000,
        part_size_threshold_bytes: 10_485_760,
        eager_load_threshold_parts: 4,
        max_commit_retries: 10,
        commit_threshold_size_mb: 1024,
        put_multipart_threshold_bytes: 104_857_600,
        verify_crc_on_open: true,
    }
}

/// The id column.
pub open spec fn id_field(name: Seq<char>) -> FieldView {
    FieldView {
        name,
        data_type: DataTypeView {
            kind: TypeKind::Decimal128 {
                precision: DECIMAL128_PRECISION,
                scale: DECIMAL128_SCALE,
            },
            name: "Decimal128(38, 0)"@,
        },
        nullable: false,
    }
}

/// The columns whose names are not among `names`, in order.
pub open spec fn without_names(s: Seq<FieldView>, names: Seq<Seq<char>>) -> Seq<FieldView>
    decreases s.len(),
{
    if s.len() == 0 {
        Seq::empty()
    } else {
        let head = without_names(s.drop_last(), names);
        if occurs(names, s.last().name) {
            head
        } else {
            head.push(s.last())
        }
    }
}

fn make_id_field(name: &String) -> (r: Field)
    ensures
        r@ == id_field(name@),
{
    Field {
        name: name.clone(),
        data_type: DataType {
            kind: TypeKind::Decimal128 {
                precision: DECIMAL128_PRECISION,
                scale: DECIMAL128_SCALE,
            },
            name: "Decimal128(38, 0)".to_string(),
        },
        nullable: false,
    }
}

fn is_vector_name(vectors: &Vec<VectorConfig>, name: &str) -> (r: bool)
    ensures
        r == occurs(vector_names(vector_config_views(vectors@)), name@),
{
    let ghost names = vector_names(vector_config_views(vectors@));
    let mut i: usize = 0;
    while i < vectors.len()
        invariant
            i <= vectors@.len(),
            names == vector_names(vector_config_views(vectors@)),
            names.len() == vectors@.len(),
            forall|k: int| 0 <= k < i ==> #[trigger] names[k] != name@,
        decreases vectors@.len() - i,
    {
        proof {
            assert(names[i as int] == vectors@[i as int].column@);
        }
        if text_eq(vectors[i].column.as_str(), name) {
            return true;
        }
        i = i + 1;
    }
    false
}

/// A copy of the columns of a schema behind an id column.
fn schema_behind(id: &String, schema: &Vec<Field>) -> (r: Vec<Field>)
    ensures
        schema_view(r@) == seq![id_field(id@)] + schema_view(schema@),
{
    let mut out: Vec<Field> = Vec::new();
    out.push(make_id_field(id));
    let mut i: usize = 0;
    while i < schema.len()
        invariant
            i <= schema@.len(),
            out@.len() == i + 1,
            out@[0]@ == id_field(id@),
            forall|k: int| 1 <= k < i + 1 ==> (#[trigger] out@[k])@ == schema@[k - 1]@,
        decreases schema@.len() - i,
    {
        out.push(schema[i].clone());
        i = i + 1;
    }
    assert(schema_view(out@) =~= seq![id_field(id@)] + schema_view(schema@));
    out
}

fn copy_fts(s: &Vec<FtsConfig>) -> (r: Vec<FtsConfig>)
    ensures
        fts_config_views(r@) == fts_config_views(s@),
{
    let mut r: Vec<FtsConfig> = Vec::new();
    let mut i: usize = 0;
    while i < s.len()
        invariant
            i <= s@.len(),
            r@.len() == i,
            forall|k: int| 0 <= k < i ==> (#[trigger] r@[k])@ == s@[k]@,
        decreases s@.len() - i,
    {
        r.push(s[i].clone());
        i = i + 1;
    }
    assert(fts_config_views(r@) =~= fts_config_views(s@));
    r
}

fn copy_vectors(s: &Vec<VectorConfig>) -> (r: Vec<VectorConfig>)
    ensures
        vector_config_views(r@) == vector_config_views(s@),
{
    let mut r: Vec<VectorConfig> = Vec::new();
    let mut i: usize = 0;
    while i < s.len()
        invariant
            i <= s@.len(),
            r@.len() == i,
            forall|k: int| 0 <= k < i ==> (#[trigger] r@[k])@ == s@[k]@,
        decreases s@.len() - i,
    {
        r.push(s[i].clone());
        i = i + 1;
    }
    assert(vector_config_views(r@) =~= vector_config_views(s@));
    r
}

impl SupertableOptions {
    /// Check a configuration for a machine with `cores` cores.
    pub fn with_cores(
        schema: Vec<Field>,
        fts_columns: Vec<FtsConfig>,
        vector_columns: Vec<VectorConfig>,
        has_tokenizer: bool,
        cores: usize,
    ) -> (r: Result<Self, BuildError>)
        ensures
            match config_fault(
                schema_view(schema@),
                fts_config_views(fts_columns@),
                vector_config_views(vector_columns@),
                has_tokenizer,
            ) {
                Some(e) => r matches Err(f) && f@ == e,
                None => r matches Ok(o) && o@ == default_options(
                    schema_view(schema@),
                    fts_config_views(fts_columns@),
                    vector_config_views(vector_columns@),
                    has_tokenizer,
                    cores as nat,
                ),
            },
    {
        if let Some(e) = check_config(&schema, &fts_columns, &vector_columns, has_tokenizer) {
            return Err(e);
        }
        Ok(
            SupertableOptions {
                schema,
                id_column: DEFAULT_ID_COLUMN.to_string(),
                fts_columns,
                vector_columns,
                has_tokenizer,
                reader_threads: default_reader_thread_count(cores),
                writer_threads: default_writer_thread_count(cores),
                memory_budget_bytes: None,
                partition_strategy: None,
                target_superfiles_per_partition: 10_000,
                part_size_threshold_bytes: 10_485_760,
                eager_load_threshold_parts: 4,
                max_commit_retries: 10,
                commit_threshold_size_mb: 1024,
                put_multipart_threshold_bytes: 104_857_600,
                verify_crc_on_open: true,
            },
        )
    }

    /// Check a configuration. Its columns must be in the schema with the right
    /// types, no name may be reserved or be used twice, and full-text columns
    /// need a tokenizer.
    pub fn new(
        schema: Vec<Field>,
        fts_columns: Vec<FtsConfig>,
        vector_columns: Vec<VectorConfig>,
        has_tokenizer: bool,
    ) -> (r: Result<Self, BuildError>)
        ensures
            match config_fault(
                schema_view(schema@),
                fts_config_views(fts_columns@),
                vector_config_views(vector_columns@),
                has_tokenizer,
            ) {
                Some(e) => r matches Err(f) && f@ == e,
                None => r matches Ok(o) && exists|cores: nat|
                    o@ == #[trigger] default_options(
                        schema_view(schema@),
                        fts_config_views(fts_columns@),
                        vector_config_views(vector_columns@),
                        has_tokenizer,
                        cores,
                    ),
            },
    {
        let cores = logical_cores();
        Self::with_cores(schema, fts_columns, vector_columns, has_tokenizer, cores)
    }

    /// The schema that callers append by.
    pub fn user_schema(&self) -> (r: &Vec<Field>)
        ensures
            schema_view(r@) == self@.schema,
    {
        &self.schema
    }

    /// The id column and all columns of the schema.
    pub fn effective_schema(&self) -> (r: Vec<Field>)
        ensures
            schema_view(r@) == seq![id_field(self@.id_column)] + self@.schema,
    {
        schema_behind(&self.id_column, &self.schema)
    }

    /// The id column and the columns of the schema that are no vector columns.
    pub fn scalar_schema(&self) -> (r: Vec<Field>)
        ensures
            schema_view(r@) == seq![id_field(self@.id_column)] + without_names(
                self@.schema,
                vector_names(self@.vector_columns),
            ),
    {
        let ghost v = self@.schema;
        let ghost names = vector_names(self@.vector_columns);
        let mut out: Vec<Field> = Vec::new();
        out.push(make_id_field(&self.id_column));
        let mut i: usize = 0;
        proof {
            assert(v.take(0) =~= Seq::empty());
            assert(schema_view(out@) =~= seq![id_field(self@.id_column)] + without_names(
                v.take(0),
                names,
            ));
        }
        while i < self.schema.len()
            invariant
                i <= self.schema@.len(),
                v == self@.schema,
                names == vector_names(self@.vector_columns),
                schema_view(out@) == seq![id_field(self@.id_column)] + without_names(
                    v.take(i as int),
                    names,
                ),
            decreases self.schema@.len() - i,
        {
            proof {
                assert(v.take(i as int + 1).drop_last() =~= v.take(i as int));
                assert(v.take(i as int + 1).last() == self.schema@[i as int]@);
            }
            let ghost before = schema_view(out@);
            if !is_vector_name(&self.vector_columns, self.schema[i].name.as_str()) {
                let f = self.schema[i].clone();
                out.push(f);
                proof {
                    assert(schema_view(out@) =~= before.push(f@));
                    assert(schema_view(out@) =~= seq![id_field(self@.id_column)] + without_names(
                        v.take(i as int + 1),
                        names,
                    ));
                }
            }
            i = i + 1;
        }
        proof {
            assert(v.take(i as int) =~= v);
        }
        out
    }

    /// The partition strategy: one hash bucket for all unless another was set.
    pub fn effective_partition_strategy(&self) -> (r: PartitionStrategy)
        ensures
            r@ == effective_strategy(self@),
    {
        match &self.partition_strategy {
            Some(s) => s.clone(),
            None => PartitionStrategy::Hash { column: self.id_column.clone(), n_buckets: 1 },
        }
    }

    /// Another name for the id column, unless the schema has it.
    pub fn with_id_column(self, name: String) -> (r: Result<Self, BuildError>)
        ensures
            match field_named(self@.schema, name@) {
                Some(_) => r matches Err(e) && e@ == BuildErrorView::IdColumnReserved(name@),
                None => r matches Ok(o) && o@ == (SupertableOptionsView {
                    id_column: name@,
                    ..self@
                }),
            },
    {
        if find_field(&self.schema, name.as_str()).is_some() {
            return Err(BuildError::IdColumnReserved(name));
        }
        let mut this = self;
        this.id_column = name;
        Ok(this)
    }

    pub fn with_memory_budget(self, budget_bytes: u64) -> (r: Self)
        ensures
            r@ == (SupertableOptionsView { memory_budget_bytes: Some(budget_bytes), ..self@ }),
    {
        let mut this = self;
        this.memory_budget_bytes = Some(budget_bytes);
        this
    }

    /// Checks, before a table is made, that rows have the column that the
    /// partitions go by.
    pub fn check_partition_column(&self) -> (r: Result<(), BuildError>)
        ensures
            r is Ok <==> partition_column_is_there(self@),
            r matches Err(e) ==> e@ == BuildErrorView::PartitionColumnMissing(
                strategy_column(self@.partition_strategy->0),
            ),
    {
        match &self.partition_strategy {
            None => Ok(()),
            Some(s) => {
                let column: &String = match s {
                    PartitionStrategy::TimeRange { column, .. } => column,
                    PartitionStrategy::Hash { column, .. } => column,
                    PartitionStrategy::ColumnRange { column, .. } => column,
                };
                if text_eq(column.as_str(), self.id_column.as_str()) {
                    return Ok(());
                }
                match find_field(&self.schema, column.as_str()) {
                    Some(_) => Ok(()),
                    None => Err(BuildError::PartitionColumnMissing(column.clone())),
                }
            },
        }
    }

    pub fn with_partition_strategy(self, strategy: PartitionStrategy) -> (r: Self)
        ensures
            r@ == (SupertableOptionsView { partition_strategy: Some(strategy@), ..self@ }),
    {
        let mut this = self;
        this.partition_strategy = Some(strategy);
        this
    }

    pub fn with_target_superfiles_per_partition(self, n: u64) -> (r: Self)
        ensures
            r@ == (SupertableOptionsView { target_superfiles_per_partition: n, ..self@ }),
    {
        let mut this = self;
        this.target_superfiles_per_partition = n;
        this
    }

    pub fn with_part_size_threshold_bytes(self, n: u64) -> (r: Self)
        ensures
            r@ == (SupertableOptionsView { part_size_threshold_bytes: n, ..self@ }),
    {
        let mut this = self;
        this.part_size_threshold_bytes = n;
        this
    }

    pub fn with_eager_load_threshold(self, n: u32) -> (r: Self)
        ensures
            r@ == (SupertableOptionsView { eager_load_threshold_parts: n, ..self@ }),
    {
        let mut this = self;
        this.eager_load_threshold_parts = n;
        this
    }

    pub fn with_max_commit_retries(self, n: u32) -> (r: Self)
        ensures
            r@ == (SupertableOptionsView { max_commit_retries: n, ..self@ }),
    {
        let mut this = self;
        this.max_commit_retries = n;
        this
    }

    pub fn with_commit_threshold_size_mb(self, mb: u64) -> (r: Self)
        ensures
            r@ == (SupertableOptionsView { commit_threshold_size_mb: mb, ..self@ }),
    {
        let mut this = self;
        this.commit_threshold_size_mb = mb;
        this
    }

    pub fn with_put_multipart_threshold_bytes(self, n: u64) -> (r: Self)
        ensures
            r@ == (SupertableOptionsView { put_multipart_threshold_bytes: n, ..self@ }),
    {
        let mut this = self;
        this.put_multipart_threshold_bytes = n;
        this
    }

    pub fn with_verify_crc_on_open(self, v: bool) -> (r: Self)
        ensures
            r@ == (SupertableOptionsView { verify_crc_on_open: v, ..self@ }),
    {
        let mut this = self;
        this.verify_crc_on_open = v;
        this
    }

    /// The options with the settings of a configuration file, for a machine
    /// with `cores` cores.
    pub fn apply_config_on(self, cfg: &SupertableConfig, cores: usize) -> (r: Result<
        Self,
        BuildError,
    >)
        ensures
            if cfg.id_column@ != self@.id_column && field_named(self@.schema, cfg.id_column@)
                is Some {
                r matches Err(e) && e@ == BuildErrorView::IdColumnReserved(cfg.id_column@)
            } else {
                r matches Ok(o) && o@ == configured(self@, *cfg, cores as nat)
            },
    {
        if !text_eq(cfg.id_column.as_str(), self.id_column.as_str()) && find_field(
            &self.schema,
            cfg.id_column.as_str(),
        ).is_some() {
            return Err(BuildError::IdColumnReserved(cfg.id_column.clone()));
        }
        let mut this = self;
        this.reader_threads = cfg.reader_threads.resolve_or_default(
            default_reader_thread_count(cores),
        );
        this.writer_threads = cfg.writer_threads.resolve_or_default(
            default_writer_thread_count(cores),
        );
        this.commit_threshold_size_mb = cfg.commit_threshold_size_mb;
        this.verify_crc_on_open = cfg.verify_crc_on_open;
        this.id_column = cfg.id_column.clone();
        Ok(this)
    }

    /// The options with the settings of a configuration file.
    pub fn apply_config(self, cfg: &SupertableConfig) -> (r: Result<Self, BuildError>)
        ensures
            if cfg.id_column@ != self@.id_column && field_named(self@.schema, cfg.id_column@)
                is Some {
                r matches Err(e) && e@ == BuildErrorView::IdColumnReserved(cfg.id_column@)
            } else {
                r matches Ok(o) && exists|cores: nat| o@ == #[trigger] configured(self@, *cfg, cores)
            },
    {
        let cores = logical_cores();
        self.apply_config_on(cfg, cores)
    }

    /// What the superfiles of the table are built with.
    pub fn builder_options(&self) -> (r: BuilderOptions)
        ensures
            schema_view(r.schema@) == seq![id_field(self@.id_column)] + without_names(
                self@.schema,
                vector_names(self@.vector_columns),
            ),
            r.id_column@ == self@.id_column,
            fts_config_views(r.fts_columns@) == self@.fts_columns,
            vector_config_views(r.vector_columns@) == self@.vector_columns,
            r.has_tokenizer == self@.has_tokenizer,
    {
        BuilderOptions {
            schema: self.scalar_schema(),
            id_column: self.id_column.clone(),
            fts_columns: copy_fts(&self.fts_columns),
            vector_columns: copy_vectors(&self.vector_columns),
            has_tokenizer: self.has_tokenizer,
        }
    }
}

/// Options with the settings of a configuration file.
pub open spec fn configured(
    o: SupertableOptionsView,
    cfg: SupertableConfig,
    cores: nat,
) -> SupertableOptionsView {
    SupertableOptionsView {
        reader_threads: threads_of(cfg.reader_threads, reader_threads_of(cores)),
        writer_threads: threads_of(cfg.writer_threads, writer_threads_of(cores)),
        commit_threshold_size_mb: cfg.commit_threshold_size_mb,
        verify_crc_on_open: cfg.verify_crc_on_open,
        id_column: cfg.id_column@,
        ..o
    }
}

// ---------------------------------------------------------------- laws

/// That the column at a place is the first of the name.
pub open spec fn first_at(s: Seq<FieldView>, name: Seq<char>, i: int) -> bool {
    &&& 0 <= i < s.len()
    &&& s[i].name == name
    &&& forall|j: int| 0 <= j < i ==> (#[trigger] s[j]).name != name
}

/// A column is found by its name where there is one, and it is the first.
pub proof fn columns_are_found_by_name(s: Seq<FieldView>, name: Seq<char>)
    ensures
        field_named(s, name) is None <==> forall|i: int|
            0 <= i < s.len() ==> (#[trigger] s[i]).name != name,
        field_named(s, name) matches Some(f) ==> exists|i: int| #[trigger]
            first_at(s, name, i) && s[i] == f,
    decreases s.len(),
{
    if s.len() > 0 {
        if s[0].name == name {
            assert(first_at(s, name, 0));
        } else {
            let rest = s.skip(1);
            columns_are_found_by_name(rest, name);
            assert forall|i: int| 0 <= i < rest.len() implies #[trigger] rest[i] == s[i + 1] by {}
            match field_named(rest, name) {
                Some(f) => {
                    let i = choose|i: int| #[trigger] first_at(rest, name, i) && rest[i] == f;
                    assert forall|j: int| 0 <= j < i + 1 implies (#[trigger] s[j]).name != name by {
                        if j > 0 {
                            assert(rest[j - 1].name != name);
                        }
                    }
                    assert(first_at(s, name, i + 1));
                },
                None => {
                    assert forall|i: int| 0 <= i < s.len() implies (#[trigger] s[i]).name != name by {
                        if i > 0 {
                            assert(rest[i - 1].name != name);
                        }
                    }
                },
            }
        }
    }
}

/// That a name begins with `inf.`, as those that the library gives do.
pub open spec fn begins_as_reserved(name: Seq<char>) -> bool {
    name.len() >= 4 && name[0] == 'i' && name[1] == 'n' && name[2] == 'f' && name[3] == '.'
}

/// That a name is free for a column: no unit separator stands in it, and it does
/// not begin with `inf.`.
pub open spec fn name_is_free(name: Seq<char>) -> bool {
    !name.contains('\u{1F}') && !begins_as_reserved(name)
}

/// That a name stands for a full-text column: the first column of the name holds
/// large texts.
pub open spec fn is_text_column(schema: Seq<FieldView>, name: Seq<char>) -> bool {
    name_is_free(name) && exists|i: int| #[trigger]
        first_at(schema, name, i) && schema[i].data_type.kind is LargeUtf8
}

/// That a configuration stands for a vector column: the first column of the name
/// holds lists of as many 32-bit floats as the vectors have.
pub open spec fn is_vector_column(schema: Seq<FieldView>, vc: VectorConfigView) -> bool {
    &&& name_is_free(vc.column)
    &&& 16 <= vc.dim <= 4096
    &&& exists|i: int| #[trigger]
        first_at(schema, vc.column, i) && schema[i].data_type.kind
            == (TypeKind::FixedSizeList { float32_items: true, list_size: vc.dim as i32 })
}

proof fn lemma_name_fault(name: Seq<char>)
    ensures
        name_fault(name) is None <==> name_is_free(name),
        has_prefix(name, RESERVED_PREFIX@) == begins_as_reserved(name),
{
    reveal_strlit("inf.");
    let p = RESERVED_PREFIX@;
    if p.len() <= name.len() {
        let t = name.take(4);
        assert(t[0] == name[0] && t[1] == name[1] && t[2] == name[2] && t[3] == name[3]);
        if begins_as_reserved(name) {
            assert(t =~= p);
        }
    }
}

proof fn lemma_first_is_one(s: Seq<FieldView>, name: Seq<char>, i: int, j: int)
    requires
        first_at(s, name, i),
        first_at(s, name, j),
    ensures
        i == j,
{
}

proof fn lemma_fts_fault(schema: Seq<FieldView>, name: Seq<char>)
    ensures
        fts_fault(schema, name) is None <==> is_text_column(schema, name),
{
    lemma_name_fault(name);
    columns_are_found_by_name(schema, name);
    match field_named(schema, name) {
        Some(f) => {
            let i = choose|i: int| #[trigger] first_at(schema, name, i) && schema[i] == f;
            assert(first_at(schema, name, i));
            if is_text_column(schema, name) {
                let j = choose|j: int| #[trigger]
                    first_at(schema, name, j) && schema[j].data_type.kind is LargeUtf8;
                lemma_first_is_one(schema, name, i, j);
            }
        },
        None => {},
    }
}

proof fn lemma_vector_fault(schema: Seq<FieldView>, vc: VectorConfigView)
    ensures
        vector_fault(schema, vc) is None <==> is_vector_column(schema, vc),
{
    lemma_name_fault(vc.column);
    columns_are_found_by_name(schema, vc.column);
    match field_named(schema, vc.column) {
        Some(f) => {
            let i = choose|i: int| #[trigger] first_at(schema, vc.column, i) && schema[i] == f;
            assert(first_at(schema, vc.column, i));
            if is_vector_column(schema, vc) {
                let j = choose|j: int| #[trigger]
                    first_at(schema, vc.column, j) && schema[j].data_type.kind
                        == (TypeKind::FixedSizeList {
                        float32_items: true,
                        list_size: vc.dim as i32,
                    });
                lemma_first_is_one(schema, vc.column, i, j);
            }
        },
        None => {},
    }
}

proof fn lemma_fts_faults(schema: Seq<FieldView>, s: Seq<Seq<char>>)
    ensures
        fts_faults(schema, s) is None <==> forall|i: int|
            0 <= i < s.len() ==> is_text_column(schema, #[trigger] s[i]),
    decreases s.len(),
{
    if s.len() > 0 {
        lemma_fts_fault(schema, s[0]);
        lemma_fts_faults(schema, s.skip(1));
        assert forall|i: int| 0 <= i < s.len() - 1 implies #[trigger] s.skip(1)[i] == s[i + 1] by {}
        if fts_faults(schema, s) is None {
            assert forall|i: int| 0 <= i < s.len() implies is_text_column(
                schema,
                #[trigger] s[i],
            ) by {
                if i > 0 {
                    assert(is_text_column(schema, s.skip(1)[i - 1]));
                }
            }
        }
    }
}

proof fn lemma_vector_faults(schema: Seq<FieldView>, s: Seq<VectorConfigView>)
    ensures
        vector_faults(schema, s) is None <==> forall|i: int|
            0 <= i < s.len() ==> is_vector_column(schema, #[trigger] s[i]),
    decreases s.len(),
{
    if s.len() > 0 {
        lemma_vector_fault(schema, s[0]);
        lemma_vector_faults(schema, s.skip(1));
        assert forall|i: int| 0 <= i < s.len() - 1 implies #[trigger] s.skip(1)[i] == s[i + 1] by {}
        if vector_faults(schema, s) is None {
            assert forall|i: int| 0 <= i < s.len() implies is_vector_column(
                schema,
                #[trigger] s[i],
            ) by {
                if i > 0 {
                    assert(is_vector_column(schema, s.skip(1)[i - 1]));
                }
            }
        }
    }
}

proof fn lemma_first_repeat(names: Seq<Seq<char>>, from: int)
    requires
        0 <= from <= names.len(),
    ensures
        first_repeat(names, from) is None <==> forall|i: int, j: int|
            0 <= i < j < names.len() && from <= j ==> #[trigger] names[i] != #[trigger] names[j],
    decreases names.len() - from,
{
    if from < names.len() {
        lemma_first_repeat(names, from + 1);
        let front = names.take(from);
        if occurs(front, names[from]) {
            let i = choose|i: int| 0 <= i < front.len() && #[trigger] front[i] == names[from];
            assert(names[i] == names[from]);
        } else {
            assert forall|i: int| 0 <= i < from implies names[i] != names[from] by {
                assert(front[i] == names[i]);
            }
        }
    }
}

/// A configuration is accepted just where no column has the name of the ids,
/// every full-text column holds large texts, every vector column lists of as
/// many floats as it says, no name stands for two columns, and a tokenizer is
/// there where there are texts.
pub proof fn sound_configurations_are_accepted(
    schema: Seq<FieldView>,
    fts: Seq<Seq<char>>,
    vectors: Seq<VectorConfigView>,
    has_tokenizer: bool,
)
    ensures
        config_fault(schema, fts, vectors, has_tokenizer) is None <==> {
            let names = fts + Seq::new(vectors.len(), |i: int| vectors[i].column);
            &&& forall|i: int| 0 <= i < schema.len() ==> (#[trigger] schema[i]).name != "_id"@
            &&& forall|i: int| 0 <= i < fts.len() ==> is_text_column(schema, #[trigger] fts[i])
            &&& forall|i: int|
                0 <= i < vectors.len() ==> is_vector_column(schema, #[trigger] vectors[i])
            &&& forall|i: int, j: int|
                0 <= i < j < names.len() ==> #[trigger] names[i] != #[trigger] names[j]
            &&& fts.len() > 0 ==> has_tokenizer
        },
{
    columns_are_found_by_name(schema, DEFAULT_ID_COLUMN@);
    lemma_fts_faults(schema, fts);
    lemma_vector_faults(schema, vectors);
    lemma_first_repeat(fts + vector_names(vectors), 0);
    assert(vector_names(vectors) =~= Seq::new(vectors.len(), |i: int| vectors[i].column));
}

/// The scalar columns are those whose names stand for no vectors, in their
/// order.
pub proof fn other_columns_are_left(s: Seq<FieldView>, names: Seq<Seq<char>>)
    ensures
        without_names(s, names) == s.filter(|f: FieldView| !names.contains(f.name)),
    decreases s.len(),
{
    reveal(Seq::filter);
    if s.len() > 0 {
        other_columns_are_left(s.drop_last(), names);
        let name = s.last().name;
        if occurs(names, name) {
            let i = choose|i: int| 0 <= i < names.len() && #[trigger] names[i] == name;
            assert(names.contains(name));
        } else if names.contains(name) {
            let i = choose|i: int| 0 <= i < names.len() && names[i] == name;
            assert(names[i] == name);
        }
    } else {
        assert(without_names(s, names) =~= s);
    }
}

/// There is always a thread to read and one to write: as many as there are cores
/// to read, and half of them to write, but for a fraction.
pub proof fn threads_follow_cores(cores: nat, setting: ThreadCount, default: nat)
    ensures
        reader_threads_of(cores) >= 1 && writer_threads_of(cores) >= 1,
        cores >= 1 ==> reader_threads_of(cores) == cores,
        cores >= 1 ==> cores <= 2 * writer_threads_of(cores) <= cores + 1,
        threads_of(setting, default) >= 1,
        setting matches ThreadCount::Fixed(n) ==> (n >= 1 ==> threads_of(setting, default) == n),
        setting is Auto && default >= 1 ==> threads_of(setting, default) == default,
{
}

/// Metrics have different names.
pub proof fn metrics_have_their_names(a: Metric, b: Metric)
    ensures
        metric_name(a) == metric_name(b) <==> a == b,
{
    reveal_strlit("cosine");
    reveal_strlit("l2sq");
    reveal_strlit("negdot");
    assert("cosine"@.len() == 6 && "negdot"@.len() == 6 && "l2sq"@.len() == 4);
    assert("cosine"@[0] != "negdot"@[0]);
}

/// What is told of a text column that cannot be: a unit separator in its name,
/// else a reserved beginning, else that there is no such column, else the type
/// that it has.
pub proof fn faults_of_text_columns_are_told(schema: Seq<FieldView>, name: Seq<char>, i: int)
    ensures
        name.contains('\u{1F}') ==> fts_fault(schema, name) == Some(
            BuildErrorView::ReservedSeparatorInColumnName(name),
        ),
        !name.contains('\u{1F}') && begins_as_reserved(name) ==> fts_fault(schema, name) == Some(
            BuildErrorView::ReservedPrefixInColumnName(name),
        ),
        name_is_free(name) && (forall|j: int|
            0 <= j < schema.len() ==> (#[trigger] schema[j]).name != name) ==> fts_fault(
            schema,
            name,
        ) == Some(BuildErrorView::FtsColumnMissing { column: name }),
        name_is_free(name) && first_at(schema, name, i) && !(schema[i].data_type.kind is LargeUtf8)
            ==> fts_fault(schema, name) == Some(
            BuildErrorView::FtsColumnMustBeLargeUtf8 {
                column: name,
                actual: schema[i].data_type.name,
            },
        ),
{
    lemma_name_fault(name);
    columns_are_found_by_name(schema, name);
    if field_named(schema, name) is Some {
        let j = choose|j: int| #[trigger]
            first_at(schema, name, j) && schema[j] == field_named(schema, name)->0;
        if first_at(schema, name, i) {
            lemma_first_is_one(schema, name, i, j);
        }
    }
}

/// What is told of a vector column that cannot be: what is wrong with its name,
/// else that no vectors have so many coordinates, else that there is no such
/// column, else the type or the number of coordinates that it has.
pub proof fn faults_of_vector_columns_are_told(schema: Seq<FieldView>, vc: VectorConfigView, i: int)
    ensures
        vc.column.contains('\u{1F}') ==> vector_fault(schema, vc) == Some(
            BuildErrorView::ReservedSeparatorInColumnName(vc.column),
        ),
        !vc.column.contains('\u{1F}') && begins_as_reserved(vc.column) ==> vector_fault(schema, vc)
            == Some(BuildErrorView::ReservedPrefixInColumnName(vc.column)),
        name_is_free(vc.column) && !(16 <= vc.dim <= 4096) ==> vector_fault(schema, vc) == Some(
            BuildErrorView::VectorDimOutOfRange { column: vc.column, dim: vc.dim },
        ),
        name_is_free(vc.column) && 16 <= vc.dim <= 4096 && (forall|j: int|
            0 <= j < schema.len() ==> (#[trigger] schema[j]).name != vc.column) ==> vector_fault(
            schema,
            vc,
        ) == Some(BuildErrorView::VectorColumnMissing { column: vc.column }),
        name_is_free(vc.column) && 16 <= vc.dim <= 4096 && first_at(schema, vc.column, i) ==> match (
        schema[i].data_type.kind) {
            TypeKind::FixedSizeList { float32_items: true, list_size } => list_size >= 0
                && list_size != vc.dim ==> vector_fault(schema, vc) == Some(
                BuildErrorView::VectorColumnDimMismatch {
                    column: vc.column,
                    expected: vc.dim,
                    actual: list_size as usize,
                },
            ),
            _ => vector_fault(schema, vc) == Some(
                BuildErrorView::VectorColumnNotFixedSizeList {
                    column: vc.column,
                    dim: vc.dim,
                    actual: schema[i].data_type.name,
                },
            ),
        },
{
    lemma_name_fault(vc.column);
    columns_are_found_by_name(schema, vc.column);
    if field_named(schema, vc.column) is Some {
        let j = choose|j: int| #[trigger]
            first_at(schema, vc.column, j) && schema[j] == field_named(schema, vc.column)->0;
        if first_at(schema, vc.column, i) {
            lemma_first_is_one(schema, vc.column, i, j);
        }
    }
}

proof fn lemma_first_text_fault(schema: Seq<FieldView>, s: Seq<Seq<char>>, i: int)
    requires
        0 <= i < s.len(),
        forall|j: int| 0 <= j < i ==> is_text_column(schema, #[trigger] s[j]),
        !is_text_column(schema, s[i]),
    ensures
        fts_faults(schema, s) == fts_fault(schema, s[i]),
        fts_faults(schema, s) is Some,
    decreases s.len(),
{
    lemma_fts_fault(schema, s[0]);
    if i > 0 {
        assert(is_text_column(schema, s[0]));
        let rest = s.skip(1);
        assert forall|j: int| 0 <= j < i - 1 implies is_text_column(schema, #[trigger] rest[j]) by {
            assert(rest[j] == s[j + 1]);
        }
        assert(rest[i - 1] == s[i]);
        lemma_first_text_fault(schema, rest, i - 1);
    }
}

proof fn lemma_first_vector_fault(schema: Seq<FieldView>, s: Seq<VectorConfigView>, i: int)
    requires
        0 <= i < s.len(),
        forall|j: int| 0 <= j < i ==> is_vector_column(schema, #[trigger] s[j]),
        !is_vector_column(schema, s[i]),
    ensures
        vector_faults(schema, s) == vector_fault(schema, s[i]),
        vector_faults(schema, s) is Some,
    decreases s.len(),
{
    lemma_vector_fault(schema, s[0]);
    if i > 0 {
        assert(is_vector_column(schema, s[0]));
        let rest = s.skip(1);
        assert forall|j: int| 0 <= j < i - 1 implies is_vector_column(
            schema,
            #[trigger] rest[j],
        ) by {
            assert(rest[j] == s[j + 1]);
        }
        assert(rest[i - 1] == s[i]);
        lemma_first_vector_fault(schema, rest, i - 1);
    }
}

/// Of several faults of a configuration the first is told: a column with the
/// name of the ids, then the text columns in order, then the vector columns in
/// order.
pub proof fn first_faults_are_told(
    schema: Seq<FieldView>,
    fts: Seq<Seq<char>>,
    vectors: Seq<VectorConfigView>,
    has_tokenizer: bool,
    i: int,
)
    ensures
        (exists|j: int| 0 <= j < schema.len() && (#[trigger] schema[j]).name == "_id"@)
            ==> config_fault(schema, fts, vectors, has_tokenizer) == Some(
            BuildErrorView::IdColumnReserved("_id"@),
        ),
        (forall|j: int| 0 <= j < schema.len() ==> (#[trigger] schema[j]).name != "_id"@) && 0 <= i
            < fts.len() && (forall|j: int|
            0 <= j < i ==> is_text_column(schema, #[trigger] fts[j])) && !is_text_column(
            schema,
            fts[i],
        ) ==> config_fault(schema, fts, vectors, has_tokenizer) == fts_fault(schema, fts[i]),
        (forall|j: int| 0 <= j < schema.len() ==> (#[trigger] schema[j]).name != "_id"@) && (forall|
            j: int,
        |
            0 <= j < fts.len() ==> is_text_column(schema, #[trigger] fts[j])) && 0 <= i
            < vectors.len() && (forall|j: int|
            0 <= j < i ==> is_vector_column(schema, #[trigger] vectors[j])) && !is_vector_column(
            schema,
            vectors[i],
        ) ==> config_fault(schema, fts, vectors, has_tokenizer) == vector_fault(schema, vectors[i]),
{
    columns_are_found_by_name(schema, "_id"@);
    lemma_fts_faults(schema, fts);
    if 0 <= i < fts.len() && (forall|j: int|
        0 <= j < i ==> is_text_column(schema, #[trigger] fts[j])) && !is_text_column(
        schema,
        fts[i],
    ) {
        lemma_first_text_fault(schema, fts, i);
    }
    if 0 <= i < vectors.len() && (forall|j: int|
        0 <= j < i ==> is_vector_column(schema, #[trigger] vectors[j])) && !is_vector_column(
        schema,
        vectors[i],
    ) {
        lemma_first_vector_fault(schema, vectors, i);
    }
}

/// A name that stands for two columns is told where its second place is the
/// first such, once every column is sound by itself; texts without a tokenizer
/// are told last.
pub proof fn repeated_names_are_told(
    schema: Seq<FieldView>,
    fts: Seq<Seq<char>>,
    vectors: Seq<VectorConfigView>,
    has_tokenizer: bool,
    i: int,
    j: int,
)
    requires
        forall|k: int| 0 <= k < schema.len() ==> (#[trigger] schema[k]).name != "_id"@,
        forall|k: int| 0 <= k < fts.len() ==> is_text_column(schema, #[trigger] fts[k]),
        forall|k: int| 0 <= k < vectors.len() ==> is_vector_column(schema, #[trigger] vectors[k]),
    ensures
        ({
            let names = fts + Seq::new(vectors.len(), |k: int| vectors[k].column);
            &&& 0 <= i < j < names.len() && names[i] == names[j] && (forall|k: int, l: int|
                0 <= k < l < j ==> #[trigger] names[k] != #[trigger] names[l]) ==> config_fault(
                schema,
                fts,
                vectors,
                has_tokenizer,
            ) == Some(BuildErrorView::DuplicateLogicalName(names[j]))
            &&& (forall|k: int, l: int|
                0 <= k < l < names.len() ==> #[trigger] names[k] != #[trigger] names[l])
                && fts.len() > 0 && !has_tokenizer ==> config_fault(
                schema,
                fts,
                vectors,
                has_tokenizer,
            ) == Some(BuildErrorView::MissingTokenizer)
        }),
{
    let names = fts + vector_names(vectors);
    columns_are_found_by_name(schema, "_id"@);
    lemma_fts_faults(schema, fts);
    lemma_vector_faults(schema, vectors);
    lemma_first_repeat(names, 0);
    assert(vector_names(vectors) =~= Seq::new(vectors.len(), |k: int| vectors[k].column));
    if 0 <= i < j < names.len() && names[i] == names[j] && (forall|k: int, l: int|
        0 <= k < l < j ==> #[trigger] names[k] != #[trigger] names[l]) {
        lemma_repeat_at(names, 0, i, j);
    }
}

proof fn lemma_repeat_at(names: Seq<Seq<char>>, from: int, i: int, j: int)
    requires
        0 <= from <= j,
        0 <= i < j < names.len(),
        names[i] == names[j],
        forall|k: int, l: int| 0 <= k < l < j ==> #[trigger] names[k] != #[trigger] names[l],
    ensures
        first_repeat(names, from) == Some(names[j]),
    decreases j - from,
{
    let front = names.take(from);
    if from < j {
        assert(!occurs(front, names[from])) by {
            if occurs(front, names[from]) {
                let k = choose|k: int| 0 <= k < front.len() && #[trigger] front[k] == names[from];
                assert(names[k] != names[from]);
            }
        }
        lemma_repeat_at(names, from + 1, i, j);
    } else {
        assert(front[i] == names[j]);
    }
}

} // verus!
