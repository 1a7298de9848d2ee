//! The parts and the list that a commit writes.

use std::sync::Arc;
use vstd::prelude::*;

use crate::column_map::{lookup, ColumnMap};
use crate::ids::is_v4;
use crate::manifest::aggregates::{
    compute, fts_agg, greatest_id, id_range_covers, least_id, scalar_agg,
};
use crate::manifest::avro::{avro_written, part_readable};
use crate::manifest::commit::{part_uri_text, prepare_manifest_part};
use crate::manifest::entry::{SuperfileEntry, SuperfileEntryView};
use crate::manifest::list::{
    fts_views, part_views, vector_views, FtsColumnInfo, ManifestList, ManifestListEntry,
    ManifestListEntryView, ManifestListView, PartitionStrategy, PartitionStrategyView,
    VectorColumnInfo, VectorColumnInfoView, VectorSummaryAgg, VectorSummaryAggView,
    FORMAT_VERSION as LIST_FORMAT_VERSION,
};
use crate::manifest::list_prune::{
    between, ids_meet, ids_meet_in_a_common_id, part_has_prefix, part_has_terms,
    prefix_pruning_is_monotone, term_pruning_is_monotone, BoolMode,
};
use crate::manifest::options_hash::{compute_options_hash, key_preimage, options_key};
use crate::error::StorageError;
use crate::manifest::snapshot::{loaded_as, ManifestLoadError};
use crate::manifest::part::{
    blake3_digest, entry_views, part_bytes, part_datum, reads_back, ManifestPart, ManifestPartView,
    PartId, FORMAT_VERSION as PART_FORMAT_VERSION,
};
use crate::options::{effective_strategy, metric_name, SupertableOptions, SupertableOptionsView, VectorConfigView};
use crate::query::skip::{may_have_prefix, may_have_terms};
use crate::writer::plan::{builds, keeps_within, step_views, Step, StepView};

verus! {

/// How hard parts are compressed.
pub const ZSTD_LEVEL: i32 = 3;

/// That the part has these superfiles, and the entry describes the part.
#[verifier::opaque]
pub open spec fn built(
    entry: ManifestListEntryView,
    part: ManifestPartView,
    superfiles: Seq<SuperfileEntryView>,
    key: Seq<u8>,
    vector_aggs: Seq<(Seq<char>, VectorSummaryAggView)>,
) -> bool {
    let bytes = part_bytes(part, ZSTD_LEVEL);
    &&& part.format_version == PART_FORMAT_VERSION@
    &&& is_v4(part.part_id.0)
    &&& part.superfiles == superfiles
    &&& entry.part_id == part.part_id
    &&& entry.uri == part_uri_text(blake3_digest(bytes))
    &&& entry.n_superfiles == superfiles.len()
    &&& entry.size_bytes_compressed == bytes.len()
    &&& entry.size_bytes_uncompressed == avro_written(part_datum(part)).len()
    &&& entry.content_hash == blake3_digest(bytes)
    &&& entry.partition_key == key
    &&& aggregated(entry, superfiles, vector_aggs)
    &&& reads_back(part, bytes)
}

/// That the summaries of the entry are those of the superfiles.
pub open spec fn aggregated(
    entry: ManifestListEntryView,
    s: Seq<SuperfileEntryView>,
    vector_aggs: Seq<(Seq<char>, VectorSummaryAggView)>,
) -> bool {
    if s.len() == 0 {
        &&& entry.id_range == (0i128, 0i128)
        &&& entry.scalar_stats_agg.len() == 0
        &&& entry.fts_summary_agg.len() == 0
        &&& entry.vector_summary_agg.len() == 0
    } else {
        &&& entry.id_range == (least_id(s), greatest_id(s))
        &&& forall|c: Seq<char>| #[trigger] lookup(entry.scalar_stats_agg, c) == scalar_agg(s, c)
        &&& forall|c: Seq<char>| #[trigger] lookup(entry.fts_summary_agg, c) == fts_agg(s, c)
        &&& entry.vector_summary_agg == vector_aggs
    }
}

/// A part with these superfiles, and the entry that describes it. The spheres
/// of its vector columns are `vector_aggs`.
pub fn build_part_and_entry(
    superfiles: Vec<Arc<SuperfileEntry>>,
    partition_key: Vec<u8>,
    vector_aggs: ColumnMap<VectorSummaryAgg>,
) -> (r: (ManifestListEntry, ManifestPart))
    ensures
        built(
            r.0@,
            r.1@,
            entry_views(superfiles@),
            partition_key@,
            vector_aggs@,
        ),
        r.1.superfiles@ == superfiles@,
{
    let n: usize = superfiles.len();
    let part = ManifestPart {
        format_version: PART_FORMAT_VERSION.to_string(),
        part_id: PartId::new_v4(),
        superfiles,
    };
    let (w, _bytes) = prepare_manifest_part(&part, ZSTD_LEVEL);
    let aggregates = compute(part.superfiles.as_slice(), vector_aggs);
    let entry = ManifestListEntry {
        part_id: part.part_id,
        uri: w.uri,
        n_superfiles: n as u64,
        size_bytes_compressed: w.size_bytes_compressed,
        size_bytes_uncompressed: w.size_bytes_uncompressed,
        content_hash: w.content_hash,
        partition_key,
        id_range: aggregates.id_range,
        scalar_stats_agg: aggregates.scalar_stats_agg,
        fts_summary_agg: aggregates.fts_summary_agg,
        vector_summary_agg: aggregates.vector_summary_agg,
    };
    proof {
        reveal(built);
    }
    (entry, part)
}

/// That the entry is the one that the step asks for. `built_before` parts are
/// built by the steps before it.
pub open spec fn carried_out(
    step: StepView,
    entry: ManifestListEntryView,
    built_before: nat,
    old: Seq<ManifestListEntryView>,
    parts: Seq<ManifestPart>,
    vector_aggs: Seq<ColumnMap<VectorSummaryAgg>>,
) -> bool {
    match step {
        StepView::Keep(i) => entry == old[i],
        StepView::Build { key, superfiles } => built(
            entry,
            parts[built_before as int]@,
            superfiles,
            key,
            vector_aggs[built_before as int]@,
        ),
    }
}

/// The entries that the steps ask for, and the parts that are to be written.
/// `vector_aggs` are the spheres of the parts that are built, in their order.
pub fn assemble(
    old: &[ManifestListEntry],
    steps: Vec<Step>,
    vector_aggs: Vec<ColumnMap<VectorSummaryAgg>>,
) -> (r: (Vec<ManifestListEntry>, Vec<ManifestPart>))
    requires
        keeps_within(steps@, old@.len()),
        vector_aggs@.len() == builds(step_views(steps@)),
    ensures
        r.0@.len() == steps@.len(),
        r.1@.len() == builds(step_views(steps@)),
        forall|k: int|
            0 <= k < steps@.len() ==> carried_out(
                (#[trigger] steps@[k])@,
                r.0@[k]@,
                builds(step_views(steps@).take(k)),
                part_views(old@),
                r.1@,
                vector_aggs@,
            ),
{
    let ghost v = part_views(old@);
    let ghost s = step_views(steps@);
    let ghost all_steps = steps@;
    let ghost aggs = vector_aggs@;
    let mut entries: Vec<ManifestListEntry> = Vec::new();
    let mut parts: Vec<ManifestPart> = Vec::new();
    let mut rest = steps;
    let mut rest_aggs = vector_aggs;
    proof {
        assert(all_steps.skip(0) =~= all_steps);
        assert(aggs.skip(0) =~= aggs);
    }
    while rest.len() > 0
        invariant
            v == part_views(old@),
            s == step_views(all_steps),
            entries@.len() + rest@.len() == all_steps.len(),
            rest@ == all_steps.skip(entries@.len() as int),
            parts@.len() == builds(s.take(entries@.len() as int)),
            parts@.len() + rest_aggs@.len() == aggs.len(),
            rest_aggs@ == aggs.skip(parts@.len() as int),
            aggs.len() == builds(s),
            forall|k: int|
                0 <= k < all_steps.len() ==> (#[trigger] all_steps[k] matches Step::Keep(i) ==> i
                    < old@.len()),
            forall|k: int|
                0 <= k < entries@.len() ==> builds(s.take(k)) <= parts@.len() && carried_out(
                    (#[trigger] all_steps[k])@,
                    entries@[k]@,
                    builds(s.take(k)),
                    v,
                    parts@,
                    aggs,
                ) && (all_steps[k] is Build ==> builds(s.take(k)) < parts@.len()),
        decreases rest@.len(),
    {
        let ghost n = entries@.len() as int;
        let ghost entries_before = entries@;
        let ghost parts_before = parts@;
        let step = rest.remove(0);
        proof {
            assert(step == all_steps[n]);
            assert(s[n] == step@);
            assert(rest@ =~= all_steps.skip(n + 1));
            assert(s.take(n + 1).drop_last() =~= s.take(n));
            assert(s.take(n + 1).last() == step@);
            lemma_builds_grow(s, n + 1, s.len() as int);
            assert(s.take(s.len() as int) =~= s);
        }
        match step {
            Step::Keep(i) => {
                entries.push(old[i].clone());
                assert(entries@[n]@ == v[i as int]);
            },
            Step::Build { key, superfiles } => {
                let agg = rest_aggs.remove(0);
                let (entry, part) = build_part_and_entry(superfiles, key, agg);
                entries.push(entry);
                parts.push(part);
                proof {
                    assert(agg == aggs[parts_before.len() as int]);
                    assert(rest_aggs@ =~= aggs.skip(parts@.len() as int));
                }
            },
        }
        proof {
            assert forall|k: int| 0 <= k < entries@.len() implies builds(s.take(k)) <= parts@.len()
                && carried_out(
                (#[trigger] all_steps[k])@,
                entries@[k]@,
                builds(s.take(k)),
                v,
                parts@,
                aggs,
            ) && (all_steps[k] is Build ==> builds(s.take(k)) < parts@.len()) by {
                if k < n {
                    assert(entries@[k] == entries_before[k]);
                    if all_steps[k] is Build {
                        assert(parts@[builds(s.take(k)) as int] == parts_before[builds(
                            s.take(k),
                        ) as int]);
                    }
                }
            }
        }
    }
    proof {
        assert(s.take(entries@.len() as int) =~= s);
    }
    (entries, parts)
}

proof fn lemma_builds_grow(s: Seq<StepView>, m: int, n: int)
    requires
        0 <= m <= n <= s.len(),
    ensures
        builds(s.take(m)) <= builds(s.take(n)),
    decreases n - m,
{
    if m < n {
        lemma_builds_grow(s, m, n - 1);
        assert(s.take(n).drop_last() =~= s.take(n - 1));
    }
}

// ---------------------------------------------------------------- the list

/// How a list describes vector columns.
pub open spec fn vector_infos(s: Seq<VectorConfigView>) -> Seq<VectorColumnInfoView> {
    Seq::new(
        s.len(),
        |i: int|
            VectorColumnInfoView {
                column: s[i].column,
                dim: s[i].dim as nat,
                n_cent: s[i].n_cent as nat,
                rot_seed: s[i].rot_seed,
                metric: metric_name(s[i].metric),
            },
    )
}

/// The list of the next version. `schema` is the stream of the schema that
/// callers append rows of.
pub open spec fn list_of(
    o: SupertableOptionsView,
    schema: Seq<u8>,
    strategy: PartitionStrategyView,
    manifest_id: u64,
    parts: Seq<ManifestListEntryView>,
) -> ManifestListView {
    ManifestListView {
        format_version: LIST_FORMAT_VERSION@,
        manifest_id,
        options_hash: blake3_digest(key_preimage(options_key(o, strategy))),
        schema,
        id_column: o.id_column,
        fts_columns: o.fts_columns,
        vector_columns: vector_infos(o.vector_columns),
        partition_strategy: strategy,
        parts,
    }
}

/// The list of the next version. `schema` is Arrow's stream of the schema that
/// callers append rows of: it says more than the fields of the options do, such
/// as the metadata of columns.
pub fn next_list(
    opts: &SupertableOptions,
    schema: Vec<u8>,
    strategy: PartitionStrategy,
    manifest_id: u64,
    parts: Vec<ManifestListEntry>,
) -> (r: ManifestList)
    ensures
        r@ == list_of(opts@, schema@, strategy@, manifest_id, part_views(parts@)),
{
    let options_hash = compute_options_hash(opts, &strategy);
    let mut fts_columns: Vec<FtsColumnInfo> = Vec::new();
    let mut i: usize = 0;
    while i < opts.fts_columns.len()
        invariant
            i <= opts.fts_columns@.len(),
            fts_columns@.len() == i,
            forall|k: int|
                0 <= k < i ==> (#[trigger] fts_columns@[k])@ == opts.fts_columns@[k]@,
        decreases opts.fts_columns@.len() - i,
    {
        fts_columns.push(FtsColumnInfo { column: opts.fts_columns[i].column.clone() });
        i = i + 1;
    }
    let mut vector_columns: Vec<VectorColumnInfo> = Vec::new();
    let mut j: usize = 0;
    while j < opts.vector_columns.len()
        invariant
            j <= opts.vector_columns@.len(),
            vector_columns@.len() == j,
            forall|k: int|
                0 <= k < j ==> (#[trigger] vector_columns@[k])@ == vector_infos(
                    opts@.vector_columns,
                )[k],
        decreases opts.vector_columns@.len() - j,
    {
        let c = &opts.vector_columns[j];
        vector_columns.push(
            VectorColumnInfo {
                column: c.column.clone(),
                dim: c.dim,
                n_cent: c.n_cent,
                rot_seed: c.rot_seed,
                metric: c.metric.name().to_string(),
            },
        );
        j = j + 1;
    }
    proof {
        assert(fts_views(fts_columns@) =~= opts@.fts_columns);
        assert(vector_views(vector_columns@) =~= vector_infos(opts@.vector_columns));
    }
    ManifestList {
        format_version: LIST_FORMAT_VERSION.to_string(),
        manifest_id,
        options_hash,
        schema,
        id_column: opts.id_column.clone(),
        fts_columns,
        vector_columns,
        partition_strategy: strategy,
        parts,
    }
}

/// The strategy by which a commit sorts superfiles into partitions: that of the
/// list, which the first commit fixed, else that of the options.
pub fn commit_strategy(list: Option<&ManifestList>, opts: &SupertableOptions) -> (r:
    PartitionStrategy)
    ensures
        list matches Some(l) ==> r@ == l.partition_strategy@,
        list is None ==> r@ == effective_strategy(opts@),
{
    match list {
        Some(l) => l.partition_strategy.clone(),
        None => opts.effective_partition_strategy(),
    }
}

// ---------------------------------------------------------------- laws

/// A part that was written is read back: the bytes that stand under its name
/// have the hash that the list has for it, and hold its superfiles, under every
/// limit on allocations that the part is within.
pub proof fn written_part_is_read_back(
    entry: ManifestListEntryView,
    part: ManifestPartView,
    superfiles: Seq<SuperfileEntryView>,
    key: Seq<u8>,
    vector_aggs: Seq<(Seq<char>, VectorSummaryAggView)>,
    limit: usize,
    fetched: Vec<u8>,
    r: Result<ManifestPart, ManifestLoadError>,
)
    requires
        built(entry, part, superfiles, key, vector_aggs),
        part_readable(limit, part_datum(part)),
        fetched@ == part_bytes(part, ZSTD_LEVEL),
        loaded_as(
            limit,
            entry.content_hash,
            Ok::<Vec<u8>, StorageError>(fetched),
            r,
        ),
    ensures
        r matches Ok(p) && p@ == part && p@.superfiles == superfiles,
{
    reveal(built);
    reveal(reads_back);
}

/// The entry of a part says how many superfiles it holds, how long its bytes
/// are, and where they stand: under the name that their hash gives.
pub proof fn entries_describe_their_part(
    entry: ManifestListEntryView,
    part: ManifestPartView,
    superfiles: Seq<SuperfileEntryView>,
    key: Seq<u8>,
    vector_aggs: Seq<(Seq<char>, VectorSummaryAggView)>,
)
    requires
        built(entry, part, superfiles, key, vector_aggs),
    ensures
        part.superfiles == superfiles,
        entry.part_id == part.part_id,
        entry.n_superfiles == part.superfiles.len(),
        entry.partition_key == key,
        entry.content_hash == blake3_digest(part_bytes(part, ZSTD_LEVEL)),
        entry.uri == part_uri_text(entry.content_hash),
        entry.size_bytes_compressed == part_bytes(part, ZSTD_LEVEL).len(),
        superfiles.len() > 0 ==> entry.vector_summary_agg == vector_aggs,
        forall|k: int|
            0 <= k < superfiles.len() ==> entry.id_range.0 <= (#[trigger] superfiles[k]).id_min
                && superfiles[k].id_max <= entry.id_range.1,
{
    reveal(built);
    if superfiles.len() > 0 {
        id_range_covers(superfiles);
    }
}

/// No part is left out that holds a superfile which a look at the superfiles
/// alone would keep: neither for ids, nor for a prefix, nor for terms.
pub proof fn entries_keep_what_their_superfiles_keep(
    entry: ManifestListEntryView,
    part: ManifestPartView,
    superfiles: Seq<SuperfileEntryView>,
    key: Seq<u8>,
    vector_aggs: Seq<(Seq<char>, VectorSummaryAggView)>,
    k: int,
    col: Seq<char>,
    prefix: Seq<u8>,
    terms: Seq<&str>,
    mode: BoolMode,
    x: i128,
    query_min: i128,
    query_max: i128,
)
    requires
        built(entry, part, superfiles, key, vector_aggs),
        0 <= k < superfiles.len(),
    ensures
        prefix.len() == 0 || may_have_prefix(superfiles[k], col, prefix) ==> part_has_prefix(
            lookup(entry.fts_summary_agg, col),
            prefix,
        ),
        may_have_terms(superfiles[k], col, terms, mode) ==> part_has_terms(
            lookup(entry.fts_summary_agg, col),
            terms,
            mode,
        ),
        superfiles[k].id_min <= x <= superfiles[k].id_max && query_min <= x <= query_max
            ==> ids_meet(entry.id_range, query_min, query_max),
{
    reveal(built);
    assert(lookup(entry.fts_summary_agg, col) == fts_agg(superfiles, col));
    id_range_covers(superfiles);
    if prefix.len() == 0 || may_have_prefix(superfiles[k], col, prefix) {
        prefix_pruning_is_monotone(superfiles, col, k, prefix);
    }
    if may_have_terms(superfiles[k], col, terms, mode) {
        term_pruning_is_monotone(superfiles, col, k, terms, mode);
    }
    ids_meet_in_a_common_id(entry.id_range, query_min, query_max);
    assert(between(query_min as int, x as int, query_max as int) <==> query_min <= x <= query_max);
}

/// A list names the columns of its table, the strategy and the parts, in their
/// order, and the hash of the options that it was written under.
pub proof fn lists_describe_their_table(
    o: SupertableOptionsView,
    schema: Seq<u8>,
    strategy: PartitionStrategyView,
    manifest_id: u64,
    parts: Seq<ManifestListEntryView>,
    i: int,
)
    ensures
        ({
            let l = list_of(o, schema, strategy, manifest_id, parts);
            &&& l.manifest_id == manifest_id
            &&& l.schema == schema
            &&& l.id_column == o.id_column
            &&& l.fts_columns == o.fts_columns
            &&& l.partition_strategy == strategy
            &&& l.parts == parts
            &&& l.options_hash == blake3_digest(key_preimage(options_key(o, strategy)))
            &&& l.vector_columns.len() == o.vector_columns.len()
            &&& 0 <= i < o.vector_columns.len() ==> {
                &&& l.vector_columns[i].column == o.vector_columns[i].column
                &&& l.vector_columns[i].dim == o.vector_columns[i].dim
                &&& l.vector_columns[i].n_cent == o.vector_columns[i].n_cent
                &&& l.vector_columns[i].rot_seed == o.vector_columns[i].rot_seed
                &&& l.vector_columns[i].metric == metric_name(o.vector_columns[i].metric)
            }
        }),
{
}

} // verus!
