//! The hash of a table's options.

use vstd::prelude::*;
use vstd::utf8::encode_utf8;

use crate::bytes::{le_bytes, le_bytes_round_trip, lemma_pow256_widths, push_le};
use crate::manifest::list::{byte_strings, PartitionStrategy, PartitionStrategyView};
use crate::manifest::part::{
    blake3_digest, blake3_hash, docs_long, from_long, long_docs, ContentHash,
};
use crate::options::{
    fts_config_views, metric_name, schema_view, vector_config_views, FieldView, Field, FtsConfig,
    Metric, SupertableOptions, SupertableOptionsView, VectorConfig, VectorConfigView,
};
use crate::packing::push_all;
use crate::text::hex_text;

verus! {

// ---------------------------------------------------------------- layout

/// What of the options the hash stands for.
#[verifier::ext_equal]
pub struct OptionsKey {
    /// Name, type and nullability of every column.
    pub schema: Seq<(Seq<char>, Seq<char>, bool)>,
    pub id_column: Seq<char>,
    pub fts_columns: Seq<Seq<char>>,
    pub vector_columns: Seq<VectorConfigView>,
    pub strategy: PartitionStrategyView,
}

/// What the hash says of a schema.
pub open spec fn schema_key(s: Seq<FieldView>) -> Seq<(Seq<char>, Seq<char>, bool)> {
    Seq::new(s.len(), |i: int| (s[i].name, s[i].data_type.name, s[i].nullable))
}

/// What of the options the hash stands for.
pub open spec fn options_key(
    o: SupertableOptionsView,
    strategy: PartitionStrategyView,
) -> OptionsKey {
    OptionsKey {
        schema: schema_key(o.schema),
        id_column: o.id_column,
        fts_columns: o.fts_columns,
        vector_columns: o.vector_columns,
        strategy,
    }
}

/// A tag: its length in one byte, and the tag.
pub open spec fn tag_bytes(tag: Seq<char>) -> Seq<u8> {
    seq![encode_utf8(tag).len() as u8] + encode_utf8(tag)
}

/// A number in eight bytes.
pub open spec fn count_bytes(n: nat) -> Seq<u8> {
    le_bytes(n, 8)
}

/// A byte string after its length.
pub open spec fn blob_bytes(b: Seq<u8>) -> Seq<u8> {
    count_bytes(b.len()) + b
}

/// A text after its length.
pub open spec fn str_bytes(s: Seq<char>) -> Seq<u8> {
    blob_bytes(encode_utf8(s))
}

pub open spec fn column_bytes(c: (Seq<char>, Seq<char>, bool)) -> Seq<u8> {
    str_bytes(c.0) + str_bytes(c.1) + seq![
        if c.2 {
            1u8
        } else {
            0u8
        },
    ]
}

pub open spec fn vector_bytes(v: VectorConfigView) -> Seq<u8> {
    str_bytes(v.column) + count_bytes(v.dim as nat) + count_bytes(v.n_cent as nat) + count_bytes(
        v.rot_seed as nat,
    ) + str_bytes(metric_name(v.metric))
}

pub open spec fn columns_bytes(s: Seq<(Seq<char>, Seq<char>, bool)>) -> Seq<u8>
    decreases s.len(),
{
    if s.len() == 0 {
        Seq::empty()
    } else {
        column_bytes(s[0]) + columns_bytes(s.skip(1))
    }
}

pub open spec fn strs_bytes(s: Seq<Seq<char>>) -> Seq<u8>
    decreases s.len(),
{
    if s.len() == 0 {
        Seq::empty()
    } else {
        str_bytes(s[0]) + strs_bytes(s.skip(1))
    }
}

pub open spec fn blobs_bytes(s: Seq<Seq<u8>>) -> Seq<u8>
    decreases s.len(),
{
    if s.len() == 0 {
        Seq::empty()
    } else {
        blob_bytes(s[0]) + blobs_bytes(s.skip(1))
    }
}

pub open spec fn vectors_bytes(s: Seq<VectorConfigView>) -> Seq<u8>
    decreases s.len(),
{
    if s.len() == 0 {
        Seq::empty()
    } else {
        vector_bytes(s[0]) + vectors_bytes(s.skip(1))
    }
}

pub open spec fn strategy_bytes(s: PartitionStrategyView) -> Seq<u8> {
    match s {
        PartitionStrategyView::TimeRange { column, granularity_secs } => tag_bytes("time_range"@)
            + str_bytes(column) + count_bytes(long_docs(granularity_secs) as nat),
        PartitionStrategyView::Hash { column, n_buckets } => tag_bytes("hash"@) + str_bytes(column)
            + le_bytes(n_buckets as nat, 4),
        PartitionStrategyView::ColumnRange { column, boundaries } => tag_bytes("column_range"@)
            + str_bytes(column) + count_bytes(boundaries.len()) + blobs_bytes(boundaries),
    }
}

/// The bytes whose hash it is: every list after its length, every section after
/// its tag.
pub open spec fn key_preimage(k: OptionsKey) -> Seq<u8> {
    tag_bytes("schema"@) + count_bytes(k.schema.len()) + columns_bytes(k.schema) + tag_bytes(
        "id_column"@,
    ) + str_bytes(k.id_column) + tag_bytes("fts_columns"@) + count_bytes(k.fts_columns.len())
        + strs_bytes(k.fts_columns) + tag_bytes("vector_columns"@) + count_bytes(
        k.vector_columns.len(),
    ) + vectors_bytes(k.vector_columns) + tag_bytes("partition_strategy"@) + strategy_bytes(
        k.strategy,
    )
}

// ---------------------------------------------------------------- writing

proof fn lemma_columns_push(
    s: Seq<(Seq<char>, Seq<char>, bool)>,
    c: (Seq<char>, Seq<char>, bool),
)
    ensures
        columns_bytes(s.push(c)) == columns_bytes(s) + column_bytes(c),
    decreases s.len(),
{
    if s.len() == 0 {
        assert(s.push(c).skip(1) =~= Seq::empty());
        assert(columns_bytes(s.push(c).skip(1)) =~= Seq::empty());
        assert(columns_bytes(s.push(c)) =~= columns_bytes(s) + column_bytes(c));
    } else {
        lemma_columns_push(s.skip(1), c);
        assert(s.push(c).skip(1) =~= s.skip(1).push(c));
        assert(columns_bytes(s.push(c)) =~= columns_bytes(s) + column_bytes(c));
    }
}

proof fn lemma_strs_push(s: Seq<Seq<char>>, c: Seq<char>)
    ensures
        strs_bytes(s.push(c)) == strs_bytes(s) + str_bytes(c),
    decreases s.len(),
{
    if s.len() == 0 {
        assert(s.push(c).skip(1) =~= Seq::empty());
        assert(strs_bytes(s.push(c).skip(1)) =~= Seq::empty());
        assert(strs_bytes(s.push(c)) =~= strs_bytes(s) + str_bytes(c));
    } else {
        lemma_strs_push(s.skip(1), c);
        assert(s.push(c).skip(1) =~= s.skip(1).push(c));
        assert(strs_bytes(s.push(c)) =~= strs_bytes(s) + str_bytes(c));
    }
}

proof fn lemma_blobs_push(s: Seq<Seq<u8>>, c: Seq<u8>)
    ensures
        blobs_bytes(s.push(c)) == blobs_bytes(s) + blob_bytes(c),
    decreases s.len(),
{
    if s.len() == 0 {
        assert(s.push(c).skip(1) =~= Seq::empty());
        assert(blobs_bytes(s.push(c).skip(1)) =~= Seq::empty());
        assert(blobs_bytes(s.push(c)) =~= blobs_bytes(s) + blob_bytes(c));
    } else {
        lemma_blobs_push(s.skip(1), c);
        assert(s.push(c).skip(1) =~= s.skip(1).push(c));
        assert(blobs_bytes(s.push(c)) =~= blobs_bytes(s) + blob_bytes(c));
    }
}

proof fn lemma_vectors_push(s: Seq<VectorConfigView>, c: VectorConfigView)
    ensures
        vectors_bytes(s.push(c)) == vectors_bytes(s) + vector_bytes(c),
    decreases s.len(),
{
    if s.len() == 0 {
        assert(s.push(c).skip(1) =~= Seq::empty());
        assert(vectors_bytes(s.push(c).skip(1)) =~= Seq::empty());
        assert(vectors_bytes(s.push(c)) =~= vectors_bytes(s) + vector_bytes(c));
    } else {
        lemma_vectors_push(s.skip(1), c);
        assert(s.push(c).skip(1) =~= s.skip(1).push(c));
        assert(vectors_bytes(s.push(c)) =~= vectors_bytes(s) + vector_bytes(c));
    }
}

/// Append a tag of fewer than 256 bytes after its length.
pub fn push_tag(buf: &mut Vec<u8>, tag: &[u8])
    requires
        tag@.len() < 256,
    ensures
        final(buf)@ == old(buf)@ + (seq![tag@.len() as u8] + tag@),
{
    let ghost start = buf@;
    let n: usize = tag.len();
    buf.push(n as u8);
    push_all(buf, tag);
    proof {
        assert(buf@ =~= start + (seq![tag@.len() as u8] + tag@));
    }
}

fn push_count(buf: &mut Vec<u8>, n: u64)
    ensures
        final(buf)@ == old(buf)@ + count_bytes(n as nat),
{
    push_le(buf, n as u128, 8);
}

fn push_blob(buf: &mut Vec<u8>, b: &[u8])
    ensures
        final(buf)@ == old(buf)@ + blob_bytes(b@),
{
    let ghost start = buf@;
    let n: usize = b.len();
    push_count(buf, n as u64);
    push_all(buf, b);
    proof {
        assert(buf@ =~= start + blob_bytes(b@));
    }
}

/// Append a text after its length.
pub fn push_str(buf: &mut Vec<u8>, s: &str)
    ensures
        final(buf)@ == old(buf)@ + str_bytes(s@),
{
    push_blob(buf, s.as_bytes());
}

fn push_schema(buf: &mut Vec<u8>, s: &Vec<Field>)
    ensures
        final(buf)@ == old(buf)@ + columns_bytes(schema_key(schema_view(s@))),
{
    let ghost start = buf@;
    let ghost v = schema_key(schema_view(s@));
    let mut i: usize = 0;
    proof {
        assert(v.take(0) =~= Seq::empty());
        assert(start + columns_bytes(v.take(0)) =~= start);
    }
    while i < s.len()
        invariant
            i <= s@.len(),
            v == schema_key(schema_view(s@)),
            buf@ == start + columns_bytes(v.take(i as int)),
        decreases s@.len() - i,
    {
        let ghost before = buf@;
        push_str(buf, s[i].name.as_str());
        push_str(buf, s[i].data_type.name.as_str());
        buf.push(if s[i].nullable {
            1
        } else {
            0
        });
        proof {
            assert(buf@ =~= before + column_bytes(v[i as int]));
            lemma_columns_push(v.take(i as int), v[i as int]);
            assert(v.take(i as int).push(v[i as int]) =~= v.take(i as int + 1));
            assert(buf@ =~= start + columns_bytes(v.take(i as int + 1)));
        }
        i = i + 1;
    }
    proof {
        assert(v.take(i as int) =~= v);
    }
}

fn push_fts(buf: &mut Vec<u8>, s: &Vec<FtsConfig>)
    ensures
        final(buf)@ == old(buf)@ + strs_bytes(fts_config_views(s@)),
{
    let ghost start = buf@;
    let ghost v = fts_config_views(s@);
    let mut i: usize = 0;
    proof {
        assert(v.take(0) =~= Seq::empty());
        assert(start + strs_bytes(v.take(0)) =~= start);
    }
    while i < s.len()
        invariant
            i <= s@.len(),
            v == fts_config_views(s@),
            buf@ == start + strs_bytes(v.take(i as int)),
        decreases s@.len() - i,
    {
        push_str(buf, s[i].column.as_str());
        proof {
            lemma_strs_push(v.take(i as int), v[i as int]);
            assert(v.take(i as int).push(v[i as int]) =~= v.take(i as int + 1));
            assert(buf@ =~= start + strs_bytes(v.take(i as int + 1)));
        }
        i = i + 1;
    }
    proof {
        assert(v.take(i as int) =~= v);
    }
}

fn push_vectors(buf: &mut Vec<u8>, s: &Vec<VectorConfig>)
    ensures
        final(buf)@ == old(buf)@ + vectors_bytes(vector_config_views(s@)),
{
    let ghost start = buf@;
    let ghost v = vector_config_views(s@);
    let mut i: usize = 0;
    proof {
        assert(v.take(0) =~= Seq::empty());
        assert(start + vectors_bytes(v.take(0)) =~= start);
    }
    while i < s.len()
        invariant
            i <= s@.len(),
            v == vector_config_views(s@),
            buf@ == start + vectors_bytes(v.take(i as int)),
        decreases s@.len() - i,
    {
        let ghost before = buf@;
        push_str(buf, s[i].column.as_str());
        push_count(buf, s[i].dim as u64);
        push_count(buf, s[i].n_cent as u64);
        push_count(buf, s[i].rot_seed);
        push_str(buf, s[i].metric.name());
        proof {
            assert(buf@ =~= before + vector_bytes(v[i as int]));
            lemma_vectors_push(v.take(i as int), v[i as int]);
            assert(v.take(i as int).push(v[i as int]) =~= v.take(i as int + 1));
            assert(buf@ =~= start + vectors_bytes(v.take(i as int + 1)));
        }
        i = i + 1;
    }
    proof {
        assert(v.take(i as int) =~= v);
    }
}

fn push_blobs(buf: &mut Vec<u8>, s: &Vec<Vec<u8>>)
    ensures
        final(buf)@ == old(buf)@ + blobs_bytes(byte_strings(s@)),
{
    let ghost start = buf@;
    let ghost v = byte_strings(s@);
    let mut i: usize = 0;
    proof {
        assert(v.take(0) =~= Seq::empty());
        assert(start + blobs_bytes(v.take(0)) =~= start);
    }
    while i < s.len()
        invariant
            i <= s@.len(),
            v == byte_strings(s@),
            buf@ == start + blobs_bytes(v.take(i as int)),
        decreases s@.len() - i,
    {
        push_blob(buf, s[i].as_slice());
        proof {
            lemma_blobs_push(v.take(i as int), v[i as int]);
            assert(v.take(i as int).push(v[i as int]) =~= v.take(i as int + 1));
            assert(buf@ =~= start + blobs_bytes(v.take(i as int + 1)));
        }
        i = i + 1;
    }
    proof {
        assert(v.take(i as int) =~= v);
    }
}

proof fn lemma_tag_lengths()
    ensures
        encode_utf8("schema"@).len() == 6,
        encode_utf8("id_column"@).len() == 9,
        encode_utf8("fts_columns"@).len() == 11,
        encode_utf8("vector_columns"@).len() == 14,
        encode_utf8("partition_strategy"@).len() == 18,
        encode_utf8("time_range"@).len() == 10,
        encode_utf8("hash"@).len() == 4,
        encode_utf8("column_range"@).len() == 12,
{
    reveal_strlit("schema");
    reveal_strlit("id_column");
    reveal_strlit("fts_columns");
    reveal_strlit("vector_columns");
    reveal_strlit("partition_strategy");
    reveal_strlit("time_range");
    reveal_strlit("hash");
    reveal_strlit("column_range");
    vstd::utf8::is_ascii_chars_encode_utf8("schema"@);
    vstd::utf8::is_ascii_chars_encode_utf8("id_column"@);
    vstd::utf8::is_ascii_chars_encode_utf8("fts_columns"@);
    vstd::utf8::is_ascii_chars_encode_utf8("vector_columns"@);
    vstd::utf8::is_ascii_chars_encode_utf8("partition_strategy"@);
    vstd::utf8::is_ascii_chars_encode_utf8("time_range"@);
    vstd::utf8::is_ascii_chars_encode_utf8("hash"@);
    vstd::utf8::is_ascii_chars_encode_utf8("column_range"@);
}

fn push_strategy(buf: &mut Vec<u8>, s: &PartitionStrategy)
    ensures
        final(buf)@ == old(buf)@ + strategy_bytes(s@),
{
    let ghost start = buf@;
    proof {
        lemma_tag_lengths();
    }
    match s {
        PartitionStrategy::TimeRange { column, granularity_secs } => {
            push_tag(buf, "time_range".as_bytes());
            push_str(buf, column.as_str());
            push_count(buf, from_long(*granularity_secs));
        },
        PartitionStrategy::Hash { column, n_buckets } => {
            push_tag(buf, "hash".as_bytes());
            push_str(buf, column.as_str());
            push_le(buf, *n_buckets as u128, 4);
        },
        PartitionStrategy::ColumnRange { column, boundaries } => {
            push_tag(buf, "column_range".as_bytes());
            push_str(buf, column.as_str());
            let n: usize = boundaries.len();
            push_count(buf, n as u64);
            push_blobs(buf, boundaries);
        },
    }
    proof {
        assert(buf@ =~= start + strategy_bytes(s@));
    }
}

/// The bytes whose hash stands for the options.
fn options_preimage(opts: &SupertableOptions, strategy: &PartitionStrategy) -> (r: Vec<u8>)
    ensures
        r@ == key_preimage(options_key(opts@, strategy@)),
{
    let mut buf: Vec<u8> = Vec::new();
    proof {
        lemma_tag_lengths();
    }
    push_tag(&mut buf, "schema".as_bytes());
    let n: usize = opts.schema.len();
    push_count(&mut buf, n as u64);
    push_schema(&mut buf, &opts.schema);
    push_tag(&mut buf, "id_column".as_bytes());
    push_str(&mut buf, opts.id_column.as_str());
    push_tag(&mut buf, "fts_columns".as_bytes());
    let n: usize = opts.fts_columns.len();
    push_count(&mut buf, n as u64);
    push_fts(&mut buf, &opts.fts_columns);
    push_tag(&mut buf, "vector_columns".as_bytes());
    let n: usize = opts.vector_columns.len();
    push_count(&mut buf, n as u64);
    push_vectors(&mut buf, &opts.vector_columns);
    push_tag(&mut buf, "partition_strategy".as_bytes());
    push_strategy(&mut buf, strategy);
    proof {
        assert(buf@ =~= key_preimage(options_key(opts@, strategy@)));
    }
    buf
}

/// The hash of options and the strategy in force.
pub fn compute_options_hash(opts: &SupertableOptions, strategy: &PartitionStrategy) -> (r:
    ContentHash)
    ensures
        r@ == blake3_digest(key_preimage(options_key(opts@, strategy@))),
{
    let buf = options_preimage(opts, strategy);
    ContentHash(blake3_hash(buf.as_slice()))
}

// ---------------------------------------------------------------- checking

/// The hash of the options is not the one in the list.
#[derive(Debug)]
pub struct OptionsHashMismatch {
    pub expected: String,
    pub actual: String,
}

impl OptionsHashMismatch {
    /// The error as a line of text.
    pub fn message(&self) -> (r: String)
        ensures
            r@ == "options_hash mismatch: caller=blake3:"@ + self.expected@ + " list=blake3:"@
                + self.actual@,
    {
        let mut s = "options_hash mismatch: caller=blake3:".to_string();
        s.append(self.expected.as_str());
        s.append(" list=blake3:");
        s.append(self.actual.as_str());
        s
    }
}

fn is_zero(h: &ContentHash) -> (r: bool)
    ensures
        r == (h@ == Seq::new(32, |i: int| 0u8)),
{
    let mut i: usize = 0;
    while i < 32
        invariant
            i <= 32,
            forall|k: int| 0 <= k < i ==> h@[k] == 0,
        decreases 32 - i,
    {
        if h.0[i] != 0 {
            assert(h@[i as int] != Seq::new(32, |i: int| 0u8)[i as int]);
            return false;
        }
        i = i + 1;
    }
    assert(h@ =~= Seq::new(32, |i: int| 0u8));
    true
}

/// Check the hash of the options against the one in the list. A hash of zeros
/// in the list says that there is nothing to check.
pub fn verify_options_hash(expected: ContentHash, actual: ContentHash) -> (r: Result<
    (),
    OptionsHashMismatch,
>)
    ensures
        match r {
            Ok(()) => actual@ == Seq::new(32, |i: int| 0u8) || expected@ == actual@,
            Err(e) => actual@ != Seq::new(32, |i: int| 0u8) && expected@ != actual@ && e.expected@
                == hex_text(expected@) && e.actual@ == hex_text(actual@),
        },
{
    if is_zero(&actual) {
        return Ok(());
    }
    if expected.same(&actual) {
        return Ok(());
    }
    Err(OptionsHashMismatch { expected: expected.to_hex(), actual: actual.to_hex() })
}

// ---------------------------------------------------------------- laws

/// Lengths that eight bytes hold.
pub open spec fn short(s: Seq<char>) -> bool {
    encode_utf8(s).len() <= u64::MAX
}

/// A key that fits the layout: nothing is longer than eight bytes can say.
pub open spec fn key_fits(k: OptionsKey) -> bool {
    &&& k.schema.len() <= u64::MAX
    &&& forall|i: int|
        0 <= i < k.schema.len() ==> short((#[trigger] k.schema[i]).0) && short(k.schema[i].1)
    &&& short(k.id_column)
    &&& k.fts_columns.len() <= u64::MAX
    &&& forall|i: int| 0 <= i < k.fts_columns.len() ==> short(#[trigger] k.fts_columns[i])
    &&& k.vector_columns.len() <= u64::MAX
    &&& forall|i: int|
        0 <= i < k.vector_columns.len() ==> short((#[trigger] k.vector_columns[i]).column)
    &&& match k.strategy {
        PartitionStrategyView::TimeRange { column, .. } => short(column),
        PartitionStrategyView::Hash { column, .. } => short(column),
        PartitionStrategyView::ColumnRange { column, boundaries } => {
            &&& short(column)
            &&& boundaries.len() <= u64::MAX
            &&& forall|i: int|
                0 <= i < boundaries.len() ==> (#[trigger] boundaries[i]).len() <= u64::MAX
        },
    }
}

/// Two texts that begin with strings of one length begin with the same string.
proof fn lemma_cancel(a: Seq<u8>, x: Seq<u8>, b: Seq<u8>, y: Seq<u8>)
    requires
        a.len() == b.len(),
        a + x == b + y,
    ensures
        a == b,
        x == y,
{
    assert((a + x).take(a.len() as int) =~= a);
    assert((b + y).take(a.len() as int) =~= b);
    assert((a + x).skip(a.len() as int) =~= x);
    assert((b + y).skip(a.len() as int) =~= y);
}

proof fn lemma_count_cancel(m: nat, x: Seq<u8>, n: nat, y: Seq<u8>)
    requires
        m <= u64::MAX,
        n <= u64::MAX,
        count_bytes(m) + x == count_bytes(n) + y,
    ensures
        m == n,
        x == y,
{
    lemma_pow256_widths();
    le_bytes_round_trip(m, 8);
    le_bytes_round_trip(n, 8);
    lemma_cancel(count_bytes(m), x, count_bytes(n), y);
}

proof fn lemma_blob_cancel(a: Seq<u8>, x: Seq<u8>, b: Seq<u8>, y: Seq<u8>)
    requires
        a.len() <= u64::MAX,
        b.len() <= u64::MAX,
        blob_bytes(a) + x == blob_bytes(b) + y,
    ensures
        a == b,
        x == y,
{
    assert(blob_bytes(a) + x =~= count_bytes(a.len()) + (a + x));
    assert(blob_bytes(b) + y =~= count_bytes(b.len()) + (b + y));
    lemma_count_cancel(a.len(), a + x, b.len(), b + y);
    lemma_cancel(a, x, b, y);
}

proof fn lemma_str_cancel(a: Seq<char>, x: Seq<u8>, b: Seq<char>, y: Seq<u8>)
    requires
        short(a),
        short(b),
        str_bytes(a) + x == str_bytes(b) + y,
    ensures
        a == b,
        x == y,
{
    lemma_blob_cancel(encode_utf8(a), x, encode_utf8(b), y);
    vstd::utf8::encode_utf8_decode_utf8(a);
    vstd::utf8::encode_utf8_decode_utf8(b);
}

proof fn lemma_column_cancel(
    a: (Seq<char>, Seq<char>, bool),
    x: Seq<u8>,
    b: (Seq<char>, Seq<char>, bool),
    y: Seq<u8>,
)
    requires
        short(a.0) && short(a.1) && short(b.0) && short(b.1),
        column_bytes(a) + x == column_bytes(b) + y,
    ensures
        a == b,
        x == y,
{
    let fa = seq![if a.2 { 1u8 } else { 0u8 }];
    let fb = seq![if b.2 { 1u8 } else { 0u8 }];
    assert(column_bytes(a) + x =~= str_bytes(a.0) + (str_bytes(a.1) + (fa + x)));
    assert(column_bytes(b) + y =~= str_bytes(b.0) + (str_bytes(b.1) + (fb + y)));
    lemma_str_cancel(a.0, str_bytes(a.1) + (fa + x), b.0, str_bytes(b.1) + (fb + y));
    lemma_str_cancel(a.1, fa + x, b.1, fb + y);
    lemma_cancel(fa, x, fb, y);
    assert(fa[0] == fb[0]);
}

proof fn lemma_metric_names(a: Metric, b: Metric)
    requires
        metric_name(a) == metric_name(b),
    ensures
        a == b,
{
    reveal_strlit("cosine");
    reveal_strlit("l2sq");
    reveal_strlit("negdot");
    assert("cosine"@[0] != "negdot"@[0]);
}

proof fn lemma_metric_short(m: Metric)
    ensures
        short(metric_name(m)),
{
    reveal_strlit("cosine");
    reveal_strlit("l2sq");
    reveal_strlit("negdot");
    vstd::utf8::is_ascii_chars_encode_utf8(metric_name(m));
}

proof fn lemma_vector_cancel(a: VectorConfigView, x: Seq<u8>, b: VectorConfigView, y: Seq<u8>)
    requires
        short(a.column) && short(b.column),
        vector_bytes(a) + x == vector_bytes(b) + y,
    ensures
        a == b,
        x == y,
{
    let a4 = str_bytes(metric_name(a.metric)) + x;
    let b4 = str_bytes(metric_name(b.metric)) + y;
    let a3 = count_bytes(a.rot_seed as nat) + a4;
    let b3 = count_bytes(b.rot_seed as nat) + b4;
    let a2 = count_bytes(a.n_cent as nat) + a3;
    let b2 = count_bytes(b.n_cent as nat) + b3;
    let a1 = count_bytes(a.dim as nat) + a2;
    let b1 = count_bytes(b.dim as nat) + b2;
    assert(vector_bytes(a) + x =~= str_bytes(a.column) + a1);
    assert(vector_bytes(b) + y =~= str_bytes(b.column) + b1);
    lemma_str_cancel(a.column, a1, b.column, b1);
    lemma_count_cancel(a.dim as nat, a2, b.dim as nat, b2);
    lemma_count_cancel(a.n_cent as nat, a3, b.n_cent as nat, b3);
    lemma_count_cancel(a.rot_seed as nat, a4, b.rot_seed as nat, b4);
    lemma_metric_short(a.metric);
    lemma_metric_short(b.metric);
    lemma_str_cancel(metric_name(a.metric), x, metric_name(b.metric), y);
    lemma_metric_names(a.metric, b.metric);
}

proof fn lemma_columns_cancel(
    a: Seq<(Seq<char>, Seq<char>, bool)>,
    x: Seq<u8>,
    b: Seq<(Seq<char>, Seq<char>, bool)>,
    y: Seq<u8>,
)
    requires
        a.len() == b.len(),
        forall|i: int| 0 <= i < a.len() ==> short((#[trigger] a[i]).0) && short(a[i].1),
        forall|i: int| 0 <= i < b.len() ==> short((#[trigger] b[i]).0) && short(b[i].1),
        columns_bytes(a) + x == columns_bytes(b) + y,
    ensures
        a == b,
        x == y,
    decreases a.len(),
{
    if a.len() == 0 {
        assert(a =~= b);
        assert(columns_bytes(a) + x =~= x);
        assert(columns_bytes(b) + y =~= y);
    } else {
        let (s, t) = (a.skip(1), b.skip(1));
        assert(columns_bytes(a) + x =~= column_bytes(a[0]) + (columns_bytes(s) + x));
        assert(columns_bytes(b) + y =~= column_bytes(b[0]) + (columns_bytes(t) + y));
        lemma_column_cancel(a[0], columns_bytes(s) + x, b[0], columns_bytes(t) + y);
        assert forall|i: int| 0 <= i < s.len() implies short((#[trigger] s[i]).0) && short(
            s[i].1,
        ) by {
            assert(s[i] == a[i + 1]);
        }
        assert forall|i: int| 0 <= i < t.len() implies short((#[trigger] t[i]).0) && short(
            t[i].1,
        ) by {
            assert(t[i] == b[i + 1]);
        }
        lemma_columns_cancel(s, x, t, y);
        assert(a =~= seq![a[0]] + s);
        assert(b =~= seq![b[0]] + t);
    }
}

proof fn lemma_strs_cancel(a: Seq<Seq<char>>, x: Seq<u8>, b: Seq<Seq<char>>, y: Seq<u8>)
    requires
        a.len() == b.len(),
        forall|i: int| 0 <= i < a.len() ==> short(#[trigger] a[i]),
        forall|i: int| 0 <= i < b.len() ==> short(#[trigger] b[i]),
        strs_bytes(a) + x == strs_bytes(b) + y,
    ensures
        a == b,
        x == y,
    decreases a.len(),
{
    if a.len() == 0 {
        assert(a =~= b);
        assert(strs_bytes(a) + x =~= x);
        assert(strs_bytes(b) + y =~= y);
    } else {
        let (s, t) = (a.skip(1), b.skip(1));
        assert(strs_bytes(a) + x =~= str_bytes(a[0]) + (strs_bytes(s) + x));
        assert(strs_bytes(b) + y =~= str_bytes(b[0]) + (strs_bytes(t) + y));
        lemma_str_cancel(a[0], strs_bytes(s) + x, b[0], strs_bytes(t) + y);
        assert forall|i: int| 0 <= i < s.len() implies short(#[trigger] s[i]) by {
            assert(s[i] == a[i + 1]);
        }
        assert forall|i: int| 0 <= i < t.len() implies short(#[trigger] t[i]) by {
            assert(t[i] == b[i + 1]);
        }
        lemma_strs_cancel(s, x, t, y);
        assert(a =~= seq![a[0]] + s);
        assert(b =~= seq![b[0]] + t);
    }
}

proof fn lemma_blobs_cancel(a: Seq<Seq<u8>>, x: Seq<u8>, b: Seq<Seq<u8>>, y: Seq<u8>)
    requires
        a.len() == b.len(),
        forall|i: int| 0 <= i < a.len() ==> (#[trigger] a[i]).len() <= u64::MAX,
        forall|i: int| 0 <= i < b.len() ==> (#[trigger] b[i]).len() <= u64::MAX,
        blobs_bytes(a) + x == blobs_bytes(b) + y,
    ensures
        a == b,
        x == y,
    decreases a.len(),
{
    if a.len() == 0 {
        assert(a =~= b);
        assert(blobs_bytes(a) + x =~= x);
        assert(blobs_bytes(b) + y =~= y);
    } else {
        let (s, t) = (a.skip(1), b.skip(1));
        assert(blobs_bytes(a) + x =~= blob_bytes(a[0]) + (blobs_bytes(s) + x));
        assert(blobs_bytes(b) + y =~= blob_bytes(b[0]) + (blobs_bytes(t) + y));
        lemma_blob_cancel(a[0], blobs_bytes(s) + x, b[0], blobs_bytes(t) + y);
        assert forall|i: int| 0 <= i < s.len() implies (#[trigger] s[i]).len() <= u64::MAX by {
            assert(s[i] == a[i + 1]);
        }
        assert forall|i: int| 0 <= i < t.len() implies (#[trigger] t[i]).len() <= u64::MAX by {
            assert(t[i] == b[i + 1]);
        }
        lemma_blobs_cancel(s, x, t, y);
        assert(a =~= seq![a[0]] + s);
        assert(b =~= seq![b[0]] + t);
    }
}

proof fn lemma_vectors_cancel(
    a: Seq<VectorConfigView>,
    x: Seq<u8>,
    b: Seq<VectorConfigView>,
    y: Seq<u8>,
)
    requires
        a.len() == b.len(),
        forall|i: int| 0 <= i < a.len() ==> short((#[trigger] a[i]).column),
        forall|i: int| 0 <= i < b.len() ==> short((#[trigger] b[i]).column),
        vectors_bytes(a) + x == vectors_bytes(b) + y,
    ensures
        a == b,
        x == y,
    decreases a.len(),
{
    if a.len() == 0 {
        assert(a =~= b);
        assert(vectors_bytes(a) + x =~= x);
        assert(vectors_bytes(b) + y =~= y);
    } else {
        let (s, t) = (a.skip(1), b.skip(1));
        assert(vectors_bytes(a) + x =~= vector_bytes(a[0]) + (vectors_bytes(s) + x));
        assert(vectors_bytes(b) + y =~= vector_bytes(b[0]) + (vectors_bytes(t) + y));
        lemma_vector_cancel(a[0], vectors_bytes(s) + x, b[0], vectors_bytes(t) + y);
        assert forall|i: int| 0 <= i < s.len() implies short((#[trigger] s[i]).column) by {
            assert(s[i] == a[i + 1]);
        }
        assert forall|i: int| 0 <= i < t.len() implies short((#[trigger] t[i]).column) by {
            assert(t[i] == b[i + 1]);
        }
        lemma_vectors_cancel(s, x, t, y);
        assert(a =~= seq![a[0]] + s);
        assert(b =~= seq![b[0]] + t);
    }
}

/// The first byte of a strategy tells which one it is.
proof fn lemma_strategy_tag(s: PartitionStrategyView)
    ensures
        strategy_bytes(s).len() > 0,
        strategy_bytes(s)[0] == match s {
            PartitionStrategyView::TimeRange { .. } => 10u8,
            PartitionStrategyView::Hash { .. } => 4u8,
            PartitionStrategyView::ColumnRange { .. } => 12u8,
        },
{
    lemma_tag_lengths();
}

proof fn lemma_strategy_injective(a: PartitionStrategyView, b: PartitionStrategyView)
    requires
        strategy_bytes(a) == strategy_bytes(b),
        match a {
            PartitionStrategyView::TimeRange { column, .. } => short(column),
            PartitionStrategyView::Hash { column, .. } => short(column),
            PartitionStrategyView::ColumnRange { column, boundaries } => short(column)
                && boundaries.len() <= u64::MAX && forall|i: int|
                0 <= i < boundaries.len() ==> (#[trigger] boundaries[i]).len() <= u64::MAX,
        },
        match b {
            PartitionStrategyView::TimeRange { column, .. } => short(column),
            PartitionStrategyView::Hash { column, .. } => short(column),
            PartitionStrategyView::ColumnRange { column, boundaries } => short(column)
                && boundaries.len() <= u64::MAX && forall|i: int|
                0 <= i < boundaries.len() ==> (#[trigger] boundaries[i]).len() <= u64::MAX,
        },
    ensures
        a == b,
{
    lemma_strategy_tag(a);
    lemma_strategy_tag(b);
    let e = Seq::<u8>::empty();
    match (a, b) {
        (
            PartitionStrategyView::TimeRange { column: c, granularity_secs: g },
            PartitionStrategyView::TimeRange { column: d, granularity_secs: h },
        ) => {
            let t = tag_bytes("time_range"@);
            let (x, y) = (count_bytes(long_docs(g) as nat), count_bytes(long_docs(h) as nat));
            assert(strategy_bytes(a) =~= t + (str_bytes(c) + x));
            assert(strategy_bytes(b) =~= t + (str_bytes(d) + y));
            lemma_cancel(t, str_bytes(c) + x, t, str_bytes(d) + y);
            lemma_str_cancel(c, x, d, y);
            assert(x =~= x + e && y =~= y + e);
            lemma_count_cancel(long_docs(g) as nat, e, long_docs(h) as nat, e);
            assert(docs_long(long_docs(g)) == g && docs_long(long_docs(h)) == h);
        },
        (
            PartitionStrategyView::Hash { column: c, n_buckets: m },
            PartitionStrategyView::Hash { column: d, n_buckets: n },
        ) => {
            let t = tag_bytes("hash"@);
            let (x, y) = (le_bytes(m as nat, 4), le_bytes(n as nat, 4));
            assert(strategy_bytes(a) =~= t + (str_bytes(c) + x));
            assert(strategy_bytes(b) =~= t + (str_bytes(d) + y));
            lemma_cancel(t, str_bytes(c) + x, t, str_bytes(d) + y);
            lemma_str_cancel(c, x, d, y);
            lemma_pow256_widths();
            le_bytes_round_trip(m as nat, 4);
            le_bytes_round_trip(n as nat, 4);
        },
        (
            PartitionStrategyView::ColumnRange { column: c, boundaries: m },
            PartitionStrategyView::ColumnRange { column: d, boundaries: n },
        ) => {
            let t = tag_bytes("column_range"@);
            let (x, y) = (blobs_bytes(m), blobs_bytes(n));
            assert(strategy_bytes(a) =~= t + (str_bytes(c) + (count_bytes(m.len()) + x)));
            assert(strategy_bytes(b) =~= t + (str_bytes(d) + (count_bytes(n.len()) + y)));
            lemma_cancel(
                t,
                str_bytes(c) + (count_bytes(m.len()) + x),
                t,
                str_bytes(d) + (count_bytes(n.len()) + y),
            );
            lemma_str_cancel(c, count_bytes(m.len()) + x, d, count_bytes(n.len()) + y);
            lemma_count_cancel(m.len(), x, n.len(), y);
            assert(x =~= x + e && y =~= y + e);
            lemma_blobs_cancel(m, e, n, e);
        },
        _ => {},
    }
}

proof fn lemma_assoc(a: Seq<u8>, b: Seq<u8>, c: Seq<u8>)
    ensures
        (a + b) + c == a + (b + c),
{
    assert((a + b) + c =~= a + (b + c));
}

/// From the vector columns on.
spec fn tail_vectors(k: OptionsKey) -> Seq<u8> {
    tag_bytes("vector_columns"@) + (count_bytes(k.vector_columns.len()) + (vectors_bytes(
        k.vector_columns,
    ) + (tag_bytes("partition_strategy"@) + strategy_bytes(k.strategy))))
}

/// From the full-text columns on.
spec fn tail_fts(k: OptionsKey) -> Seq<u8> {
    tag_bytes("fts_columns"@) + (count_bytes(k.fts_columns.len()) + (strs_bytes(k.fts_columns)
        + tail_vectors(k)))
}

/// From the id column on.
spec fn tail_id(k: OptionsKey) -> Seq<u8> {
    tag_bytes("id_column"@) + (str_bytes(k.id_column) + tail_fts(k))
}

proof fn lemma_preimage_nested(k: OptionsKey)
    ensures
        key_preimage(k) == tag_bytes("schema"@) + (count_bytes(k.schema.len()) + (columns_bytes(
            k.schema,
        ) + tail_id(k))),
{
    let x1 = tag_bytes("schema"@);
    let c1 = count_bytes(k.schema.len());
    let s1 = columns_bytes(k.schema);
    let t2 = tag_bytes("id_column"@);
    let i2 = str_bytes(k.id_column);
    let t3 = tag_bytes("fts_columns"@);
    let c3 = count_bytes(k.fts_columns.len());
    let s3 = strs_bytes(k.fts_columns);
    let t4 = tag_bytes("vector_columns"@);
    let c4 = count_bytes(k.vector_columns.len());
    let s4 = vectors_bytes(k.vector_columns);
    let t5 = tag_bytes("partition_strategy"@);
    let s5 = strategy_bytes(k.strategy);
    let x2 = x1 + c1;
    let x3 = x2 + s1;
    let x4 = x3 + t2;
    let x5 = x4 + i2;
    let x6 = x5 + t3;
    let x7 = x6 + c3;
    let x8 = x7 + s3;
    let x9 = x8 + t4;
    let x10 = x9 + c4;
    let x11 = x10 + s4;
    assert(key_preimage(k) == x11 + t5 + s5);
    let y11 = t5 + s5;
    lemma_assoc(x11, t5, s5);
    let y10 = s4 + y11;
    lemma_assoc(x10, s4, y11);
    let y9 = c4 + y10;
    lemma_assoc(x9, c4, y10);
    let y8 = t4 + y9;
    lemma_assoc(x8, t4, y9);
    assert(y8 == tail_vectors(k));
    let y7 = s3 + y8;
    lemma_assoc(x7, s3, y8);
    let y6 = c3 + y7;
    lemma_assoc(x6, c3, y7);
    let y5 = t3 + y6;
    lemma_assoc(x5, t3, y6);
    assert(y5 == tail_fts(k));
    let y4 = i2 + y5;
    lemma_assoc(x4, i2, y5);
    let y3 = t2 + y4;
    lemma_assoc(x3, t2, y4);
    assert(y3 == tail_id(k));
    let y2 = s1 + y3;
    lemma_assoc(x2, s1, y3);
    lemma_assoc(x1, c1, y2);
}

proof fn lemma_tail_vectors_injective(a: OptionsKey, b: OptionsKey)
    requires
        key_fits(a),
        key_fits(b),
        tail_vectors(a) == tail_vectors(b),
    ensures
        a.vector_columns == b.vector_columns,
        a.strategy == b.strategy,
{
    let (t4, t5) = (tag_bytes("vector_columns"@), tag_bytes("partition_strategy"@));
    let (a3, b3) = (t5 + strategy_bytes(a.strategy), t5 + strategy_bytes(b.strategy));
    let (a2, b2) = (vectors_bytes(a.vector_columns) + a3, vectors_bytes(b.vector_columns) + b3);
    let (a1, b1) = (
        count_bytes(a.vector_columns.len()) + a2,
        count_bytes(b.vector_columns.len()) + b2,
    );
    lemma_cancel(t4, a1, t4, b1);
    lemma_count_cancel(a.vector_columns.len(), a2, b.vector_columns.len(), b2);
    lemma_vectors_cancel(a.vector_columns, a3, b.vector_columns, b3);
    lemma_cancel(t5, strategy_bytes(a.strategy), t5, strategy_bytes(b.strategy));
    lemma_strategy_injective(a.strategy, b.strategy);
}

proof fn lemma_tail_fts_injective(a: OptionsKey, b: OptionsKey)
    requires
        key_fits(a),
        key_fits(b),
        tail_fts(a) == tail_fts(b),
    ensures
        a.fts_columns == b.fts_columns,
        tail_vectors(a) == tail_vectors(b),
{
    let t3 = tag_bytes("fts_columns"@);
    let (a2, b2) = (
        strs_bytes(a.fts_columns) + tail_vectors(a),
        strs_bytes(b.fts_columns) + tail_vectors(b),
    );
    let (a1, b1) = (count_bytes(a.fts_columns.len()) + a2, count_bytes(b.fts_columns.len()) + b2);
    lemma_cancel(t3, a1, t3, b1);
    lemma_count_cancel(a.fts_columns.len(), a2, b.fts_columns.len(), b2);
    lemma_strs_cancel(a.fts_columns, tail_vectors(a), b.fts_columns, tail_vectors(b));
}

/// Two configurations whose hashes are taken of the same bytes are the same:
/// nothing that differs is hashed alike.
pub proof fn preimage_is_injective(a: OptionsKey, b: OptionsKey)
    requires
        key_fits(a),
        key_fits(b),
        key_preimage(a) == key_preimage(b),
    ensures
        a == b,
{
    lemma_preimage_nested(a);
    lemma_preimage_nested(b);
    let (t1, t2) = (tag_bytes("schema"@), tag_bytes("id_column"@));
    let (a2, b2) = (columns_bytes(a.schema) + tail_id(a), columns_bytes(b.schema) + tail_id(b));
    let (a1, b1) = (count_bytes(a.schema.len()) + a2, count_bytes(b.schema.len()) + b2);
    lemma_cancel(t1, a1, t1, b1);
    lemma_count_cancel(a.schema.len(), a2, b.schema.len(), b2);
    lemma_columns_cancel(a.schema, tail_id(a), b.schema, tail_id(b));
    lemma_cancel(t2, str_bytes(a.id_column) + tail_fts(a), t2, str_bytes(b.id_column) + tail_fts(b));
    lemma_str_cancel(a.id_column, tail_fts(a), b.id_column, tail_fts(b));
    lemma_tail_fts_injective(a, b);
    lemma_tail_vectors_injective(a, b);
}

/// Options have one key just where they agree in the names, types and
/// nullability of their columns, in the id column, in the text and vector
/// columns and in the strategy; other settings do not count.
pub proof fn keys_tell_options_apart(
    a: SupertableOptionsView,
    s: PartitionStrategyView,
    b: SupertableOptionsView,
    t: PartitionStrategyView,
)
    ensures
        options_key(a, s) == options_key(b, t) <==> {
            &&& s == t
            &&& a.id_column == b.id_column
            &&& a.fts_columns == b.fts_columns
            &&& a.vector_columns == b.vector_columns
            &&& a.schema.len() == b.schema.len()
            &&& forall|i: int|
                0 <= i < a.schema.len() ==> (#[trigger] a.schema[i]).name == b.schema[i].name
                    && a.schema[i].data_type.name == b.schema[i].data_type.name
                    && a.schema[i].nullable == b.schema[i].nullable
        },
{
    let (x, y) = (schema_key(a.schema), schema_key(b.schema));
    if x == y {
        assert(x.len() == y.len());
        assert forall|i: int| 0 <= i < a.schema.len() implies (#[trigger] a.schema[i]).name
            == b.schema[i].name && a.schema[i].data_type.name == b.schema[i].data_type.name
            && a.schema[i].nullable == b.schema[i].nullable by {
            assert(x[i] == y[i]);
        }
    } else if a.schema.len() == b.schema.len() && forall|i: int|
        0 <= i < a.schema.len() ==> (#[trigger] a.schema[i]).name == b.schema[i].name
            && a.schema[i].data_type.name == b.schema[i].data_type.name && a.schema[i].nullable
            == b.schema[i].nullable {
        assert(x =~= y);
    }
}

} // verus!
