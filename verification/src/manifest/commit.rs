//! Publishing a manifest version: the pointer file and what is written before
//! it.

use vstd::prelude::*;
use vstd::utf8::{decode_utf8, encode_utf8, valid_utf8};

use crate::error::{CommitError, StorageError};
use crate::lex::bytes_copy;
use crate::manifest::avro::avro_written;
use crate::manifest::list_dto::hash_of_bytes;
use crate::manifest::part::{
    blake3_digest, decompress, encode, part_bytes, part_datum, reads_back, ContentHash,
    ManifestPart, ManifestPartView, PartId, FORMAT_VERSION,
};
use crate::text::{
    chars_of, char_views, dec_text, dec_text_round_trip, digits_are_listed_by_value, find_char,
    hex_pair_value, hex_parsed, hex_text,
    hex_text_round_trip, is_line, lemma_position, lemma_position_is, lines, lines_of_line,
    listed_before, padded_text, padded_text_reads_back, parse_hex, parse_u64, position, push_dec, push_hex, push_padded, quoted,
    quoted_text, split_lines, string_of, u64_parse_message, u64_parsed, u64_text_round_trip, until,
    utf8_error_message, utf8_text,
};

verus! {

/// Where the pointer file stands.
pub const POINTER_PATH: &'static str = "_supertable/current";

/// Where manifest lists stand.
pub const MANIFEST_LISTS_DIR: &'static str = "manifest-lists";

/// Where manifest parts stand.
pub const MANIFEST_PARTS_DIR: &'static str = "manifests";

// ---------------------------------------------------------------- names

/// The name of the list of a version.
pub open spec fn list_uri_text(manifest_id: u64) -> Seq<char> {
    MANIFEST_LISTS_DIR@ + "/list-"@ + padded_text(manifest_id as nat, 6) + ".json"@
}

/// The name of the part with a hash.
pub open spec fn part_uri_text(content_hash: Seq<u8>) -> Seq<char> {
    MANIFEST_PARTS_DIR@ + "/part-"@ + hex_text(content_hash) + ".avro.zst"@
}

/// The name of the list of a version, with at least six digits.
pub fn list_uri(manifest_id: u64) -> (r: String)
    ensures
        r@ == list_uri_text(manifest_id),
{
    let mut s = MANIFEST_LISTS_DIR.to_string();
    s.append("/list-");
    push_padded(&mut s, manifest_id, 6);
    s.append(".json");
    s
}

/// The name of the part with a hash: the same bytes have the same name.
pub fn part_uri(content_hash: &ContentHash) -> (r: String)
    ensures
        r@ == part_uri_text(content_hash@),
{
    let mut s = MANIFEST_PARTS_DIR.to_string();
    s.append("/part-");
    push_hex(&mut s, content_hash.0.as_slice());
    s.append(".avro.zst");
    s
}

// ---------------------------------------------------------------- pointer file

/// The pointer file: which manifest version is current.
#[derive(Debug)]
pub struct PointerFile {
    pub manifest_id: u64,
    pub manifest_list_uri: String,
    pub content_hash: ContentHash,
}

pub struct PointerFileView {
    pub manifest_id: u64,
    pub manifest_list_uri: Seq<char>,
    pub content_hash: Seq<u8>,
}

impl View for PointerFile {
    type V = PointerFileView;

    open spec fn view(&self) -> PointerFileView {
        PointerFileView {
            manifest_id: self.manifest_id,
            manifest_list_uri: self.manifest_list_uri@,
            content_hash: self.content_hash@,
        }
    }
}

/// The text of a pointer file.
pub open spec fn pointer_text(p: PointerFileView) -> Seq<char> {
    "manifest_id="@ + dec_text(p.manifest_id as nat) + "\nmanifest_list_uri="@ + p.manifest_list_uri
        + "\ncontent_hash=blake3:"@ + hex_text(p.content_hash) + "\n"@
}

/// What has been read of a pointer file.
pub struct PointerFields {
    pub manifest_id: Option<u64>,
    pub manifest_list_uri: Option<Seq<char>>,
    pub content_hash: Option<Seq<u8>>,
}

/// The hash after the scheme, or what is wrong with it.
pub open spec fn hash_value_parsed(value: Seq<char>) -> Result<Seq<u8>, Seq<char>> {
    let n = "blake3:"@.len() as int;
    let hex = value.skip(n);
    if !(n <= value.len() && value.take(n) == "blake3:"@) {
        Err("content_hash missing 'blake3:' prefix: "@ + value)
    } else if encode_utf8(hex).len() != 64 {
        Err("content_hash hex must be 64 chars; got "@ + dec_text(encode_utf8(hex).len()))
    } else if !(hex.len() == 64 && hex_parsed(hex) is Some) {
        Err("content_hash hex: "@ + hex)
    } else {
        Ok(hex_parsed(hex)->0)
    }
}

/// The effect of one line: a key, `=` and a value. Empty lines and unknown keys
/// have none.
pub open spec fn line_parsed(f: PointerFields, line: Seq<char>) -> Result<PointerFields, Seq<char>> {
    let n = position(line, '=');
    let key = line.take(n);
    let value = line.skip(n + 1);
    if line.len() == 0 {
        Ok(f)
    } else if n >= line.len() {
        Err("no '=' in line: "@ + quoted(line))
    } else if key == "manifest_id"@ {
        match u64_parsed(value) {
            Some(id) => Ok(PointerFields { manifest_id: Some(id), ..f }),
            None => Err("manifest_id: "@ + u64_parse_message(value)),
        }
    } else if key == "manifest_list_uri"@ {
        Ok(PointerFields { manifest_list_uri: Some(value), ..f })
    } else if key == "content_hash"@ {
        match hash_value_parsed(value) {
            Ok(h) => Ok(PointerFields { content_hash: Some(h), ..f }),
            Err(m) => Err(m),
        }
    } else {
        Ok(f)
    }
}

/// The effect of lines, or the first fault among them.
pub open spec fn lines_parsed(f: PointerFields, s: Seq<Seq<char>>) -> Result<
    PointerFields,
    Seq<char>,
>
    decreases s.len(),
{
    if s.len() == 0 {
        Ok(f)
    } else {
        match line_parsed(f, s[0]) {
            Err(m) => Err(m),
            Ok(g) => lines_parsed(g, s.skip(1)),
        }
    }
}

/// Before the first line.
pub open spec fn no_fields() -> PointerFields {
    PointerFields { manifest_id: None, manifest_list_uri: None, content_hash: None }
}

/// The pointer of the fields, or which one is missing.
pub open spec fn fields_complete(f: PointerFields) -> Result<PointerFileView, Seq<char>> {
    match (f.manifest_id, f.manifest_list_uri, f.content_hash) {
        (None, _, _) => Err("missing manifest_id"@),
        (_, None, _) => Err("missing manifest_list_uri"@),
        (_, _, None) => Err("missing content_hash"@),
        (Some(id), Some(uri), Some(hash)) => Ok(
            PointerFileView { manifest_id: id, manifest_list_uri: uri, content_hash: hash },
        ),
    }
}

/// The pointer file that bytes hold, or what is wrong with them.
pub open spec fn pointer_parsed(bytes: Seq<u8>) -> Result<PointerFileView, Seq<char>> {
    if !valid_utf8(bytes) {
        Err("not utf-8: "@ + utf8_error_message(bytes))
    } else {
        match lines_parsed(no_fields(), lines(decode_utf8(bytes))) {
            Err(m) => Err(m),
            Ok(f) => fields_complete(f),
        }
    }
}

struct Fields {
    manifest_id: Option<u64>,
    manifest_list_uri: Option<String>,
    content_hash: Option<ContentHash>,
}

impl View for Fields {
    type V = PointerFields;

    closed spec fn view(&self) -> PointerFields {
        PointerFields {
            manifest_id: self.manifest_id,
            manifest_list_uri: match self.manifest_list_uri {
                Some(s) => Some(s@),
                None => None,
            },
            content_hash: match self.content_hash {
                Some(h) => Some(h@),
                None => None,
            },
        }
    }
}

fn with_text(text: &str, s: &[char]) -> (r: String)
    ensures
        r@ == text@ + s@,
{
    let mut out = text.to_string();
    out.append(string_of(s).as_str());
    out
}

fn same_chars(s: &[char], t: &str) -> (r: bool)
    ensures
        r == (s@ == t@),
{
    let u = chars_of(t);
    if s.len() != u.len() {
        return false;
    }
    let mut i: usize = 0;
    while i < s.len()
        invariant
            u@ == t@,
            s@.len() == u@.len(),
            i <= s@.len(),
            forall|k: int| 0 <= k < i ==> s@[k] == u@[k],
        decreases s@.len() - i,
    {
        if s[i] != u[i] {
            return false;
        }
        i = i + 1;
    }
    assert(s@ =~= u@);
    true
}

fn parse_hash_value(value: &[char]) -> (r: Result<ContentHash, String>)
    ensures
        match r {
            Ok(h) => hash_value_parsed(value@) == Ok::<Seq<u8>, Seq<char>>(h@),
            Err(m) => hash_value_parsed(value@) == Err::<Seq<u8>, Seq<char>>(m@),
        },
{
    let n: usize = chars_of("blake3:").len();
    if value.len() < n || !same_chars(vstd::slice::slice_subrange(value, 0, n), "blake3:") {
        proof {
            if n <= value@.len() {
                assert(value@.subrange(0, n as int) =~= value@.take(n as int));
            }
        }
        return Err(with_text("content_hash missing 'blake3:' prefix: ", value));
    }
    let hex = vstd::slice::slice_subrange(value, n, value.len());
    proof {
        assert(value@.subrange(0, n as int) =~= value@.take(n as int));
        assert(hex@ =~= value@.skip(n as int));
    }
    let len: usize = string_of(hex).as_str().as_bytes().len();
    if len != 64 {
        let mut m = "content_hash hex must be 64 chars; got ".to_string();
        push_dec(&mut m, len as u128);
        return Err(m);
    }
    if hex.len() != 64 {
        return Err(with_text("content_hash hex: ", hex));
    }
    match parse_hex(hex) {
        Some(bytes) => Ok(hash_of_bytes(bytes.as_slice())),
        None => Err(with_text("content_hash hex: ", hex)),
    }
}

fn parse_line(f: Fields, line: &[char]) -> (r: Result<Fields, String>)
    ensures
        match r {
            Ok(g) => line_parsed(f@, line@) == Ok::<PointerFields, Seq<char>>(g@),
            Err(m) => line_parsed(f@, line@) == Err::<PointerFields, Seq<char>>(m@),
        },
{
    if line.len() == 0 {
        return Ok(f);
    }
    proof {
        lemma_position(line@, '=');
    }
    let n: usize = find_char(line, '=');
    if n >= line.len() {
        let mut m = "no '=' in line: ".to_string();
        m.append(quoted_text(string_of(line).as_str()).as_str());
        return Err(m);
    }
    let key = vstd::slice::slice_subrange(line, 0, n);
    let value = vstd::slice::slice_subrange(line, n + 1, line.len());
    proof {
        assert(key@ =~= line@.take(n as int));
        assert(value@ =~= line@.skip(n + 1));
    }
    if same_chars(key, "manifest_id") {
        match parse_u64(string_of(value).as_str()) {
            Ok(id) => Ok(
                Fields {
                    manifest_id: Some(id),
                    manifest_list_uri: f.manifest_list_uri,
                    content_hash: f.content_hash,
                },
            ),
            Err(e) => {
                let mut m = "manifest_id: ".to_string();
                m.append(e.as_str());
                Err(m)
            },
        }
    } else if same_chars(key, "manifest_list_uri") {
        Ok(
            Fields {
                manifest_id: f.manifest_id,
                manifest_list_uri: Some(string_of(value)),
                content_hash: f.content_hash,
            },
        )
    } else if same_chars(key, "content_hash") {
        match parse_hash_value(value) {
            Ok(h) => Ok(
                Fields {
                    manifest_id: f.manifest_id,
                    manifest_list_uri: f.manifest_list_uri,
                    content_hash: Some(h),
                },
            ),
            Err(m) => Err(m),
        }
    } else {
        Ok(f)
    }
}

fn parse_pointer(bytes: &[u8]) -> (r: Result<PointerFile, String>)
    ensures
        match r {
            Ok(p) => pointer_parsed(bytes@) == Ok::<PointerFileView, Seq<char>>(p@),
            Err(m) => pointer_parsed(bytes@) == Err::<PointerFileView, Seq<char>>(m@),
        },
{
    let text = match utf8_text(bytes) {
        Ok(t) => t,
        Err(e) => {
            let mut m = "not utf-8: ".to_string();
            m.append(e.as_str());
            return Err(m);
        },
    };
    proof {
        vstd::utf8::encode_utf8_decode_utf8(text@);
    }
    let all = split_lines(chars_of(text.as_str()).as_slice());
    let ghost v = char_views(all@);
    let mut f = Fields { manifest_id: None, manifest_list_uri: None, content_hash: None };
    let mut i: usize = 0;
    proof {
        assert(v.skip(0) =~= v);
        assert(f@ == no_fields());
    }
    while i < all.len()
        invariant
            i <= all@.len(),
            v == char_views(all@),
            valid_utf8(bytes@),
            v == lines(decode_utf8(bytes@)),
            lines_parsed(no_fields(), v) == lines_parsed(f@, v.skip(i as int)),
        decreases all@.len() - i,
    {
        proof {
            assert(v.skip(i as int)[0] == all@[i as int]@);
            assert(v.skip(i as int).skip(1) =~= v.skip(i as int + 1));
        }
        f = match parse_line(f, all[i].as_slice()) {
            Ok(g) => g,
            Err(m) => return Err(m),
        };
        i = i + 1;
    }
    let manifest_id = match f.manifest_id {
        Some(x) => x,
        None => return Err("missing manifest_id".to_string()),
    };
    let manifest_list_uri = match f.manifest_list_uri {
        Some(x) => x,
        None => return Err("missing manifest_list_uri".to_string()),
    };
    let content_hash = match f.content_hash {
        Some(x) => x,
        None => return Err("missing content_hash".to_string()),
    };
    Ok(PointerFile { manifest_id, manifest_list_uri, content_hash })
}

impl PointerFile {
    /// The bytes of the pointer file.
    pub fn to_bytes(&self) -> (r: Vec<u8>)
        ensures
            r@ == encode_utf8(pointer_text(self@)),
    {
        let mut s = "manifest_id=".to_string();
        push_dec(&mut s, self.manifest_id as u128);
        s.append("\nmanifest_list_uri=");
        s.append(self.manifest_list_uri.as_str());
        s.append("\ncontent_hash=blake3:");
        push_hex(&mut s, self.content_hash.0.as_slice());
        s.append("\n");
        bytes_copy(s.as_str().as_bytes())
    }

    /// The pointer file that bytes hold.
    pub fn from_bytes(bytes: &[u8]) -> (r: Result<Self, CommitError>)
        ensures
            match r {
                Ok(p) => pointer_parsed(bytes@) == Ok::<PointerFileView, Seq<char>>(p@),
                Err(e) => e matches CommitError::PointerParse(m) && pointer_parsed(bytes@) == Err::<
                    PointerFileView,
                    Seq<char>,
                >(m@),
            },
    {
        match parse_pointer(bytes) {
            Ok(p) => Ok(p),
            Err(m) => Err(CommitError::PointerParse(m)),
        }
    }
}

/// The three lines of a pointer file.
pub open spec fn pointer_lines(p: PointerFileView) -> Seq<Seq<char>> {
    seq![
        "manifest_id"@ + seq!['='] + dec_text(p.manifest_id as nat),
        "manifest_list_uri"@ + seq!['='] + p.manifest_list_uri,
        "content_hash"@ + seq!['='] + ("blake3:"@ + hex_text(p.content_hash)),
    ]
}

proof fn lemma_pointer_text(p: PointerFileView)
    ensures
        pointer_text(p) == pointer_lines(p)[0] + seq!['\n'] + (pointer_lines(p)[1] + seq!['\n'] + (
        pointer_lines(p)[2] + seq!['\n'] + Seq::<char>::empty())),
{
    let (k1, k2, k3) = ("manifest_id"@, "manifest_list_uri"@, "content_hash"@);
    reveal_strlit("manifest_id=");
    reveal_strlit("manifest_id");
    reveal_strlit("\nmanifest_list_uri=");
    reveal_strlit("manifest_list_uri");
    reveal_strlit("\ncontent_hash=blake3:");
    reveal_strlit("content_hash");
    reveal_strlit("blake3:");
    reveal_strlit("\n");
    assert("manifest_id="@ =~= k1 + seq!['=']);
    assert("\nmanifest_list_uri="@ =~= seq!['\n'] + k2 + seq!['=']);
    assert("\ncontent_hash=blake3:"@ =~= seq!['\n'] + k3 + seq!['='] + "blake3:"@);
    assert("\n"@ =~= seq!['\n']);
    assert(pointer_text(p) =~= pointer_lines(p)[0] + seq!['\n'] + (pointer_lines(p)[1]
        + seq!['\n'] + (pointer_lines(p)[2] + seq!['\n'] + Seq::<char>::empty())));
}

proof fn lemma_pointer_lines(p: PointerFileView)
    requires
        is_line(p.manifest_list_uri),
        p.content_hash.len() == 32,
    ensures
        lines(pointer_text(p)) == pointer_lines(p),
{
    let (l1, l2, l3) = (pointer_lines(p)[0], pointer_lines(p)[1], pointer_lines(p)[2]);
    let id = dec_text(p.manifest_id as nat);
    let hex = hex_text(p.content_hash);
    dec_text_round_trip(p.manifest_id as nat);
    hex_text_round_trip(p.content_hash);
    lemma_pointer_text(p);
    lemma_plain_keys();
    assert(is_line(l1)) by {
        assert(l1.last() == id.last());
        assert(id.last() == id[id.len() - 1]);
    }
    assert(is_line(l2)) by {
        if p.manifest_list_uri.len() > 0 {
            assert(l2.last() == p.manifest_list_uri.last());
        } else {
            assert(l2.last() == '=');
        }
    }
    assert(is_line(l3)) by {
        lemma_hex_line(p.content_hash);
        assert(l3.last() == hex.last());
    }
    let e = Seq::<char>::empty();
    lines_of_line(l3, e);
    lines_of_line(l2, l3 + seq!['\n'] + e);
    lines_of_line(l1, l2 + seq!['\n'] + (l3 + seq!['\n'] + e));
    assert(lines(e) =~= Seq::empty());
    assert(lines(pointer_text(p)) =~= pointer_lines(p));
}

proof fn lemma_hex_line(h: Seq<u8>)
    ensures
        forall|k: int|
            0 <= k < hex_text(h).len() ==> #[trigger] hex_text(h)[k] != '\n' && hex_text(h)[k]
                != '\r',
{
}

proof fn lemma_three_lines(
    f0: PointerFields,
    f1: PointerFields,
    f2: PointerFields,
    f3: PointerFields,
    l1: Seq<char>,
    l2: Seq<char>,
    l3: Seq<char>,
)
    requires
        line_parsed(f0, l1) == Ok::<PointerFields, Seq<char>>(f1),
        line_parsed(f1, l2) == Ok::<PointerFields, Seq<char>>(f2),
        line_parsed(f2, l3) == Ok::<PointerFields, Seq<char>>(f3),
    ensures
        lines_parsed(f0, seq![l1, l2, l3]) == Ok::<PointerFields, Seq<char>>(f3),
{
    let all = seq![l1, l2, l3];
    assert(all.skip(1) =~= seq![l2, l3]);
    assert(all.skip(1).skip(1) =~= seq![l3]);
    assert(all.skip(1).skip(1).skip(1) =~= Seq::empty());
    assert(lines_parsed(f3, all.skip(1).skip(1).skip(1)) == Ok::<PointerFields, Seq<char>>(f3));
    assert(lines_parsed(f2, all.skip(1).skip(1)) == Ok::<PointerFields, Seq<char>>(f3));
    assert(lines_parsed(f1, all.skip(1)) == Ok::<PointerFields, Seq<char>>(f3));
}

/// A pointer file reads back as it was written, if its list's name is one line.
pub proof fn pointer_round_trip(p: PointerFileView)
    requires
        is_line(p.manifest_list_uri),
        p.content_hash.len() == 32,
    ensures
        pointer_parsed(encode_utf8(pointer_text(p))) == Ok::<PointerFileView, Seq<char>>(p),
{
    let (l1, l2, l3) = (pointer_lines(p)[0], pointer_lines(p)[1], pointer_lines(p)[2]);
    let hex = hex_text(p.content_hash);
    let v3 = "blake3:"@ + hex;
    lemma_pointer_lines(p);
    lemma_plain_keys();
    hex_text_round_trip(p.content_hash);
    lemma_hex_ascii(hex);
    lemma_split("manifest_id"@, dec_text(p.manifest_id as nat));
    lemma_split("manifest_list_uri"@, p.manifest_list_uri);
    lemma_split("content_hash"@, v3);
    u64_text_round_trip(p.manifest_id);
    assert("manifest_id"@.len() == 11) by {
        reveal_strlit("manifest_id");
    }
    assert("manifest_list_uri"@.len() == 17) by {
        reveal_strlit("manifest_list_uri");
    }
    assert("content_hash"@.len() == 12) by {
        reveal_strlit("content_hash");
    }
    assert(v3.take("blake3:"@.len() as int) =~= "blake3:"@);
    assert(v3.skip("blake3:"@.len() as int) =~= hex);
    let f0 = no_fields();
    let f1 = PointerFields { manifest_id: Some(p.manifest_id), ..f0 };
    let f2 = PointerFields { manifest_list_uri: Some(p.manifest_list_uri), ..f1 };
    let f3 = PointerFields { content_hash: Some(p.content_hash), ..f2 };
    assert(line_parsed(f0, l1) == Ok::<PointerFields, Seq<char>>(f1));
    assert(line_parsed(f1, l2) == Ok::<PointerFields, Seq<char>>(f2));
    assert(line_parsed(f2, l3) == Ok::<PointerFields, Seq<char>>(f3));
    lemma_three_lines(f0, f1, f2, f3, l1, l2, l3);
    assert(pointer_lines(p) =~= seq![l1, l2, l3]);
    vstd::utf8::encode_utf8_valid_utf8(pointer_text(p));
    vstd::utf8::encode_utf8_decode_utf8(pointer_text(p));
}

proof fn lemma_plain_keys()
    ensures
        forall|k: int|
            0 <= k < "manifest_id"@.len() ==> #[trigger] "manifest_id"@[k] != '=' && "manifest_id"@[k]
                != '\n',
        forall|k: int|
            0 <= k < "manifest_list_uri"@.len() ==> #[trigger] "manifest_list_uri"@[k] != '='
                && "manifest_list_uri"@[k] != '\n',
        forall|k: int|
            0 <= k < "content_hash"@.len() ==> #[trigger] "content_hash"@[k] != '='
                && "content_hash"@[k] != '\n',
        forall|k: int| 0 <= k < "blake3:"@.len() ==> #[trigger] "blake3:"@[k] != '\n',
        "blake3:"@.len() == 7,
{
    reveal_strlit("manifest_id");
    reveal_strlit("manifest_list_uri");
    reveal_strlit("content_hash");
    reveal_strlit("blake3:");
}

proof fn lemma_split(key: Seq<char>, value: Seq<char>)
    requires
        forall|k: int| 0 <= k < key.len() ==> #[trigger] key[k] != '=',
    ensures
        position(key + seq!['='] + value, '=') == key.len(),
        (key + seq!['='] + value).take(key.len() as int) == key,
        (key + seq!['='] + value).skip(key.len() as int + 1) == value,
{
    let line = key + seq!['='] + value;
    lemma_position_is(line, '=', key.len() as int);
    assert(line.take(key.len() as int) =~= key);
    assert(line.skip(key.len() as int + 1) =~= value);
}

/// Characters below 128 take one byte each.
proof fn lemma_hex_ascii(s: Seq<char>)
    requires
        forall|i: int| 0 <= i < s.len() ==> 0 <= #[trigger] s[i] as int && (s[i] as int) < 128,
    ensures
        encode_utf8(s).len() == s.len(),
{
    assert forall|i: int| 0 <= i < s.len() implies '\0' <= #[trigger] s[i] <= '\u{7f}' by {
        assert(0 <= s[i] as int && (s[i] as int) < 128);
    }
    vstd::utf8::is_ascii_chars_encode_utf8(s);
}

proof fn lemma_fixed_names()
    ensures
        is_line(MANIFEST_LISTS_DIR@),
        is_line("/list-"@),
        is_line(".json"@),
        ".json"@.len() == 5,
{
    reveal_strlit("manifest-lists");
    reveal_strlit("/list-");
    reveal_strlit(".json");
}

/// The name of a list is one line, so the pointer to it can be read back.
pub proof fn list_uri_is_line(manifest_id: u64)
    ensures
        is_line(list_uri_text(manifest_id)),
{
    lemma_fixed_names();
    dec_text_round_trip(manifest_id as nat);
    let s = list_uri_text(manifest_id);
    assert(s.last() == ".json"@.last());
    assert forall|k: int| 0 <= k < s.len() implies s[k] != '\n' by {
        let a = MANIFEST_LISTS_DIR@ + "/list-"@;
        let b = a + padded_text(manifest_id as nat, 6);
        if k < a.len() {
            if k < MANIFEST_LISTS_DIR@.len() {
                assert(s[k] == MANIFEST_LISTS_DIR@[k]);
            } else {
                assert(s[k] == "/list-"@[k - MANIFEST_LISTS_DIR@.len()]);
            }
        } else if k < b.len() {
            assert(s[k] == padded_text(manifest_id as nat, 6)[k - a.len()]);
        } else {
            assert(s[k] == ".json"@[k - b.len()]);
        }
    }
}

/// Up to a million versions, the names of lists are listed in the order of the
/// versions.
pub proof fn list_uris_ascend(a: u64, b: u64)
    requires
        a < b < 1_000_000,
    ensures
        listed_before(list_uri_text(a), list_uri_text(b)),
{
    let (s, t) = (padded_text(a as nat, 6), padded_text(b as nat, 6));
    assert(dec_text(a as nat).len() <= 6 && dec_text(b as nat).len() <= 6) by {
        reveal_with_fuel(dec_text, 7);
    }
    padded_text_reads_back(a as nat, 6);
    padded_text_reads_back(b as nat, 6);
    digits_are_listed_by_value(s, t);
    let k = choose|k: int|
        #![trigger s.take(k)]
        0 <= k < s.len() && k < t.len() && s.take(k) == t.take(k) && s[k] < t[k];
    let front = MANIFEST_LISTS_DIR@ + "/list-"@;
    let n = front.len() as int + k;
    assert(list_uri_text(a).take(n) =~= front + s.take(k));
    assert(list_uri_text(b).take(n) =~= front + t.take(k));
    assert(list_uri_text(a)[n] == s[k]);
    assert(list_uri_text(b)[n] == t[k]);
}

/// Parts with the same hash have the same name, and others have other names.
pub proof fn part_uris_tell_hashes_apart(a: Seq<u8>, b: Seq<u8>)
    ensures
        part_uri_text(a) == part_uri_text(b) <==> a == b,
{
    if part_uri_text(a) == part_uri_text(b) {
        let front = (MANIFEST_PARTS_DIR@ + "/part-"@).len() as int;
        let back = ".avro.zst"@.len() as int;
        let end = part_uri_text(a).len() - back;
        assert(part_uri_text(a).subrange(front, end) =~= hex_text(a));
        assert(part_uri_text(b).subrange(front, end) =~= hex_text(b));
        hex_text_round_trip(a);
        hex_text_round_trip(b);
    }
}

// ---------------------------------------------------------------- writing

/// What is known of a written part.
#[derive(Debug)]
pub struct PartWriteResult {
    pub part_id: PartId,
    pub uri: String,
    pub content_hash: ContentHash,
    pub size_bytes_compressed: u64,
    pub size_bytes_uncompressed: u64,
}

/// What is known of a written list.
#[derive(Debug)]
pub struct ListWriteResult {
    pub uri: String,
    pub content_hash: ContentHash,
    pub size_bytes: u64,
}

/// That a write stands for these bytes of this part.
pub open spec fn describes_part(
    w: PartWriteResult,
    part: ManifestPartView,
    zstd_level: i32,
) -> bool {
    let bytes = part_bytes(part, zstd_level);
    &&& w.part_id == part.part_id
    &&& w.content_hash@ == blake3_digest(bytes)
    &&& w.uri@ == part_uri_text(blake3_digest(bytes))
    &&& w.size_bytes_compressed == bytes.len()
    &&& w.size_bytes_uncompressed == avro_written(part_datum(part)).len()
}

/// The bytes of a part, and the name under which they are to be created.
pub fn prepare_manifest_part(part: &ManifestPart, zstd_level: i32) -> (r: (
    PartWriteResult,
    Vec<u8>,
))
    ensures
        describes_part(r.0, part@, zstd_level),
        r.1@ == part_bytes(part@, zstd_level),
        until(part.format_version@, '.') == until(FORMAT_VERSION@, '.') ==> reads_back(
            part@,
            r.1@,
        ),
{
    let compressed = encode(part, zstd_level);
    let content_hash = ContentHash::of(compressed.as_slice());
    let uri = part_uri(&content_hash);
    let uncompressed: usize = match decompress(compressed.as_slice()) {
        Ok(b) => b.len(),
        Err(_) => 0,
    };
    let size: usize = compressed.len();
    let result = PartWriteResult {
        part_id: part.part_id,
        uri,
        content_hash,
        size_bytes_compressed: size as u64,
        size_bytes_uncompressed: uncompressed as u64,
    };
    (result, compressed)
}

/// The result of creating a part: that there already is one of the name is no
/// fault, since it has the same bytes.
pub open spec fn part_outcome(
    outcome: Result<(), StorageError>,
    prepared: PartWriteResult,
) -> Result<PartWriteResult, CommitError> {
    match outcome {
        Ok(()) => Ok(prepared),
        Err(StorageError::PreconditionFailed { .. }) => Ok(prepared),
        Err(e) => Err(CommitError::Storage(e)),
    }
}

/// The result of creating a part.
pub fn finish_part_write(outcome: Result<(), StorageError>, prepared: PartWriteResult) -> (r: Result<
    PartWriteResult,
    CommitError,
>)
    ensures
        r == part_outcome(outcome, prepared),
{
    match outcome {
        Ok(()) => Ok(prepared),
        Err(StorageError::PreconditionFailed { .. }) => Ok(prepared),
        Err(e) => Err(CommitError::Storage(e)),
    }
}

/// The name under which the bytes of a list are to be created, and their hash.
pub fn prepare_manifest_list(manifest_id: u64, json: &[u8]) -> (r: ListWriteResult)
    ensures
        r.uri@ == list_uri_text(manifest_id),
        r.content_hash@ == blake3_digest(json@),
        r.size_bytes == json@.len(),
{
    let size: usize = json.len();
    ListWriteResult {
        uri: list_uri(manifest_id),
        content_hash: ContentHash::of(json),
        size_bytes: size as u64,
    }
}

/// What reading the pointer file gives: none where there is no file.
pub fn finish_pointer_read(outcome: Result<Vec<u8>, StorageError>) -> (r: Result<
    Option<PointerFile>,
    CommitError,
>)
    ensures
        match outcome {
            Ok(bytes) => match pointer_parsed(bytes@) {
                Ok(p) => r matches Ok(Some(q)) && q@ == p,
                Err(m) => r matches Err(CommitError::PointerParse(s)) && s@ == m,
            },
            Err(StorageError::NotFound { .. }) => r == Ok::<Option<PointerFile>, CommitError>(None),
            Err(e) => r == Err::<Option<PointerFile>, CommitError>(CommitError::Storage(e)),
        },
{
    match outcome {
        Ok(bytes) => match PointerFile::from_bytes(bytes.as_slice()) {
            Ok(p) => Ok(Some(p)),
            Err(e) => Err(e),
        },
        Err(StorageError::NotFound { .. }) => Ok(None),
        Err(e) => Err(CommitError::Storage(e)),
    }
}

/// How the pointer file is to be written: created where there was none before,
/// replaced where its tag is still the expected one.
#[derive(Clone, Copy, PartialEq, Eq, Structural, Debug)]
pub enum PointerWrite {
    Create,
    ReplaceIfMatch,
}

/// How the pointer file is to be written.
pub fn pointer_write(has_prev_etag: bool) -> (r: PointerWrite)
    ensures
        r == if has_prev_etag {
            PointerWrite::ReplaceIfMatch
        } else {
            PointerWrite::Create
        },
{
    if has_prev_etag {
        PointerWrite::ReplaceIfMatch
    } else {
        PointerWrite::Create
    }
}

/// The result of writing the pointer file: a failed precondition means that
/// another writer was first.
pub open spec fn pointer_outcome(outcome: Result<(), StorageError>) -> Result<(), CommitError> {
    match outcome {
        Ok(()) => Ok(()),
        Err(StorageError::PreconditionFailed { .. }) => Err(CommitError::WriteContentionExhausted),
        Err(e) => Err(CommitError::Storage(e)),
    }
}

/// The result of writing the pointer file.
pub fn finish_pointer_write(outcome: Result<(), StorageError>) -> (r: Result<(), CommitError>)
    ensures
        r == pointer_outcome(outcome),
{
    match outcome {
        Ok(()) => Ok(()),
        Err(StorageError::PreconditionFailed { .. }) => Err(CommitError::WriteContentionExhausted),
        Err(e) => Err(CommitError::Storage(e)),
    }
}

/// A failed precondition of a list or a part is contention, too.
pub open spec fn contention(e: CommitError) -> CommitError {
    match e {
        CommitError::Storage(StorageError::PreconditionFailed { .. }) =>
            CommitError::WriteContentionExhausted,
        other => other,
    }
}

/// A failed precondition of a list or a part is contention, too.
pub fn translate_contention(e: CommitError) -> (r: CommitError)
    ensures
        r == contention(e),
{
    match e {
        CommitError::Storage(StorageError::PreconditionFailed { .. }) =>
            CommitError::WriteContentionExhausted,
        other => other,
    }
}

/// Whether a result is a failure.
pub open spec fn failed(r: Result<PartWriteResult, CommitError>) -> bool {
    r is Err
}

/// The first failure among the results of writing parts.
pub open spec fn first_failure(parts: Seq<Result<PartWriteResult, CommitError>>) -> Option<
    CommitError,
>
    decreases parts.len(),
{
    if parts.len() == 0 {
        None
    } else if failed(parts[0]) {
        Some(parts[0]->Err_0)
    } else {
        first_failure(parts.skip(1))
    }
}

proof fn lemma_first_failure(parts: Seq<Result<PartWriteResult, CommitError>>, n: int)
    requires
        0 <= n <= parts.len(),
        forall|k: int| 0 <= k < n ==> !failed(#[trigger] parts[k]),
        n < parts.len() ==> failed(parts[n]),
    ensures
        n < parts.len() ==> first_failure(parts) == Some(parts[n]->Err_0),
        n == parts.len() ==> first_failure(parts) is None,
    decreases n,
{
    if n > 0 {
        assert(!failed(parts[0]));
        assert forall|k: int| 0 <= k < n - 1 implies !failed(#[trigger] parts.skip(1)[k]) by {
            assert(parts.skip(1)[k] == parts[k + 1]);
        }
        lemma_first_failure(parts.skip(1), n - 1);
    }
}

/// The pointer to publish once the list and the parts have been written: only
/// if all of them were. The list's failure comes before those of the parts.
pub fn pointer_to_publish(
    manifest_id: u64,
    list: Result<ListWriteResult, CommitError>,
    parts: Vec<Result<PartWriteResult, CommitError>>,
) -> (r: Result<PointerFile, CommitError>)
    ensures
        match (list, first_failure(parts@)) {
            (Err(e), _) => r == Err::<PointerFile, CommitError>(contention(e)),
            (Ok(_), Some(e)) => r == Err::<PointerFile, CommitError>(contention(e)),
            (Ok(l), None) => r matches Ok(p) && p.manifest_id == manifest_id
                && p.manifest_list_uri@ == l.uri@ && p.content_hash@ == l.content_hash@,
        },
{
    let list = match list {
        Ok(l) => l,
        Err(e) => return Err(translate_contention(e)),
    };
    let mut parts = parts;
    let mut i: usize = 0;
    while i < parts.len() && parts[i].is_ok()
        invariant
            i <= parts@.len(),
            forall|k: int| 0 <= k < i ==> !failed(#[trigger] parts@[k]),
        decreases parts@.len() - i,
    {
        i = i + 1;
    }
    proof {
        lemma_first_failure(parts@, i as int);
    }
    if i < parts.len() {
        if let Err(e) = parts.remove(i) {
            return Err(translate_contention(e));
        }
    }
    Ok(
        PointerFile {
            manifest_id,
            manifest_list_uri: list.uri,
            content_hash: list.content_hash,
        },
    )
}

// ---------------------------------------------------------------- laws

/// The names of the lists of two versions differ.
pub proof fn list_uris_tell_versions_apart(a: u64, b: u64)
    requires
        a != b,
    ensures
        list_uri_text(a) != list_uri_text(b),
{
    if list_uri_text(a) == list_uri_text(b) {
        let front = (MANIFEST_LISTS_DIR@ + "/list-"@).len() as int;
        let end = list_uri_text(a).len() - ".json"@.len();
        assert(list_uri_text(a).subrange(front, end) =~= padded_text(a as nat, 6));
        assert(list_uri_text(b).subrange(front, end) =~= padded_text(b as nat, 6));
        padded_text_reads_back(a as nat, 6);
        padded_text_reads_back(b as nat, 6);
    }
}

/// That a write of parts failed with an error.
pub open spec fn failed_with(r: Result<PartWriteResult, CommitError>, e: CommitError) -> bool {
    r matches Err(x) && x == e
}

/// A version is published only where every part was written; the first failure
/// is told.
pub proof fn all_parts_are_written_first(parts: Seq<Result<PartWriteResult, CommitError>>)
    ensures
        first_failure(parts) is None <==> forall|k: int|
            0 <= k < parts.len() ==> (#[trigger] parts[k]) is Ok,
        first_failure(parts) matches Some(e) ==> exists|k: int|
            0 <= k < parts.len() && failed_with(#[trigger] parts[k], e) && forall|j: int|
                0 <= j < k ==> (#[trigger] parts[j]) is Ok,
    decreases parts.len(),
{
    if parts.len() > 0 {
        let rest = parts.skip(1);
        all_parts_are_written_first(rest);
        if parts[0] is Err {
            assert(failed_with(parts[0], parts[0]->Err_0));
        } else {
            assert forall|k: int| 0 <= k < rest.len() implies #[trigger] rest[k] == parts[k + 1] by {}
            match first_failure(rest) {
                Some(e) => {
                    let k = choose|k: int|
                        0 <= k < rest.len() && failed_with(#[trigger] rest[k], e) && forall|j: int|
                            0 <= j < k ==> (#[trigger] rest[j]) is Ok;
                    assert(failed_with(parts[k + 1], e));
                    assert forall|j: int| 0 <= j < k + 1 implies (#[trigger] parts[j]) is Ok by {
                        if j > 0 {
                            assert(rest[j - 1] is Ok);
                        }
                    }
                },
                None => {
                    assert forall|k: int| 0 <= k < parts.len() implies (#[trigger] parts[k]) is Ok by {
                        if k > 0 {
                            assert(rest[k - 1] is Ok);
                        }
                    }
                },
            }
        }
    }
}

/// Of two writers only the one whose write of the pointer succeeded has
/// published; one that was overtaken, and no other, is told of contention. A
/// part that is there already is as good as written, and what else failed stays
/// a failure of the storage.
pub proof fn only_the_first_writer_publishes(
    outcome: Result<(), StorageError>,
    prepared: PartWriteResult,
)
    ensures
        pointer_outcome(outcome) is Ok <==> outcome is Ok,
        pointer_outcome(outcome) == Err::<(), CommitError>(CommitError::WriteContentionExhausted)
            <==> (outcome matches Err(e) && e is PreconditionFailed),
        part_outcome(outcome, prepared) is Ok <==> (outcome matches Err(e) ==> e
            is PreconditionFailed),
        part_outcome(outcome, prepared) matches Ok(w) ==> w == prepared,
        outcome matches Err(e) ==> (e !is PreconditionFailed ==> {
            &&& pointer_outcome(outcome) == Err::<(), CommitError>(CommitError::Storage(e))
            &&& part_outcome(outcome, prepared) == Err::<PartWriteResult, CommitError>(
                CommitError::Storage(e),
            )
            &&& contention(CommitError::Storage(e)) == CommitError::Storage(e)
        }),
        outcome matches Err(e) ==> (e is PreconditionFailed ==> contention(CommitError::Storage(e))
            == CommitError::WriteContentionExhausted),
{
}

/// A line with a key that is not known changes nothing that was read.
pub proof fn unknown_lines_change_nothing(f: PointerFields, key: Seq<char>, value: Seq<char>)
    requires
        forall|k: int| 0 <= k < key.len() ==> #[trigger] key[k] != '=',
        key != "manifest_id"@,
        key != "manifest_list_uri"@,
        key != "content_hash"@,
    ensures
        line_parsed(f, key + seq!['='] + value) == Ok::<PointerFields, Seq<char>>(f),
        line_parsed(f, Seq::empty()) == Ok::<PointerFields, Seq<char>>(f),
{
    lemma_split(key, value);
}

/// A line without an equals sign, and a version that is no number, make a
/// pointer file that is refused.
pub proof fn broken_lines_are_refused(f: PointerFields, line: Seq<char>, value: Seq<char>)
    requires
        line.len() > 0,
        forall|k: int| 0 <= k < line.len() ==> #[trigger] line[k] != '=',
        u64_parsed(value) is None,
    ensures
        line_parsed(f, line) is Err,
        line_parsed(f, "manifest_id"@ + seq!['='] + value) is Err,
{
    lemma_position(line, '=');
    lemma_plain_keys();
    lemma_split("manifest_id"@, value);
}

/// A line with a known key sets its field, whatever was read before, and leaves
/// the others.
pub proof fn later_lines_win(f: PointerFields, id: u64, uri: Seq<char>, hash: Seq<u8>)
    requires
        hash.len() == 32,
    ensures
        line_parsed(f, "manifest_id"@ + seq!['='] + dec_text(id as nat)) == Ok::<
            PointerFields,
            Seq<char>,
        >(PointerFields { manifest_id: Some(id), ..f }),
        line_parsed(f, "manifest_list_uri"@ + seq!['='] + uri) == Ok::<PointerFields, Seq<char>>(
            PointerFields { manifest_list_uri: Some(uri), ..f },
        ),
        line_parsed(f, "content_hash"@ + seq!['='] + ("blake3:"@ + hex_text(hash))) == Ok::<
            PointerFields,
            Seq<char>,
        >(PointerFields { content_hash: Some(hash), ..f }),
{
    let hex = hex_text(hash);
    let value = "blake3:"@ + hex;
    lemma_plain_keys();
    hex_text_round_trip(hash);
    lemma_hex_ascii(hex);
    lemma_split("manifest_id"@, dec_text(id as nat));
    lemma_split("manifest_list_uri"@, uri);
    lemma_split("content_hash"@, value);
    u64_text_round_trip(id);
    assert("manifest_id"@.len() == 11) by {
        reveal_strlit("manifest_id");
    }
    assert("manifest_list_uri"@.len() == 17) by {
        reveal_strlit("manifest_list_uri");
    }
    assert("content_hash"@.len() == 12) by {
        reveal_strlit("content_hash");
    }
    assert(value.take("blake3:"@.len() as int) =~= "blake3:"@);
    assert(value.skip("blake3:"@.len() as int) =~= hex);
}

/// Lines are read one after the other, and of several faults the first is told.
pub proof fn lines_are_read_in_turn(f: PointerFields, a: Seq<Seq<char>>, b: Seq<Seq<char>>)
    ensures
        match lines_parsed(f, a) {
            Ok(g) => lines_parsed(f, a + b) == lines_parsed(g, b),
            Err(m) => lines_parsed(f, a + b) == Err::<PointerFields, Seq<char>>(m),
        },
    decreases a.len(),
{
    if a.len() == 0 {
        assert(a + b =~= b);
    } else {
        assert((a + b).skip(1) =~= a.skip(1) + b);
        assert((a + b)[0] == a[0]);
        match line_parsed(f, a[0]) {
            Ok(g) => {
                lines_are_read_in_turn(g, a.skip(1), b);
            },
            Err(_) => {},
        }
    }
}

/// A pointer file names a version, a list and a hash; without one of them it is
/// refused.
pub proof fn pointers_need_all_fields(f: PointerFields)
    ensures
        fields_complete(f) is Ok <==> f.manifest_id is Some && f.manifest_list_uri is Some
            && f.content_hash is Some,
        fields_complete(f) matches Ok(p) ==> f == (PointerFields {
            manifest_id: Some(p.manifest_id),
            manifest_list_uri: Some(p.manifest_list_uri),
            content_hash: Some(p.content_hash),
        }),
        f.manifest_id is None ==> fields_complete(f) == Err::<PointerFileView, Seq<char>>(
            "missing manifest_id"@,
        ),
        f.manifest_id is Some && f.manifest_list_uri is None ==> fields_complete(f) == Err::<
            PointerFileView,
            Seq<char>,
        >("missing manifest_list_uri"@),
{
}

/// The text of a hash is the scheme and sixty-four hexadecimal digits; no other
/// is taken.
pub proof fn hashes_are_written_in_digits(value: Seq<char>)
    ensures
        hash_value_parsed(value) is Ok <==> value.len() == 71 && value.take(7) == "blake3:"@
            && hex_parsed(value.skip(7)) is Some,
        hash_value_parsed(value) matches Ok(h) ==> h.len() == 32 && hex_parsed(value.skip(7))
            == Some(h),
{
    lemma_plain_keys();
    let hex = value.skip(7);
    if value.len() == 71 && hex_parsed(hex) is Some {
        assert forall|i: int| 0 <= i < hex.len() implies 0 <= #[trigger] hex[i] as int && (
        hex[i] as int) < 128 by {
            let k = i / 2;
            assert(hex_pair_value(hex[2 * k], hex[2 * k + 1]) is Some);
            assert(i == 2 * k || i == 2 * k + 1);
        }
        lemma_hex_ascii(hex);
    }
}

} // verus!
