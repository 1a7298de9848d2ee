//! Single values in Arrow's stream format.

use std::str::FromStr;
use std::sync::Arc;

use arrow::array::{make_array, ArrayData, RecordBatch};
use arrow::buffer::Buffer;
use arrow::datatypes::{DataType as ArrowType, Field as ArrowField, Schema};
use arrow::ipc::writer::StreamWriter;
use vstd::prelude::*;
use vstd::utf8::encode_utf8;

use crate::bytes::{
    bits_of_i128, le_bytes, le_bytes_round_trip, le_value, lemma_le_bytes_len, lemma_pow256_widths,
    pow256, push_le, twos_complement,
};
use crate::lex::bytes_copy;
use crate::packing::byte_views;
use crate::scalar::{fits, has_order, Scalar, ScalarValue, ScalarView, TypeKind, ValueView};
use crate::text::{dec_text, int_text, push_dec, push_int};

verus! {

/// Arrow's name of a kind that has an order here.
pub open spec fn kind_text(kind: TypeKind) -> Seq<char> {
    match kind {
        TypeKind::Int8 => "Int8"@,
        TypeKind::Int16 => "Int16"@,
        TypeKind::Int32 => "Int32"@,
        TypeKind::Int64 => "Int64"@,
        TypeKind::UInt8 => "UInt8"@,
        TypeKind::UInt16 => "UInt16"@,
        TypeKind::UInt32 => "UInt32"@,
        TypeKind::UInt64 => "UInt64"@,
        TypeKind::Float32 => "Float32"@,
        TypeKind::Float64 => "Float64"@,
        TypeKind::Boolean => "Boolean"@,
        TypeKind::Utf8 => "Utf8"@,
        TypeKind::LargeUtf8 => "LargeUtf8"@,
        TypeKind::Decimal128 { precision, scale } => "Decimal128("@ + dec_text(precision as nat)
            + ", "@ + int_text(scale as int) + ")"@,
        _ => Seq::empty(),
    }
}

/// The bytes of a number of a kind.
pub open spec fn number_width(kind: TypeKind) -> nat {
    match kind {
        TypeKind::Int8 | TypeKind::UInt8 => 1,
        TypeKind::Int16 | TypeKind::UInt16 => 2,
        TypeKind::Int32 | TypeKind::UInt32 | TypeKind::Float32 => 4,
        TypeKind::Int64 | TypeKind::UInt64 | TypeKind::Float64 => 8,
        _ => 16,
    }
}

/// The longest column name that is written: the schema message, which holds it,
/// has to stay below the two gigabytes that the length of a message can say.
pub const NAME_LIMIT: usize = 0x7fff_0000;

/// The buffers of an array of one value: a number in its width, a bit, or
/// offsets and text. None where the value is not one of its kind, such as a text
/// that is too long for offsets of 32 bits.
pub open spec fn value_buffers(name: Seq<char>, kind: TypeKind, v: ValueView) -> Option<
    Seq<Seq<u8>>,
> {
    if !has_order(kind) || !fits(kind, v) || encode_utf8(name).len() > NAME_LIMIT {
        None
    } else {
        match v {
            ValueView::Int(x) => Some(seq![le_bytes(twos_complement(x), number_width(kind))]),
            ValueView::Float(x) => Some(seq![le_bytes(x as nat, number_width(kind))]),
            ValueView::Bool(x) => Some(
                seq![
                    seq![
                        if x {
                            1u8
                        } else {
                            0u8
                        },
                    ],
                ],
            ),
            ValueView::Text(x) => {
                let t = encode_utf8(x);
                if kind is Utf8 {
                    if t.len() > i32::MAX {
                        None
                    } else {
                        Some(seq![le_bytes(0, 4) + le_bytes(t.len(), 4), t])
                    }
                } else {
                    Some(seq![le_bytes(0, 8) + le_bytes(t.len(), 8), t])
                }
            },
        }
    }
}

/// What `StreamWriter` of `arrow` writes of one batch of one nullable column
/// with one row.
pub uninterp spec fn ipc_stream(
    name: Seq<char>,
    type_label: Seq<char>,
    buffers: Seq<Seq<u8>>,
) -> Seq<u8>;

/// `arrow::ipc::writer::StreamWriter`: the stream of a batch of one nullable
/// column, whose single row lies in the given buffers.
#[verifier::external_body]
fn write_stream(name: &str, type_label: &str, buffers: &[Vec<u8>]) -> (r: Vec<u8>)
    requires
        exists|kind: TypeKind, v: ValueView|
            type_label@ == kind_text(kind) && #[trigger] value_buffers(name@, kind, v) == Some(
                byte_views(buffers@),
            ),
    ensures
        r@ == ipc_stream(name@, type_label@, byte_views(buffers@)),
{
    let data_type = ArrowType::from_str(type_label).expect("type name");
    let held: Vec<Buffer> = buffers.iter().map(Buffer::from_slice_ref::<u8, _>).collect();
    let data = ArrayData::builder(data_type.clone()).len(1).buffers(held).build();
    let schema = Arc::new(Schema::new(vec![ArrowField::new(name, data_type, true)]));
    let column = make_array(data.expect("array layout"));
    let batch = RecordBatch::try_new(schema.clone(), vec![column]).expect("schema/array match");
    let mut writer = StreamWriter::try_new(Vec::new(), &schema).expect("ipc writer init");
    writer.write(&batch).expect("ipc write");
    writer.into_inner().expect("ipc finish")
}

fn type_label(kind: TypeKind) -> (r: String)
    ensures
        r@ == kind_text(kind),
{
    match kind {
        TypeKind::Int8 => "Int8".to_string(),
        TypeKind::Int16 => "Int16".to_string(),
        TypeKind::Int32 => "Int32".to_string(),
        TypeKind::Int64 => "Int64".to_string(),
        TypeKind::UInt8 => "UInt8".to_string(),
        TypeKind::UInt16 => "UInt16".to_string(),
        TypeKind::UInt32 => "UInt32".to_string(),
        TypeKind::UInt64 => "UInt64".to_string(),
        TypeKind::Float32 => "Float32".to_string(),
        TypeKind::Float64 => "Float64".to_string(),
        TypeKind::Boolean => "Boolean".to_string(),
        TypeKind::Utf8 => "Utf8".to_string(),
        TypeKind::LargeUtf8 => "LargeUtf8".to_string(),
        TypeKind::Decimal128 { precision, scale } => {
            let mut s = "Decimal128(".to_string();
            push_dec(&mut s, precision as u128);
            s.append(", ");
            push_int(&mut s, scale as i128);
            s.append(")");
            s
        },
        _ => {
            let s = String::new();
            assert(s@ =~= kind_text(kind));
            s
        },
    }
}

fn width(kind: TypeKind) -> (r: usize)
    ensures
        r == number_width(kind),
{
    match kind {
        TypeKind::Int8 | TypeKind::UInt8 => 1,
        TypeKind::Int16 | TypeKind::UInt16 => 2,
        TypeKind::Int32 | TypeKind::UInt32 | TypeKind::Float32 => 4,
        TypeKind::Int64 | TypeKind::UInt64 | TypeKind::Float64 => 8,
        _ => 16,
    }
}

fn in_range(x: i128, lo: i128, hi: i128) -> (r: bool)
    ensures
        r == (lo <= x <= hi),
{
    lo <= x && x <= hi
}

/// Whether a value is one of its kind, and the kind has an order.
fn value_fits(kind: TypeKind, v: &ScalarValue) -> (r: bool)
    ensures
        r == (has_order(kind) && fits(kind, v@)),
{
    match (kind, v) {
        (TypeKind::Int8, ScalarValue::Int(x)) => in_range(*x, -0x80, 0x7f),
        (TypeKind::Int16, ScalarValue::Int(x)) => in_range(*x, -0x8000, 0x7fff),
        (TypeKind::Int32, ScalarValue::Int(x)) => in_range(*x, -0x8000_0000, 0x7fff_ffff),
        (TypeKind::Int64, ScalarValue::Int(x)) => in_range(
            *x,
            -0x8000_0000_0000_0000,
            0x7fff_ffff_ffff_ffff,
        ),
        (TypeKind::UInt8, ScalarValue::Int(x)) => in_range(*x, 0, 0xff),
        (TypeKind::UInt16, ScalarValue::Int(x)) => in_range(*x, 0, 0xffff),
        (TypeKind::UInt32, ScalarValue::Int(x)) => in_range(*x, 0, 0xffff_ffff),
        (TypeKind::UInt64, ScalarValue::Int(x)) => in_range(*x, 0, 0xffff_ffff_ffff_ffff),
        (TypeKind::Float32, ScalarValue::Float(x)) => *x <= 0xffff_ffff,
        (TypeKind::Float64, ScalarValue::Float(_)) => true,
        (TypeKind::Boolean, ScalarValue::Bool(_)) => true,
        (TypeKind::Utf8, ScalarValue::Text(_)) => true,
        (TypeKind::LargeUtf8, ScalarValue::Text(_)) => true,
        (TypeKind::Decimal128 { precision, scale }, ScalarValue::Int(_)) => {
            1 <= precision && precision <= 38 && (scale <= 0 || scale as u8 <= precision)
        },
        _ => false,
    }
}

fn buffers_of(name: &str, kind: TypeKind, v: &ScalarValue) -> (r: Option<Vec<Vec<u8>>>)
    ensures
        match r {
            Some(b) => value_buffers(name@, kind, v@) == Some(byte_views(b@)),
            None => value_buffers(name@, kind, v@) is None,
        },
{
    if !value_fits(kind, v) || name.as_bytes().len() > NAME_LIMIT {
        return None;
    }
    let mut first: Vec<u8> = Vec::new();
    let mut out: Vec<Vec<u8>> = Vec::new();
    match v {
        ScalarValue::Int(x) => {
            push_le(&mut first, bits_of_i128(*x), width(kind));
            proof {
                assert(first@ =~= le_bytes(twos_complement(*x), number_width(kind)));
            }
            out.push(first);
        },
        ScalarValue::Float(x) => {
            push_le(&mut first, *x as u128, width(kind));
            proof {
                assert(first@ =~= le_bytes(*x as nat, number_width(kind)));
            }
            out.push(first);
        },
        ScalarValue::Bool(x) => {
            first.push(if *x {
                1
            } else {
                0
            });
            proof {
                assert(first@ =~= seq![if *x { 1u8 } else { 0u8 }]);
            }
            out.push(first);
        },
        ScalarValue::Text(x) => {
            let t = x.as_str().as_bytes();
            let n: usize = t.len();
            let w: usize = if kind == TypeKind::Utf8 {
                if n > 0x7fff_ffff {
                    return None;
                }
                4
            } else {
                8
            };
            push_le(&mut first, 0, w);
            push_le(&mut first, n as u128, w);
            proof {
                assert(first@ =~= le_bytes(0, w as nat) + le_bytes(n as nat, w as nat));
            }
            out.push(first);
            out.push(bytes_copy(t));
        },
    }
    proof {
        assert(byte_views(out@) =~= value_buffers(name@, kind, v@)->0);
    }
    Some(out)
}

/// The stream of one scalar under a column's name; none where there is no
/// value, or none of its kind.
pub open spec fn scalar_stream(name: Seq<char>, s: ScalarView) -> Option<Seq<u8>> {
    match s.value {
        None => None,
        Some(v) => match value_buffers(name, s.data_type.kind, v) {
            None => None,
            Some(b) => Some(ipc_stream(name, kind_text(s.data_type.kind), b)),
        },
    }
}

/// The stream of one scalar under a column's name.
pub fn ipc_encode_length1(name: &str, s: &Scalar) -> (r: Option<Vec<u8>>)
    ensures
        match r {
            Some(b) => scalar_stream(name@, s@) == Some(b@),
            None => scalar_stream(name@, s@) is None,
        },
{
    match &s.value {
        None => None,
        Some(v) => match buffers_of(name, s.data_type.kind, v) {
            None => None,
            Some(b) => {
                let t = type_label(s.data_type.kind);
                Some(write_stream(name, t.as_str(), b.as_slice()))
            },
        },
    }
}

// ---------------------------------------------------------------- laws

proof fn lemma_le_bytes_low(n: nat, width: nat)
    ensures
        le_value(le_bytes(n, width)) == n % pow256(width),
        pow256(width) > 0,
    decreases width,
{
    if width == 0 {
        assert(n % 1 == 0);
    } else {
        let w = (width - 1) as nat;
        let p = pow256(w);
        lemma_le_bytes_low(n / 256, w);
        let s = le_bytes(n, width);
        assert(s.skip(1) =~= le_bytes(n / 256, w));
        assert(n % (256 * p) == 256 * ((n / 256) % p) + n % 256) by {
            vstd::arithmetic::div_mod::lemma_mod_breakdown(n as int, 256, p as int);
        }
    }
}

/// The buffer of an integer has the bytes of its kind and holds the number, the
/// least significant byte first: read without a sign it is the number itself,
/// or the number and 256 to the power of the bytes where it is negative.
pub proof fn buffers_hold_their_integer(name: Seq<char>, kind: TypeKind, x: i128)
    requires
        has_order(kind),
        fits(kind, ValueView::Int(x)),
        encode_utf8(name).len() <= NAME_LIMIT,
    ensures
        ({
            let b = value_buffers(name, kind, ValueView::Int(x))->0;
            let n = pow256(b[0].len());
            &&& value_buffers(name, kind, ValueView::Int(x)) is Some
            &&& b.len() == 1
            &&& le_value(b[0]) == if x < 0 {
                x + n
            } else {
                x as int
            }
            &&& kind is Int8 || kind is UInt8 ==> b[0].len() == 1
            &&& kind is Int16 || kind is UInt16 ==> b[0].len() == 2
            &&& kind is Int32 || kind is UInt32 ==> b[0].len() == 4
            &&& kind is Int64 || kind is UInt64 ==> b[0].len() == 8
            &&& kind is Decimal128 ==> b[0].len() == 16
        }),
{
    let w = number_width(kind);
    let t = twos_complement(x);
    lemma_le_bytes_low(t, w);
    lemma_le_bytes_len(t, w);
    lemma_pow256_widths();
    let n = pow256(w) as int;
    assert(n == 0x100 || n == 0x1_0000 || n == 0x1_0000_0000 || n == 0x1_0000_0000_0000_0000int || n
        == 0x1_0000_0000_0000_0000_0000_0000_0000_0000int);
    if x < 0 {
        assert(x + n >= 0);
        let q = 0x1_0000_0000_0000_0000_0000_0000_0000_0000int / n;
        assert(t as int % n == x + n) by {
            assert(q * n == 0x1_0000_0000_0000_0000_0000_0000_0000_0000int);
            assert(t == (q - 1) * n + (x + n)) by (nonlinear_arith)
                requires
                    t == q * n + x,
            ;
            vstd::arithmetic::div_mod::lemma_fundamental_div_mod_converse(
                t as int,
                n,
                q - 1,
                x + n,
            );
        }
    } else {
        assert(t as int % n == x) by {
            vstd::arithmetic::div_mod::lemma_small_mod(t, n as nat);
        }
    }
}

/// The buffer of a floating-point number holds its bits, that of a truth value
/// one bit, and those of a text where it begins and ends, and the text.
pub proof fn buffers_hold_their_bits(name: Seq<char>, kind: TypeKind, v: ValueView)
    requires
        has_order(kind),
        fits(kind, v),
        encode_utf8(name).len() <= NAME_LIMIT,
    ensures
        ({
            let r = value_buffers(name, kind, v);
            let b = r->0;
            match v {
                ValueView::Int(_) => true,
                ValueView::Float(x) => r is Some && b.len() == 1 && le_value(b[0]) == x
                    && b[0].len() == if kind is Float32 {
                    4nat
                } else {
                    8nat
                },
                ValueView::Bool(x) => r is Some && b.len() == 1 && b[0].len() == 1 && (b[0][0] == 1
                    <==> x) && (b[0][0] == 0 <==> !x),
                ValueView::Text(t) => {
                    let n = encode_utf8(t).len();
                    let half = if kind is Utf8 {
                        4int
                    } else {
                        8int
                    };
                    &&& r is None <==> kind is Utf8 && n >= 0x8000_0000
                    &&& r is Some && n <= u64::MAX ==> b.len() == 2 && b[1] == encode_utf8(t)
                        && b[0].len() == 2 * half && le_value(b[0].take(half)) == 0 && le_value(
                        b[0].skip(half),
                    ) == n
                },
            }
        }),
{
    lemma_pow256_widths();
    match v {
        ValueView::Float(x) => {
            le_bytes_round_trip(x as nat, number_width(kind));
        },
        ValueView::Text(t) => {
            let n = encode_utf8(t).len();
            let w: nat = if kind is Utf8 {
                4
            } else {
                8
            };
            if value_buffers(name, kind, v) is Some && n <= u64::MAX {
                let b = value_buffers(name, kind, v)->0;
                le_bytes_round_trip(0, w);
                le_bytes_round_trip(n, w);
                assert(b[0].take(w as int) =~= le_bytes(0, w));
                assert(b[0].skip(w as int) =~= le_bytes(n, w));
            }
        },
        _ => {},
    }
}

} // verus!
