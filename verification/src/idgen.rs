//! The layout of row ids: sixty-four bits of milliseconds, forty of the worker,
//! twenty-four of a counter.

use vstd::arithmetic::power2::{lemma2_to64, lemma2_to64_rest, pow2};
use vstd::prelude::*;

use crate::bytes::{le_bytes, le_bytes_are_digits};
use crate::text::{hex_parsed, hex_text, hex_text_round_trip, push_hex};

verus! {

/// The number of workers: what forty bits hold.
pub const WORKERS: u64 = 0x100_0000_0000;

/// The number of ids of a worker in a millisecond: what twenty-four bits hold.
pub const SEQUENCES: u64 = 0x100_0000;

/// The parts of an id.
#[derive(Clone, Copy, PartialEq, Eq, Structural, Debug)]
pub struct IdFields {
    pub timestamp_ms: u64,
    pub worker_id: u64,
    pub sequence: u32,
}

/// That the parts fit their bits, and the id is not negative.
pub open spec fn fields_fit(f: IdFields) -> bool {
    f.timestamp_ms < 0x8000_0000_0000_0000 && f.worker_id < WORKERS && f.sequence < SEQUENCES
}

/// The id that parts make.
pub open spec fn id_value(f: IdFields) -> int {
    f.timestamp_ms * 0x1_0000_0000_0000_0000 + f.worker_id * 0x100_0000 + f.sequence
}

/// `rand::random`: some number. It is random, so nothing is said of it.
#[verifier::external_body]
fn random_u64() -> (r: u64) {
    rand::random::<u64>()
}

/// The worker that a number names: its lowest forty bits.
pub fn worker_of(n: u64) -> (r: u64)
    ensures
        r == n % 0x100_0000_0000,
        r < WORKERS,
{
    n % WORKERS
}

/// A worker at random.
pub fn random_worker_id() -> (r: u64)
    ensures
        r < WORKERS,
{
    worker_of(random_u64())
}

/// The parts of an id.
pub fn fields_of(id: i128) -> (r: IdFields)
    requires
        id >= 0,
    ensures
        id_value(r) == id,
        fields_fit(r),
{
    let n: u128 = id as u128;
    let timestamp: u128 = n / 0x1_0000_0000_0000_0000;
    let low: u128 = n % 0x1_0000_0000_0000_0000;
    let worker: u128 = low / 0x100_0000;
    let sequence: u128 = low % 0x100_0000;
    IdFields {
        timestamp_ms: timestamp as u64,
        worker_id: worker as u64,
        sequence: sequence as u32,
    }
}

/// The text of a worker: ten hexadecimal digits.
pub open spec fn worker_text(worker: u64) -> Seq<char> {
    "0x"@ + hex_text(
        seq![
            (worker / 0x1_0000_0000 % 256) as u8,
            (worker / 0x100_0000 % 256) as u8,
            (worker / 0x1_0000 % 256) as u8,
            (worker / 0x100 % 256) as u8,
            (worker % 256) as u8,
        ],
    )
}

/// The text of a worker.
pub fn worker_label(worker: u64) -> (r: String)
    requires
        worker < WORKERS,
    ensures
        r@ == worker_text(worker),
{
    let mut bytes: Vec<u8> = Vec::new();
    bytes.push((worker / 0x1_0000_0000 % 256) as u8);
    bytes.push((worker / 0x100_0000 % 256) as u8);
    bytes.push((worker / 0x1_0000 % 256) as u8);
    bytes.push((worker / 0x100 % 256) as u8);
    bytes.push((worker % 256) as u8);
    let mut s = "0x".to_string();
    push_hex(&mut s, bytes.as_slice());
    assert(bytes@ =~= seq![
        (worker / 0x1_0000_0000 % 256) as u8,
        (worker / 0x100_0000 % 256) as u8,
        (worker / 0x1_0000 % 256) as u8,
        (worker / 0x100 % 256) as u8,
        (worker % 256) as u8,
    ]);
    s
}

// ---------------------------------------------------------------- laws

/// Ids are never negative and fit their column.
pub proof fn id_is_not_negative(f: IdFields)
    requires
        fields_fit(f),
    ensures
        0 <= id_value(f) <= i128::MAX,
{
}

/// Ids ascend with time, and within a millisecond with the worker and the
/// counter.
pub proof fn ids_follow_time(a: IdFields, b: IdFields)
    requires
        fields_fit(a),
        fields_fit(b),
    ensures
        a.timestamp_ms < b.timestamp_ms ==> id_value(a) < id_value(b),
        a.timestamp_ms == b.timestamp_ms && a.worker_id == b.worker_id && a.sequence < b.sequence
            ==> id_value(a) < id_value(b),
{
}

/// Different parts make different ids: writers with different workers never
/// make the same one.
pub proof fn ids_differ(a: IdFields, b: IdFields)
    requires
        fields_fit(a),
        fields_fit(b),
        a != b,
    ensures
        id_value(a) != id_value(b),
{
}

/// The milliseconds are above the lowest sixty-four bits of an id, the counter
/// is the lowest twenty-four, and the worker the forty between.
pub proof fn ids_have_their_bits(f: IdFields)
    requires
        fields_fit(f),
    ensures
        id_value(f) / (pow2(64) as int) == f.timestamp_ms,
        id_value(f) / (pow2(24) as int) % (pow2(40) as int) == f.worker_id,
        id_value(f) % (pow2(24) as int) == f.sequence,
{
    lemma2_to64();
    lemma2_to64_rest();
    let low = f.worker_id * 0x100_0000 + f.sequence;
    let id = id_value(f);
    assert(id == f.timestamp_ms * 0x1_0000_0000_0000_0000int + low);
    assert(0 <= low < 0x1_0000_0000_0000_0000int);
    assert(id / 0x100_0000 == f.timestamp_ms * 0x100_0000_0000int + f.worker_id);
}

/// Within a millisecond ids ascend with the worker first.
pub proof fn workers_order_a_millisecond(a: IdFields, b: IdFields)
    requires
        fields_fit(a),
        fields_fit(b),
        a.timestamp_ms == b.timestamp_ms,
        a.worker_id < b.worker_id,
    ensures
        id_value(a) < id_value(b),
{
}

/// The digits of a worker's text write its number: five bytes, the most
/// significant first.
pub proof fn worker_texts_write_their_number(worker: u64)
    requires
        worker < 0x100_0000_0000,
    ensures
        worker_text(worker).len() == 12,
        worker_text(worker).take(2) == seq!['0', 'x'],
        hex_parsed(worker_text(worker).skip(2)) == Some(le_bytes(worker as nat, 5).reverse()),
{
    reveal_strlit("0x");
    let b = seq![
        (worker / 0x1_0000_0000 % 256) as u8,
        (worker / 0x100_0000 % 256) as u8,
        (worker / 0x1_0000 % 256) as u8,
        (worker / 0x100 % 256) as u8,
        (worker % 256) as u8,
    ];
    let t = worker_text(worker);
    hex_text_round_trip(b);
    assert(t.skip(2) =~= hex_text(b));
    assert(t.take(2) =~= seq!['0', 'x']);
    let n = worker as nat;
    let l = le_bytes(n, 5);
    lemma2_to64();
    le_bytes_are_digits(n, 5, 0);
    le_bytes_are_digits(n, 5, 1);
    le_bytes_are_digits(n, 5, 2);
    le_bytes_are_digits(n, 5, 3);
    le_bytes_are_digits(n, 5, 4);
    assert forall|i: int| 0 <= i < 5 implies l.reverse()[i] == b[i] by {
        if i == 0 {
            assert(l[4] == b[0]);
        } else if i == 1 {
            assert(l[3] == b[1]);
        } else if i == 2 {
            assert(l[2] == b[2]);
        } else if i == 3 {
            assert(l[1] == b[3]);
        } else {
            assert(l[0] == b[4]);
        }
    }
    assert(l.reverse() =~= b);
}

} // verus!
