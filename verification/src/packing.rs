//! Byte strings packed one behind the other, each after its length.

use vstd::prelude::*;

use crate::bytes::{
    le_bytes, le_bytes_round_trip, le_value, lemma_le_bytes_len, lemma_pow256_widths, push_le, read_le,
};
use crate::lex::bytes_copy;

verus! {

/// The items, each after its length in eight little-endian bytes.
pub open spec fn packed(items: Seq<Seq<u8>>) -> Seq<u8>
    decreases items.len(),
{
    if items.len() == 0 {
        Seq::empty()
    } else {
        le_bytes(items[0].len(), 8) + items[0] + packed(items.skip(1))
    }
}

/// The items that a byte string packs; none if it ends inside one.
pub open spec fn unpacked(s: Seq<u8>) -> Option<Seq<Seq<u8>>>
    decreases s.len(),
{
    if s.len() == 0 {
        Some(Seq::empty())
    } else if s.len() < 8 {
        None
    } else {
        let n = le_value(s.take(8));
        if n > s.len() - 8 {
            None
        } else {
            match unpacked(s.skip(8 + n as int)) {
                Some(rest) => Some(seq![s.subrange(8, 8 + n as int)] + rest),
                None => None,
            }
        }
    }
}

/// Every item's length can be written in eight bytes.
pub open spec fn packable(items: Seq<Seq<u8>>) -> bool {
    forall|i: int| 0 <= i < items.len() ==> (#[trigger] items[i]).len() <= u64::MAX
}

/// Unpacking gives back what was packed.
pub proof fn packed_round_trip(items: Seq<Seq<u8>>)
    requires
        packable(items),
    ensures
        unpacked(packed(items)) == Some(items),
    decreases items.len(),
{
    if items.len() == 0 {
        assert(items =~= Seq::empty());
    } else {
        let s = packed(items);
        let n = items[0].len();
        let rest = items.skip(1);
        assert(packable(rest)) by {
            assert forall|i: int| 0 <= i < rest.len() implies (#[trigger] rest[i]).len()
                <= u64::MAX by {
                assert(rest[i] == items[i + 1]);
            }
        }
        packed_round_trip(rest);
        lemma_pow256_widths();
        le_bytes_round_trip(n, 8);
        assert(s.take(8) =~= le_bytes(n, 8));
        assert(s.subrange(8, 8 + n as int) =~= items[0]);
        assert(s.skip(8 + n as int) =~= packed(rest));
        assert(seq![items[0]] + rest =~= items);
    }
}

proof fn lemma_packed_push(items: Seq<Seq<u8>>, item: Seq<u8>)
    ensures
        packed(items.push(item)) == packed(items) + le_bytes(item.len(), 8) + item,
    decreases items.len(),
{
    if items.len() == 0 {
        assert(items.push(item).skip(1) =~= Seq::empty());
        assert(packed(items.push(item).skip(1)) =~= Seq::empty());
        assert(packed(items.push(item)) =~= packed(items) + le_bytes(item.len(), 8) + item);
    } else {
        lemma_packed_push(items.skip(1), item);
        assert(items.push(item).skip(1) =~= items.skip(1).push(item));
        assert(packed(items.push(item)) =~= packed(items) + le_bytes(item.len(), 8) + item);
    }
}

/// The byte strings of a list.
pub open spec fn byte_views(items: Seq<Vec<u8>>) -> Seq<Seq<u8>> {
    Seq::new(items.len(), |i: int| items[i]@)
}

/// Pack the items.
pub fn pack(items: &[Vec<u8>]) -> (r: Vec<u8>)
    ensures
        r@ == packed(byte_views(items@)),
        packable(byte_views(items@)),
{
    let mut out: Vec<u8> = Vec::new();
    let mut i: usize = 0;
    proof {
        assert(byte_views(items@).take(0) =~= Seq::empty());
    }
    while i < items.len()
        invariant
            i <= items@.len(),
            out@ == packed(byte_views(items@).take(i as int)),
            packable(byte_views(items@).take(i as int)),
        decreases items@.len() - i,
    {
        let n: usize = items[i].len();
        push_le(&mut out, n as u128, 8);
        push_all(&mut out, items[i].as_slice());
        proof {
            let v = byte_views(items@);
            lemma_packed_push(v.take(i as int), v[i as int]);
            assert(v.take(i as int).push(v[i as int]) =~= v.take(i as int + 1));
            assert forall|k: int| 0 <= k < i + 1 implies (#[trigger] v.take(i as int + 1)[k]).len()
                <= u64::MAX by {
                if k < i {
                    assert(v.take(i as int + 1)[k] == v.take(i as int)[k]);
                }
            }
        }
        i = i + 1;
    }
    proof {
        assert(byte_views(items@).take(i as int) =~= byte_views(items@));
    }
    out
}

/// Append bytes.
pub fn push_all(out: &mut Vec<u8>, more: &[u8])
    ensures
        final(out)@ == old(out)@ + more@,
{
    let ghost start = out@;
    let mut i: usize = 0;
    proof {
        assert(start + more@.take(0) =~= start);
    }
    while i < more.len()
        invariant
            i <= more@.len(),
            out@ == start + more@.take(i as int),
        decreases more@.len() - i,
    {
        out.push(more[i]);
        i = i + 1;
        proof {
            assert(out@ =~= start + more@.take(i as int));
        }
    }
    proof {
        assert(more@.take(i as int) =~= more@);
    }
}

/// The items that `s` packs.
pub fn unpack(s: &[u8]) -> (r: Option<Vec<Vec<u8>>>)
    ensures
        match r {
            Some(items) => unpacked(s@) == Some(byte_views(items@)),
            None => unpacked(s@) is None,
        },
{
    let mut items: Vec<Vec<u8>> = Vec::new();
    let mut pos: usize = 0;
    let total: usize = s.len();
    proof {
        assert(s@.skip(0) =~= s@);
        match unpacked(s@) {
            Some(rest) => {
                assert(byte_views(items@) + rest =~= rest);
            },
            None => {},
        }
    }
    while pos < total
        invariant
            total == s@.len(),
            pos <= total,
            unpacked(s@) == (match unpacked(s@.skip(pos as int)) {
                Some(rest) => Some(byte_views(items@) + rest),
                None => None,
            }),
        decreases total - pos,
    {
        let ghost here = s@.skip(pos as int);
        if total - pos < 8 {
            return None;
        }
        let n: u128 = read_le(vstd::slice::slice_subrange(s, pos, pos + 8));
        assert(s@.subrange(pos as int, pos + 8) =~= here.take(8));
        if n > (total - pos - 8) as u128 {
            return None;
        }
        let len: usize = n as usize;
        let item = bytes_copy(vstd::slice::slice_subrange(s, pos + 8, pos + 8 + len));
        let ghost before = items@;
        items.push(item);
        proof {
            assert(item@ =~= here.subrange(8, 8 + n as int));
            assert(here.skip(8 + n as int) =~= s@.skip(pos + 8 + n as int));
            match unpacked(here.skip(8 + n as int)) {
                Some(rest) => {
                    assert(byte_views(before) + (seq![item@] + rest) =~= byte_views(items@) + rest);
                },
                None => {},
            }
        }
        pos = pos + 8 + len;
    }
    proof {
        assert(s@.skip(pos as int) =~= Seq::empty());
        assert(byte_views(items@) + Seq::<Seq<u8>>::empty() =~= byte_views(items@));
    }
    Some(items)
}

/// Packed items take their bytes and eight more each, which hold the length,
/// and lists are packed one behind the other.
pub proof fn packed_lists_follow_on_each_other(a: Seq<Seq<u8>>, b: Seq<Seq<u8>>, item: Seq<u8>)
    ensures
        packed(a + b) == packed(a) + packed(b),
        packed(seq![item]).take(8) == le_bytes(item.len(), 8),
        packed(seq![item]).skip(8) == item,
        packed(seq![item]).len() == 8 + item.len(),
    decreases a.len(),
{
    let one = packed(seq![item]);
    lemma_le_bytes_len(item.len(), 8);
    assert(seq![item].skip(1) =~= Seq::empty());
    assert(packed(Seq::empty()) =~= Seq::empty());
    assert(one =~= le_bytes(item.len(), 8) + item);
    assert(one.take(8) =~= le_bytes(item.len(), 8));
    assert(one.skip(8) =~= item);
    if a.len() == 0 {
        assert(a + b =~= b);
        assert(packed(a) + packed(b) =~= packed(b));
    } else {
        packed_lists_follow_on_each_other(a.skip(1), b, item);
        assert((a + b).skip(1) =~= a.skip(1) + b);
        assert(packed(a + b) =~= packed(a) + packed(b));
    }
}

} // verus!
