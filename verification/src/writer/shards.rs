//! Which rows go into which shard.

use vstd::arithmetic::div_mod::lemma_fundamental_div_mod;
use vstd::prelude::*;

verus! {

/// Some rows of one batch.
#[derive(Clone, Copy, PartialEq, Eq, Structural, Debug)]
pub struct Piece {
    pub batch: usize,
    pub start: usize,
    pub len: usize,
}

/// The rows of batches `k` and on.
pub open spec fn rows_from(rows: Seq<usize>, k: int) -> nat
    decreases rows.len() - k,
{
    if k >= rows.len() || k < 0 {
        0
    } else {
        rows[k] as nat + rows_from(rows, k + 1)
    }
}

/// All rows.
pub open spec fn total_rows(rows: Seq<usize>) -> nat {
    rows_from(rows, 0)
}

/// The first row of a shard. With `total == q * n + r` the first `r` shards
/// have `q + 1` rows, the others `q`.
pub open spec fn shard_start(total: nat, n: nat, shard: nat) -> nat {
    shard * (total / n) + if shard < total % n {
        shard
    } else {
        total % n
    }
}

/// The pieces of the rows from `lo` to `hi`, counted from the start of batch
/// `k`.
pub open spec fn pieces_from(rows: Seq<usize>, k: int, lo: int, hi: int) -> Seq<Piece>
    decreases rows.len() - k,
{
    if k >= rows.len() || k < 0 {
        Seq::empty()
    } else {
        let a = if lo > 0 {
            lo
        } else {
            0
        };
        let b = if hi < rows[k] {
            hi
        } else {
            rows[k] as int
        };
        let here = if a < b {
            seq![Piece { batch: k as usize, start: a as usize, len: (b - a) as usize }]
        } else {
            Seq::empty()
        };
        here + pieces_from(rows, k + 1, lo - rows[k], hi - rows[k])
    }
}

/// The pieces of a shard.
pub open spec fn shard_pieces(rows: Seq<usize>, n: nat, shard: nat) -> Seq<Piece> {
    let total = total_rows(rows);
    pieces_from(
        rows,
        0,
        shard_start(total, n, shard) as int,
        shard_start(total, n, shard + 1) as int,
    )
}

/// The shards that have rows.
pub open spec fn shard_count(total: nat, n: nat) -> nat {
    if total < n {
        total
    } else {
        n
    }
}

proof fn lemma_shard_start(total: nat, n: nat, shard: nat)
    requires
        n > 0,
        shard < n,
    ensures
        shard_start(total, n, shard + 1) == shard_start(total, n, shard) + total / n + if shard
            < total % n {
            1nat
        } else {
            0nat
        },
        shard_start(total, n, 0) == 0,
{
    let q = total / n;
    assert((shard + 1) * q == shard * q + q) by (nonlinear_arith);
    assert(0 * q == 0);
}

proof fn lemma_shard_end(total: nat, n: nat)
    requires
        n > 0,
    ensures
        shard_start(total, n, n) == total,
        total % n < n,
{
    lemma_fundamental_div_mod(total as int, n as int);
}

proof fn lemma_shard_start_grows(total: nat, n: nat, a: nat, b: nat)
    requires
        n > 0,
        a <= b <= n,
    ensures
        shard_start(total, n, a) <= shard_start(total, n, b),
    decreases b - a,
{
    if a < b {
        lemma_shard_start_grows(total, n, a, (b - 1) as nat);
        lemma_shard_start(total, n, (b - 1) as nat);
    }
}

proof fn lemma_small_division(total: nat, n: nat)
    requires
        total < n,
    ensures
        total / n == 0,
        total % n == total,
{
    vstd::arithmetic::div_mod::lemma_small_mod(total, n);
    vstd::arithmetic::div_mod::lemma_basic_div(total as int, n as int);
}

proof fn lemma_large_division(total: nat, n: nat)
    requires
        0 < n <= total,
    ensures
        total / n >= 1,
{
    vstd::arithmetic::div_mod::lemma_div_is_ordered(n as int, total as int, n as int);
    vstd::arithmetic::div_mod::lemma_div_by_self(n as int);
}

/// Every shard up to the count has rows.
proof fn lemma_shard_not_empty(total: nat, n: nat, shard: nat)
    requires
        n > 0,
        shard < shard_count(total, n),
    ensures
        shard_start(total, n, shard) < shard_start(total, n, shard + 1),
{
    lemma_shard_start(total, n, shard);
    if total < n {
        lemma_small_division(total, n);
    } else {
        lemma_large_division(total, n);
    }
}

pub(crate) fn total_of(rows: &[usize]) -> (r: usize)
    requires
        total_rows(rows@) <= usize::MAX,
    ensures
        r == total_rows(rows@),
{
    let mut sum: usize = 0;
    let mut k: usize = rows.len();
    while k > 0
        invariant
            k <= rows@.len(),
            total_rows(rows@) <= usize::MAX,
            sum == rows_from(rows@, k as int),
        decreases k,
    {
        proof {
            lemma_rows_from_shrinks(rows@, 0, k as int - 1);
        }
        k = k - 1;
        sum = sum + rows[k];
    }
    sum
}

proof fn lemma_rows_from_shrinks(rows: Seq<usize>, a: int, b: int)
    requires
        0 <= a <= b <= rows.len(),
    ensures
        rows_from(rows, b) <= rows_from(rows, a),
    decreases b - a,
{
    if a < b {
        lemma_rows_from_shrinks(rows, a + 1, b);
    }
}

/// The pieces of the rows from `lo` to `hi`.
fn pieces_between(rows: &[usize], lo: usize, hi: usize) -> (r: Vec<Piece>)
    requires
        lo <= hi,
        total_rows(rows@) <= usize::MAX,
    ensures
        r@ == pieces_from(rows@, 0, lo as int, hi as int),
{
    let mut out: Vec<Piece> = Vec::new();
    // what is left of the bounds, and how far the lower one has been passed
    let mut lo_left: usize = lo;
    let mut hi_left: usize = hi;
    let mut k: usize = 0;
    proof {
        assert(out@ + pieces_from(rows@, 0, lo as int, hi as int) =~= pieces_from(
            rows@,
            0,
            lo as int,
            hi as int,
        ));
    }
    while k < rows.len() && hi_left > 0
        invariant
            k <= rows@.len(),
            lo_left <= hi_left,
            pieces_from(rows@, 0, lo as int, hi as int) == out@ + pieces_from(
                rows@,
                k as int,
                lo_left as int,
                hi_left as int,
            ),
        decreases rows@.len() - k,
    {
        let n: usize = rows[k];
        let ghost before = out@;
        let ghost rest = pieces_from(rows@, k as int + 1, lo_left - n, hi_left - n);
        let b: usize = if hi_left < n {
            hi_left
        } else {
            n
        };
        if lo_left < b {
            let piece = Piece { batch: k, start: lo_left, len: b - lo_left };
            out.push(piece);
            proof {
                assert(out@ + rest =~= before + (seq![piece] + rest));
            }
        } else {
            proof {
                assert(out@ + rest =~= before + (Seq::<Piece>::empty() + rest));
            }
        }
        proof {
            if lo_left < n {
                lemma_pieces_clip(rows@, k as int + 1, lo_left - n, hi_left - n);
            }
            if hi_left < n {
                lemma_pieces_none(rows@, k as int + 1, lo_left - n, hi_left - n);
                lemma_pieces_none(rows@, k as int + 1, 0, 0);
            }
        }
        lo_left = if lo_left < n {
            0
        } else {
            lo_left - n
        };
        hi_left = if hi_left < n {
            0
        } else {
            hi_left - n
        };
        k = k + 1;
    }
    proof {
        if hi_left == 0 {
            lemma_pieces_none(rows@, k as int, lo_left as int, hi_left as int);
        }
        assert(out@ + Seq::<Piece>::empty() =~= out@);
    }
    out
}

proof fn lemma_pieces_none(rows: Seq<usize>, k: int, lo: int, hi: int)
    requires
        hi <= 0,
    ensures
        pieces_from(rows, k, lo, hi) == Seq::<Piece>::empty(),
    decreases rows.len() - k,
{
    if 0 <= k < rows.len() {
        lemma_pieces_none(rows, k + 1, lo - rows[k], hi - rows[k]);
        assert(Seq::<Piece>::empty() + Seq::<Piece>::empty() =~= Seq::<Piece>::empty());
    }
}

/// A lower bound before the first row counts as the first row.
proof fn lemma_pieces_clip(rows: Seq<usize>, k: int, lo: int, hi: int)
    requires
        lo <= 0,
    ensures
        pieces_from(rows, k, lo, hi) == pieces_from(rows, k, 0, hi),
    decreases rows.len() - k,
{
    if 0 <= k < rows.len() {
        lemma_pieces_clip(rows, k + 1, lo - rows[k], hi - rows[k]);
        lemma_pieces_clip(rows, k + 1, 0 - rows[k], hi - rows[k]);
    }
}

/// That the piece lies in its batch and has rows.
pub open spec fn piece_within(p: Piece, rows: Seq<usize>) -> bool {
    p.batch < rows.len() && p.start + p.len <= rows[p.batch as int] && p.len > 0
}

proof fn lemma_pieces_within(rows: Seq<usize>, k: int, lo: int, hi: int, i: int)
    requires
        rows.len() <= usize::MAX,
        0 <= i < pieces_from(rows, k, lo, hi).len(),
    ensures
        piece_within(pieces_from(rows, k, lo, hi)[i], rows),
    decreases rows.len() - k,
{
    if 0 <= k < rows.len() {
        let rest = pieces_from(rows, k + 1, lo - rows[k], hi - rows[k]);
        let here = pieces_from(rows, k, lo, hi).len() - rest.len();
        if i >= here {
            lemma_pieces_within(rows, k + 1, lo - rows[k], hi - rows[k], i - here);
        }
    }
}

/// The rows of the batches, in order, cut into shards of about the same size.
/// Shards without rows are left out.
pub fn shard_plan(rows: &[usize], n_shards: usize) -> (r: Vec<Vec<Piece>>)
    requires
        n_shards > 0,
        total_rows(rows@) <= usize::MAX,
    ensures
        r@.len() == shard_count(total_rows(rows@), n_shards as nat),
        forall|i: int|
            0 <= i < r@.len() ==> (#[trigger] r@[i])@ == shard_pieces(
                rows@,
                n_shards as nat,
                i as nat,
            ),
        forall|i: int, j: int|
            0 <= i < r@.len() && 0 <= j < r@[i]@.len() ==> piece_within(
                #[trigger] r@[i]@[j],
                rows@,
            ),
{
    let n_rows: usize = rows.len();
    let total: usize = total_of(rows);
    let base: usize = total / n_shards;
    let extra: usize = total % n_shards;
    let count: usize = if total < n_shards {
        total
    } else {
        n_shards
    };
    let mut out: Vec<Vec<Piece>> = Vec::new();
    let mut lo: usize = 0;
    let mut i: usize = 0;
    proof {
        lemma_shard_start(total as nat, n_shards as nat, 0);
    }
    while i < count
        invariant
            n_shards > 0,
            total == total_rows(rows@),
            total_rows(rows@) <= usize::MAX,
            base == total as nat / n_shards as nat,
            extra == total as nat % n_shards as nat,
            count == shard_count(total as nat, n_shards as nat),
            i <= count,
            lo == shard_start(total as nat, n_shards as nat, i as nat),
            out@.len() == i,
            forall|j: int|
                0 <= j < i ==> (#[trigger] out@[j])@ == shard_pieces(
                    rows@,
                    n_shards as nat,
                    j as nat,
                ),
        decreases count - i,
    {
        proof {
            lemma_shard_start(total as nat, n_shards as nat, i as nat);
            lemma_shard_start_grows(total as nat, n_shards as nat, i as nat + 1, n_shards as nat);
            lemma_shard_end(total as nat, n_shards as nat);
        }
        let more: usize = if i < extra {
            1
        } else {
            0
        };
        let hi: usize = lo + base + more;
        out.push(pieces_between(rows, lo, hi));
        lo = hi;
        i = i + 1;
    }
    proof {
        assert forall|a: int, b: int| 0 <= a < out@.len() && 0 <= b < out@[a]@.len() implies
            piece_within(#[trigger] out@[a]@[b], rows@) by {
            assert(n_rows == rows@.len());
            lemma_pieces_within(
                rows@,
                0,
                shard_start(total as nat, n_shards as nat, a as nat) as int,
                shard_start(total as nat, n_shards as nat, a as nat + 1) as int,
                b,
            );
        }
    }
    out
}

/// The pieces of a shard lie in their batches and have rows.
pub proof fn lemma_shard_pieces_within(rows: Seq<usize>, n: nat, shard: nat)
    requires
        rows.len() <= usize::MAX,
    ensures
        forall|j: int|
            0 <= j < shard_pieces(rows, n, shard).len() ==> piece_within(
                #[trigger] shard_pieces(rows, n, shard)[j],
                rows,
            ),
{
    let total = total_rows(rows);
    assert forall|j: int| 0 <= j < shard_pieces(rows, n, shard).len() implies piece_within(
        #[trigger] shard_pieces(rows, n, shard)[j],
        rows,
    ) by {
        lemma_pieces_within(
            rows,
            0,
            shard_start(total, n, shard) as int,
            shard_start(total, n, shard + 1) as int,
            j,
        );
    }
}

// ---------------------------------------------------------------- laws

/// Batch and row of a row that is counted from the start of batch `k`.
pub open spec fn locate_from(rows: Seq<usize>, k: int, g: int) -> (int, int)
    decreases rows.len() - k,
{
    if k >= rows.len() || k < 0 {
        (k, 0)
    } else if g < rows[k] {
        (k, g)
    } else {
        locate_from(rows, k + 1, g - rows[k])
    }
}

/// The rows of a piece.
pub open spec fn piece_rows(p: Piece) -> Seq<(int, int)> {
    Seq::new(p.len as nat, |j: int| (p.batch as int, p.start + j))
}

/// The rows of pieces, in order.
pub open spec fn flat_rows(s: Seq<Piece>) -> Seq<(int, int)>
    decreases s.len(),
{
    if s.len() == 0 {
        Seq::empty()
    } else {
        piece_rows(s[0]) + flat_rows(s.skip(1))
    }
}

/// Rows one after the other, from `lo` to `hi`.
pub open spec fn rows_between(rows: Seq<usize>, k: int, lo: int, hi: int) -> Seq<(int, int)> {
    Seq::new((hi - lo) as nat, |j: int| locate_from(rows, k, lo + j))
}

proof fn lemma_flat_pieces(rows: Seq<usize>, k: int, lo: int, hi: int)
    requires
        0 <= k <= rows.len() <= usize::MAX,
        0 <= lo <= hi <= rows_from(rows, k),
        rows_from(rows, k) <= usize::MAX,
    ensures
        flat_rows(pieces_from(rows, k, lo, hi)) == rows_between(rows, k, lo, hi),
    decreases rows.len() - k,
{
    if k >= rows.len() {
        assert(rows_between(rows, k, lo, hi) =~= Seq::empty());
    } else {
        let n = rows[k] as int;
        let rest = pieces_from(rows, k + 1, lo - n, hi - n);
        if lo < n {
            lemma_pieces_clip(rows, k + 1, lo - n, hi - n);
        }
        let lo2 = if lo < n {
            0
        } else {
            lo - n
        };
        if hi <= n {
            lemma_pieces_none(rows, k + 1, lo - n, hi - n);
        } else {
            lemma_flat_pieces(rows, k + 1, lo2, hi - n);
        }
        let b = if hi < n {
            hi
        } else {
            n
        };
        if lo < b {
            let p = Piece { batch: k as usize, start: lo as usize, len: (b - lo) as usize };
            let all = pieces_from(rows, k, lo, hi);
            assert(all =~= seq![p] + rest);
            assert(all.skip(1) =~= rest);
            assert(flat_rows(all) == piece_rows(p) + flat_rows(rest));
            assert(rows_between(rows, k, lo, hi) =~= piece_rows(p) + flat_rows(rest)) by {
                if hi > n {
                    assert(flat_rows(rest) == rows_between(rows, k + 1, lo2, hi - n));
                }
            }
        } else {
            assert(pieces_from(rows, k, lo, hi) =~= rest);
            if hi > n {
                assert(rows_between(rows, k, lo, hi) =~= rows_between(rows, k + 1, lo2, hi - n));
            } else {
                assert(rows_between(rows, k, lo, hi) =~= Seq::empty());
            }
        }
    }
}

/// The rows of the first `m` shards.
pub open spec fn sharded_rows(rows: Seq<usize>, n: nat, m: nat) -> Seq<(int, int)>
    decreases m,
{
    if m == 0 {
        Seq::empty()
    } else {
        sharded_rows(rows, n, (m - 1) as nat) + flat_rows(shard_pieces(rows, n, (m - 1) as nat))
    }
}

proof fn lemma_sharded_prefix(rows: Seq<usize>, n: nat, m: nat)
    requires
        n > 0,
        m <= n,
        rows.len() <= usize::MAX,
        total_rows(rows) <= usize::MAX,
    ensures
        sharded_rows(rows, n, m) == rows_between(
            rows,
            0,
            0,
            shard_start(total_rows(rows), n, m) as int,
        ),
    decreases m,
{
    let total = total_rows(rows);
    lemma_shard_start(total, n, 0);
    if m == 0 {
        assert(rows_between(rows, 0, 0, 0) =~= Seq::empty());
    } else {
        let shard = (m - 1) as nat;
        lemma_sharded_prefix(rows, n, shard);
        lemma_shard_start(total, n, shard);
        lemma_shard_start_grows(total, n, m, n);
        lemma_shard_end(total, n);
        let lo = shard_start(total, n, shard) as int;
        let hi = shard_start(total, n, m) as int;
        lemma_flat_pieces(rows, 0, lo, hi);
        assert(rows_between(rows, 0, 0, hi) =~= rows_between(rows, 0, 0, lo) + rows_between(
            rows,
            0,
            lo,
            hi,
        ));
    }
}

/// The shards hold every row of the batches once, in order.
pub proof fn shards_hold_all_rows(rows: Seq<usize>, n: nat)
    requires
        n > 0,
        rows.len() <= usize::MAX,
        total_rows(rows) <= usize::MAX,
    ensures
        sharded_rows(rows, n, shard_count(total_rows(rows), n)) == rows_between(
            rows,
            0,
            0,
            total_rows(rows) as int,
        ),
{
    let total = total_rows(rows);
    let count = shard_count(total, n);
    lemma_sharded_prefix(rows, n, count);
    lemma_shard_end(total, n);
    if total < n {
        lemma_small_division(total, n);
        assert(shard_start(total, n, count) == total) by {
            assert(count * 0 == 0);
        }
    }
}

/// No shard has over one row more than another.
pub proof fn shards_are_balanced(rows: Seq<usize>, n: nat, a: nat, b: nat)
    requires
        n > 0,
        rows.len() <= usize::MAX,
        total_rows(rows) <= usize::MAX,
        a < shard_count(total_rows(rows), n),
        b < shard_count(total_rows(rows), n),
    ensures
        flat_rows(shard_pieces(rows, n, a)).len() >= 1,
        flat_rows(shard_pieces(rows, n, a)).len() <= flat_rows(shard_pieces(rows, n, b)).len() + 1,
{
    let total = total_rows(rows);
    lemma_shard_size(rows, n, a);
    lemma_shard_size(rows, n, b);
    lemma_shard_not_empty(total, n, a);
}

proof fn lemma_shard_size(rows: Seq<usize>, n: nat, i: nat)
    requires
        n > 0,
        rows.len() <= usize::MAX,
        total_rows(rows) <= usize::MAX,
        i < n,
    ensures
        flat_rows(shard_pieces(rows, n, i)).len() == shard_start(total_rows(rows), n, i + 1)
            - shard_start(total_rows(rows), n, i),
        flat_rows(shard_pieces(rows, n, i)).len() == total_rows(rows) / n + if i < total_rows(rows)
            % n {
            1nat
        } else {
            0nat
        },
{
    let total = total_rows(rows);
    lemma_shard_start(total, n, i);
    lemma_shard_start_grows(total, n, i + 1, n);
    lemma_shard_end(total, n);
    lemma_flat_pieces(
        rows,
        0,
        shard_start(total, n, i) as int,
        shard_start(total, n, i + 1) as int,
    );
}

/// There is a shard for every thread, or one for every row where there are fewer
/// rows.
pub proof fn every_thread_has_a_shard(total: nat, n: nat)
    ensures
        shard_count(total, n) <= n,
        shard_count(total, n) <= total,
        shard_count(total, n) == n || shard_count(total, n) == total,
{
}

/// The rows of a batch are located in it, and counted from its first row.
pub proof fn rows_are_located_in_their_batch(rows: Seq<usize>, k: int, j: int, r: int)
    requires
        0 <= k <= j < rows.len(),
        0 <= r < rows[j],
    ensures
        locate_from(rows, k, rows_from(rows, k) - rows_from(rows, j) + r) == (j, r),
        rows_from(rows, j) <= rows_from(rows, k),
    decreases j - k,
{
    if k < j {
        rows_are_located_in_their_batch(rows, k + 1, j, r);
    }
}

/// The first shards are the larger ones: no shard has fewer rows than the next,
/// and the largest has one row more than the smallest at most.
pub proof fn first_shards_are_larger(total: nat, n: nat, shard: nat)
    requires
        n > 0,
        shard + 1 < n,
    ensures
        shard_start(total, n, 0) == 0,
        shard_start(total, n, n) == total,
        ({
            let here = shard_start(total, n, shard + 1) - shard_start(total, n, shard);
            let next = shard_start(total, n, shard + 2) - shard_start(total, n, shard + 1);
            next <= here <= next + 1
        }),
{
    let q = (total / n) as int;
    assert((shard + 1) * q == shard * q + q) by (nonlinear_arith);
    assert((shard + 2) * q == shard * q + q + q) by (nonlinear_arith);
    assert(0 * q == 0) by (nonlinear_arith);
    lemma_shard_end(total, n);
}

} // verus!
