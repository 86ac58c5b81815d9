//! The two-level radix-partitioned hash join: both tables are partitioned by
//! the low bits of the join key's two's-complement representation, then each
//! bucket pair is joined by a small hash join and the bucket results are
//! concatenated in bucket order.

use vstd::prelude::*;
use rayon::iter::{IndexedParallelIterator, IntoParallelRefIterator, ParallelIterator};
use crate::record::{Record, M};
use crate::table::SimpleTable;
use crate::model::{
    rows_of, uniform_width, nl_join, matches_of, rows_match, concat_rows,
    lemma_concat_rows_take_step, lemma_concat_parts_join, lemma_nl_left_permutation,
};
use vstd::seq_lib::lemma_multiset_commutative;
use crate::join::{joinable, build_key_map, probe_slice, lemma_probe_is_nl, lemma_models_width};
use crate::parjoin::concat_parts;

verus! {

broadcast use
    crate::model::lemma_rows_of_push,
    vstd::seq::Seq::lemma_take_succ_push,
    vstd::seq::Seq::lemma_take_len,
    vstd::seq::Seq::lemma_filter_push,
;

/// How many low key bits select the first-level bucket.
pub const FIRST_BITS: usize = 5;

/// How many key bits above the first level select the second-level bucket.
pub const SECOND_BITS: usize = 5;

/// How many bucket pairs the two levels form together.
pub const NUM_BUCKETS: usize = 1024;

/// The flat bucket-pair index of a join key: the low `FIRST_BITS` bits of
/// the key's two's-complement representation, then the next `SECOND_BITS`
/// bits above them. One convention for every key, negative keys included, on
/// both tables.
pub open spec fn radix_bucket(x: i32) -> int {
    ((x as u32) & 0x3ff) as int
}

/// The rows whose key at `col` falls in bucket `b`, in table order.
pub open spec fn bucket_filter(rows: Seq<Seq<i32>>, col: int, b: int) -> Seq<Seq<i32>> {
    rows.filter(|r: Seq<i32>| radix_bucket(r[col]) == b)
}

/// Computes a key's bucket pair, packed as one index: the first-level hash
/// in the low bits, the second-level hash above it.
pub fn radix_bucket_of(x: i32) -> (b: usize)
    ensures
        b == radix_bucket(x),
        b < NUM_BUCKETS,
{
    let u = #[verifier::truncate] (x as u32);
    let h1 = u & 0x1f;
    let h2 = (u >> 5u32) & 0x1f;
    proof {
        assert(((u & 0x1f) + (((u >> 5u32) & 0x1f) << 5u32)) == (u & 0x3ff) && (u & 0x1f) < 32
            && (((u >> 5u32) & 0x1f) << 5u32) <= 0x3e0 && (u & 0x3ff) < 1024) by (bit_vector);
    }
    let packed = h1 + (h2 << 5u32);
    packed as usize
}

/// Equal keys fall in the same bucket pair, whichever table and column they
/// sit in, so every matching pair of records meets in exactly one bucket
/// pair.
pub proof fn lemma_radix_partition_consistency(
    lrows: Seq<Seq<i32>>,
    rrows: Seq<Seq<i32>>,
    lcol: int,
    rcol: int,
    i: int,
    j: int,
)
    requires
        0 <= i < lrows.len(),
        0 <= j < rrows.len(),
        lrows[i][lcol] == rrows[j][rcol],
    ensures
        radix_bucket(lrows[i][lcol]) == radix_bucket(rrows[j][rcol]),
        bucket_filter(lrows, lcol, radix_bucket(lrows[i][lcol])).contains(lrows[i]),
        bucket_filter(rrows, rcol, radix_bucket(rrows[j][rcol])).contains(rrows[j]),
{
    lrows.lemma_filter_contains(
        |r: Seq<i32>| radix_bucket(r[lcol]) == radix_bucket(lrows[i][lcol]),
        i,
    );
    rrows.lemma_filter_contains(
        |r: Seq<i32>| radix_bucket(r[rcol]) == radix_bucket(rrows[j][rcol]),
        j,
    );
}

/// A row sees the same matches in its own bucket as in the whole partner
/// table: every matching partner row shares its key, hence its bucket.
proof fn lemma_matches_bucket_filter(
    l: Seq<i32>,
    rows: Seq<Seq<i32>>,
    lcol: int,
    rcol: int,
    b: int,
)
    requires
        radix_bucket(l[lcol]) == b,
    ensures
        matches_of(l, bucket_filter(rows, rcol, b), lcol, rcol) == matches_of(
            l,
            rows,
            lcol,
            rcol,
        ),
    decreases rows.len(),
{
    reveal_with_fuel(Seq::filter, 2);
    if rows.len() == 0 {
        assert(matches_of(l, bucket_filter(rows, rcol, b), lcol, rcol) =~= matches_of(
            l,
            rows,
            lcol,
            rcol,
        ));
    } else {
        lemma_matches_bucket_filter(l, rows.drop_last(), lcol, rcol, b);
        let sub = bucket_filter(rows.drop_last(), rcol, b);
        let la = rows.last();
        if radix_bucket(la[rcol]) == b {
            assert(bucket_filter(rows, rcol, b) == sub.push(la));
            assert(sub.push(la).drop_last() =~= sub);
        } else {
            assert(bucket_filter(rows, rcol, b) == sub);
            assert(!rows_match(l, la, lcol, rcol));
        }
    }
}

/// Joining one bucket of the left table against the matching right bucket
/// yields the same merges as joining it against the whole right table.
proof fn lemma_nl_bucket(
    lrows: Seq<Seq<i32>>,
    rrows: Seq<Seq<i32>>,
    lcol: int,
    rcol: int,
    b: int,
)
    requires
        forall|i: int| 0 <= i < lrows.len() ==> radix_bucket((#[trigger] lrows[i])[lcol]) == b,
    ensures
        nl_join(lrows, bucket_filter(rrows, rcol, b), lcol, rcol) == nl_join(
            lrows,
            rrows,
            lcol,
            rcol,
        ),
    decreases lrows.len(),
{
    if lrows.len() != 0 {
        let dl = lrows.drop_last();
        assert forall|i: int| 0 <= i < dl.len() implies radix_bucket(
            (#[trigger] dl[i])[lcol],
        ) == b by {
            assert(dl[i] == lrows[i]);
        }
        lemma_nl_bucket(dl, rrows, lcol, rcol, b);
        assert(lrows.last() == lrows[lrows.len() - 1]);
        lemma_matches_bucket_filter(lrows.last(), rrows, lcol, rcol, b);
    }
}

/// The buckets up to index `n`, concatenated in bucket order.
pub open spec fn bucket_concat(rows: Seq<Seq<i32>>, col: int, n: int) -> Seq<Seq<i32>>
    decreases n,
{
    if n <= 0 {
        Seq::empty()
    } else {
        bucket_concat(rows, col, n - 1) + bucket_filter(rows, col, n - 1)
    }
}

/// No rows, no bucket contents.
proof fn lemma_bucket_concat_empty(rows: Seq<Seq<i32>>, col: int, n: int)
    requires
        rows.len() == 0,
    ensures
        bucket_concat(rows, col, n) == Seq::<Seq<i32>>::empty(),
    decreases n,
{
    reveal_with_fuel(Seq::filter, 1);
    if n > 0 {
        lemma_bucket_concat_empty(rows, col, n - 1);
        assert(bucket_concat(rows, col, n) =~= Seq::<Seq<i32>>::empty());
    }
}

/// Appending one row adds it to exactly one bucket of the concatenation.
proof fn lemma_bucket_concat_push(rows: Seq<Seq<i32>>, x: Seq<i32>, col: int, n: int)
    ensures
        bucket_concat(rows.push(x), col, n).to_multiset() == if 0 <= radix_bucket(x[col]) < n {
            bucket_concat(rows, col, n).to_multiset().insert(x)
        } else {
            bucket_concat(rows, col, n).to_multiset()
        },
    decreases n,
{
    broadcast use vstd::seq_lib::group_to_multiset_ensures;
    broadcast use vstd::multiset::group_multiset_axioms;

    if n <= 0 {
        assert(bucket_concat(rows.push(x), col, n) == bucket_concat(rows, col, n));
    } else {
        lemma_bucket_concat_push(rows, x, col, n - 1);
        let a = bucket_concat(rows, col, n - 1);
        let a2 = bucket_concat(rows.push(x), col, n - 1);
        let f = bucket_filter(rows, col, n - 1);
        let f2 = bucket_filter(rows.push(x), col, n - 1);
        lemma_multiset_commutative(a, f);
        lemma_multiset_commutative(a2, f2);
        if radix_bucket(x[col]) == n - 1 {
            assert(f2 == f.push(x));
            assert(f2.to_multiset() == f.to_multiset().insert(x));
            assert(bucket_concat(rows.push(x), col, n).to_multiset() =~= bucket_concat(
                rows,
                col,
                n,
            ).to_multiset().insert(x));
        } else {
            assert(f2 == f);
            if 0 <= radix_bucket(x[col]) < n - 1 {
                assert(bucket_concat(rows.push(x), col, n).to_multiset() =~= bucket_concat(
                    rows,
                    col,
                    n,
                ).to_multiset().insert(x));
            } else {
                assert(bucket_concat(rows.push(x), col, n).to_multiset() =~= bucket_concat(
                    rows,
                    col,
                    n,
                ).to_multiset());
            }
        }
    }
}

/// Bucketing reorders the rows but loses and invents none: the concatenated
/// buckets hold exactly the original rows.
pub proof fn lemma_bucket_concat_perm(rows: Seq<Seq<i32>>, col: int, n: int)
    requires
        forall|i: int| 0 <= i < rows.len() ==> 0 <= radix_bucket((#[trigger] rows[i])[col]) < n,
    ensures
        bucket_concat(rows, col, n).to_multiset() == rows.to_multiset(),
    decreases rows.len(),
{
    broadcast use vstd::seq_lib::group_to_multiset_ensures;
    broadcast use vstd::multiset::group_multiset_axioms;

    if rows.len() == 0 {
        lemma_bucket_concat_empty(rows, col, n);
        assert(bucket_concat(rows, col, n).to_multiset() =~= rows.to_multiset());
    } else {
        let dl = rows.drop_last();
        let x = rows.last();
        assert forall|i: int| 0 <= i < dl.len() implies 0 <= radix_bucket(
            (#[trigger] dl[i])[col],
        ) < n by {
            assert(dl[i] == rows[i]);
        }
        lemma_bucket_concat_perm(dl, col, n);
        assert(x == rows[rows.len() - 1]);
        lemma_bucket_concat_push(dl, x, col, n);
        assert(rows =~= dl.push(x));
        assert(rows.to_multiset() == dl.to_multiset().insert(x));
    }
}

/// Reads every record once through the cursor and appends it to its key's
/// bucket; the cursor ends rewound and each bucket holds exactly its rows,
/// in table order.
pub(crate) fn partition(table: &mut SimpleTable, col: usize) -> (out: Vec<Vec<Record>>)
    requires
        old(table).wf(),
        col < old(table).cols(),
        old(table).cursor() == 0,
    ensures
        out@.len() == NUM_BUCKETS,
        forall|b: int| 0 <= b < NUM_BUCKETS ==> rows_of((#[trigger] out@[b])@) == bucket_filter(
            old(table).rows(),
            col as int,
            b,
        ),
        final(table).recs() == old(table).recs(),
        final(table).cols() == old(table).cols(),
        final(table).cursor() == 0,
{
    let ghost rows = table.rows();
    let ghost w = table.cols();
    let n = table.get_num_records();
    let mut out: Vec<Vec<Record>> = Vec::new();
    let mut b: usize = 0;
    while b < NUM_BUCKETS
        invariant
            b <= NUM_BUCKETS,
            out@.len() == b,
            forall|k: int| 0 <= k < b ==> (#[trigger] out@[k])@.len() == 0,
        decreases NUM_BUCKETS - b,
    {
        out.push(Vec::new());
        b = b + 1;
    }
    proof {
        reveal_with_fuel(Seq::filter, 1);
        assert forall|k: int| 0 <= k < NUM_BUCKETS implies rows_of(
            (#[trigger] out@[k])@,
        ) == bucket_filter(rows.take(0), col as int, k) by {
            assert(rows_of(out@[k]@) =~= bucket_filter(rows.take(0), col as int, k));
        }
    }
    let mut i: usize = 0;
    while i < n
        invariant
            i <= n,
            n == rows.len(),
            rows == table.rows(),
            table.recs() == old(table).recs(),
            table.cols() == w,
            col < w,
            uniform_width(rows, w),
            table.cursor() == i,
            out@.len() == NUM_BUCKETS,
            forall|k: int| 0 <= k < NUM_BUCKETS ==> rows_of(
                (#[trigger] out@[k])@,
            ) == bucket_filter(rows.take(i as int), col as int, k),
        decreases n - i,
    {
        let rec = table.read_next_record();
        assert(rec@ == rows[i as int]);
        assert(rows[i as int].len() == w);
        let key = rec.column_value(col);
        let bi = radix_bucket_of(key);
        let ghost prev = out@;
        out[bi].push(rec);
        i = i + 1;
        proof {
            assert(out@ == prev.update(bi as int, out@[bi as int]));
            assert(out@[bi as int]@ == prev[bi as int]@.push(rec));
            assert(rows.take(i as int) == rows.take(i - 1).push(rows[i - 1]));
            assert forall|k: int| 0 <= k < NUM_BUCKETS implies rows_of(
                (#[trigger] out@[k])@,
            ) == bucket_filter(rows.take(i as int), col as int, k) by {
                if k == bi as int {
                    assert(rows_of(out@[k]@) == rows_of(prev[k]@).push(rec@));
                    assert(bucket_filter(rows.take(i as int), col as int, k) == bucket_filter(
                        rows.take(i - 1),
                        col as int,
                        k,
                    ).push(rows[i - 1]));
                } else {
                    assert(out@[k] == prev[k]);
                    assert(bucket_filter(rows.take(i as int), col as int, k) == bucket_filter(
                        rows.take(i - 1),
                        col as int,
                        k,
                    ));
                }
            }
        }
    }
    table.rewind();
    proof {
        assert(rows.take(n as int) == rows);
    }
    out
}

/// Every key in a bucket falls in that bucket.
proof fn lemma_bucket_filter_pred(rows: Seq<Seq<i32>>, col: int, b: int, i: int)
    requires
        0 <= i < bucket_filter(rows, col, b).len(),
    ensures
        radix_bucket(bucket_filter(rows, col, b)[i][col]) == b,
    decreases rows.len(),
{
    reveal_with_fuel(Seq::filter, 2);
    if rows.len() != 0 {
        let sub = bucket_filter(rows.drop_last(), col, b);
        if radix_bucket(rows.last()[col]) == b {
            assert(bucket_filter(rows, col, b) == sub.push(rows.last()));
            if i < sub.len() {
                lemma_bucket_filter_pred(rows.drop_last(), col, b, i);
            }
        } else {
            assert(bucket_filter(rows, col, b) == sub);
            lemma_bucket_filter_pred(rows.drop_last(), col, b, i);
        }
    }
}

/// A bucket index is always within the bucket count.
proof fn lemma_radix_bucket_range(x: i32)
    ensures
        0 <= radix_bucket(x) < NUM_BUCKETS,
{
    let u: u32 = x as u32;
    assert((u & 0x3ff) < 1024) by (bit_vector);
}

/// Bucket sequences that hold each bucket's rows concatenate to the bucket
/// concatenation.
proof fn lemma_parts_bucket_concat(parts: Seq<Vec<Record>>, rows: Seq<Seq<i32>>, col: int)
    requires
        forall|b: int| 0 <= b < parts.len() ==> rows_of((#[trigger] parts[b])@) == bucket_filter(
            rows,
            col,
            b,
        ),
    ensures
        concat_rows(parts) == bucket_concat(rows, col, parts.len() as int),
    decreases parts.len(),
{
    if parts.len() != 0 {
        let dp = parts.drop_last();
        assert forall|b: int| 0 <= b < dp.len() implies rows_of(
            (#[trigger] dp[b])@,
        ) == bucket_filter(rows, col, b) by {
            assert(dp[b] == parts[b]);
        }
        lemma_parts_bucket_concat(dp, rows, col);
        assert(parts.last() == parts[parts.len() - 1]);
    }
}

/// The small hash join of one bucket pair: build on the right bucket, probe
/// with the left bucket.
pub(crate) fn radix_pair_join(
    lb: &[Record],
    rb: &[Record],
    lcol: usize,
    rcol: usize,
    lw: usize,
    rw: usize,
) -> (out: Vec<Record>)
    requires
        uniform_width(rows_of(lb@), lw as int),
        uniform_width(rows_of(rb@), rw as int),
        lcol < lw,
        rcol < rw,
        lw + rw <= M,
    ensures
        rows_of(out@) == nl_join(rows_of(lb@), rows_of(rb@), lcol as int, rcol as int),
{
    let m = build_key_map(rb, rcol, rw);
    proof {
        lemma_models_width(m@, rows_of(rb@), rcol as int, rw as int);
        lemma_probe_is_nl(rows_of(lb@), m@, rows_of(rb@), lcol as int, rcol as int);
    }
    probe_slice(&m, lb, lcol, lw, rw)
}

/// Joins each left bucket with its right bucket, one rayon worker per bucket
/// pair.
///
/// Relies on rayon's `par_iter`, `zip`, `map` and `collect`: zipping two
/// indexed parallel iterators pairs elements by index, and collecting the
/// mapped indexed iterator preserves that order; each bucket pair is joined
/// by this crate's verified `radix_pair_join`.
#[verifier::external_body]
fn par_map_pair_join(
    lefts: &Vec<Vec<Record>>,
    rights: &Vec<Vec<Record>>,
    lcol: usize,
    rcol: usize,
    lw: usize,
    rw: usize,
) -> (out: Vec<Vec<Record>>)
    requires
        lefts@.len() == rights@.len(),
        forall|b: int| 0 <= b < lefts@.len() ==> uniform_width(
            rows_of((#[trigger] lefts@[b])@),
            lw as int,
        ),
        forall|b: int| 0 <= b < rights@.len() ==> uniform_width(
            rows_of((#[trigger] rights@[b])@),
            rw as int,
        ),
        lcol < lw,
        rcol < rw,
        lw + rw <= M,
    ensures
        out@.len() == lefts@.len(),
        forall|b: int| 0 <= b < out@.len() ==> rows_of((#[trigger] out@[b])@) == nl_join(
            rows_of(lefts@[b]@),
            rows_of(rights@[b]@),
            lcol as int,
            rcol as int,
        ),
{
    lefts.par_iter().zip(rights.par_iter()).map(
        |(lb, rb): (&Vec<Record>, &Vec<Record>)|
            radix_pair_join(lb.as_slice(), rb.as_slice(), lcol, rcol, lw, rw),
    ).collect()
}

/// The two-level radix-partitioned hash join.
pub struct RadixJoin {
    left: SimpleTable,
    right: SimpleTable,
}

impl RadixJoin {
    /// The outer table.
    pub closed spec fn ltab(&self) -> SimpleTable {
        self.left
    }

    /// The inner table.
    pub closed spec fn rtab(&self) -> SimpleTable {
        self.right
    }

    /// Takes exclusive ownership of both tables for the join's lifetime.
    pub fn new(left: SimpleTable, right: SimpleTable) -> (out: Self)
        ensures
            out.ltab() == left,
            out.rtab() == right,
    {
        Self { left, right }
    }

    /// Partitions each table into `NUM_BUCKETS` buckets by the join key,
    /// joins each bucket pair with a small hash join in parallel, and
    /// concatenates the bucket results in bucket order: the multiset of
    /// merged rows is exactly the reference join's. Both cursors end
    /// rewound and the records keep their order.
    pub fn equi_join(&mut self, left_col: usize, right_col: usize) -> (out: Vec<Record>)
        requires
            joinable(old(self).ltab(), old(self).rtab(), left_col as int, right_col as int),
            old(self).ltab().cursor() == 0,
            old(self).rtab().cursor() == 0,
        ensures
            rows_of(out@).to_multiset() == nl_join(
                old(self).ltab().rows(),
                old(self).rtab().rows(),
                left_col as int,
                right_col as int,
            ).to_multiset(),
            final(self).ltab().recs() == old(self).ltab().recs(),
            final(self).rtab().recs() == old(self).rtab().recs(),
            final(self).ltab().cols() == old(self).ltab().cols(),
            final(self).rtab().cols() == old(self).rtab().cols(),
            final(self).ltab().cursor() == 0,
            final(self).rtab().cursor() == 0,
    {
        let ghost lrows = self.left.rows();
        let ghost rrows = self.right.rows();
        let ghost lc = left_col as int;
        let ghost rc = right_col as int;
        let lwidth = self.left.get_num_columns_per_record();
        let rwidth = self.right.get_num_columns_per_record();
        let left_partitions = partition(&mut self.left, left_col);
        let right_partitions = partition(&mut self.right, right_col);
        proof {
            assert forall|b: int| 0 <= b < left_partitions@.len() implies uniform_width(
                rows_of((#[trigger] left_partitions@[b])@),
                lwidth as int,
            ) by {
                crate::model::lemma_filter_uniform(
                    lrows,
                    |r: Seq<i32>| radix_bucket(r[lc]) == b,
                    lwidth as int,
                );
            }
            assert forall|b: int| 0 <= b < right_partitions@.len() implies uniform_width(
                rows_of((#[trigger] right_partitions@[b])@),
                rwidth as int,
            ) by {
                crate::model::lemma_filter_uniform(
                    rrows,
                    |r: Seq<i32>| radix_bucket(r[rc]) == b,
                    rwidth as int,
                );
            }
        }
        let parts = par_map_pair_join(
            &left_partitions,
            &right_partitions,
            left_col,
            right_col,
            lwidth,
            rwidth,
        );
        proof {
            assert forall|b: int| 0 <= b < parts@.len() implies rows_of(
                (#[trigger] parts@[b])@,
            ) == nl_join(rows_of(left_partitions@[b]@), rrows, lc, rc) by {
                let lbr = rows_of(left_partitions@[b]@);
                assert forall|i: int| 0 <= i < lbr.len() implies radix_bucket(
                    (#[trigger] lbr[i])[lc],
                ) == b by {
                    lemma_bucket_filter_pred(lrows, lc, b, i);
                }
                lemma_nl_bucket(lbr, rrows, lc, rc, b);
            }
            lemma_concat_parts_join(parts@, left_partitions@, rrows, lc, rc);
            lemma_parts_bucket_concat(left_partitions@, lrows, lc);
            assert forall|i: int| 0 <= i < lrows.len() implies 0 <= radix_bucket(
                (#[trigger] lrows[i])[lc],
            ) < NUM_BUCKETS by {
                lemma_radix_bucket_range(lrows[i][lc]);
            }
            lemma_bucket_concat_perm(lrows, lc, NUM_BUCKETS as int);
            lemma_nl_left_permutation(concat_rows(left_partitions@), lrows, rrows, lc, rc);
        }
        concat_parts(&parts)
    }
}

} // verus!
