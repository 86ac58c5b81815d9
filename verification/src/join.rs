//! The single-threaded join algorithms: naive nested loops, block nested
//! loops, and the single hash join, each proved against the reference join
//! of [`crate::model`].

use vstd::prelude::*;
use vstd::seq_lib::lemma_multiset_commutative;
use std::collections::HashMap;
use crate::record::{Record, M};
use crate::table::SimpleTable;
use crate::model::{
    rows_of, uniform_width, nl_join, matches_of, rows_match,
    lemma_nl_take_step, lemma_matches_take_step, lemma_nl_left_append,
    lemma_nl_right_append_multiset, lemma_empty_join,
    lemma_filter_uniform, key_filter, lemma_matches_key_filter,
};

verus! {

broadcast use
    crate::model::lemma_rows_of_push,
    vstd::seq::Seq::lemma_take_succ_push,
    vstd::seq::Seq::lemma_take_len,
    vstd::seq::Seq::lemma_filter_push,
    vstd::std_specs::hash::group_hash_axioms,
;

/// The closed set of join algorithm variants; dispatch and labeling only.
#[derive(Debug, Clone, Copy, PartialEq, Eq, Structural)]
pub enum JoinAlgos {
    NLJoin,
    BNLJoin,
    SimpleHashJoin,
    RadixJoin,
    PNLJoin,
    ParallelSimpleHashJoin,
    ParallelUnaryLeapFrogJoin,
}

/// What two joinable tables and a column pair must satisfy: well-formed
/// tables, join columns in range, and merged records that fit the capacity.
pub open spec fn joinable(
    left: SimpleTable,
    right: SimpleTable,
    lcol: int,
    rcol: int,
) -> bool {
    &&& left.wf()
    &&& right.wf()
    &&& 0 <= lcol < left.cols()
    &&& 0 <= rcol < right.cols()
    &&& left.cols() + right.cols() <= M
}

/// Appends to `out` the merge of every matching pair of one left window and
/// one right window, scanning the left window in order and the full right
/// window per left record.
pub(crate) fn join_pair(
    out: &mut Vec<Record>,
    lb: &[Record],
    rb: &[Record],
    lcol: usize,
    rcol: usize,
    lw: usize,
    rw: usize,
)
    requires
        uniform_width(rows_of(lb@), lw as int),
        uniform_width(rows_of(rb@), rw as int),
        lcol < lw,
        rcol < rw,
        lw + rw <= M,
    ensures
        rows_of(final(out)@) == rows_of(old(out)@) + nl_join(
            rows_of(lb@),
            rows_of(rb@),
            lcol as int,
            rcol as int,
        ),
{
    let ghost lrows = rows_of(lb@);
    let ghost rrows = rows_of(rb@);
    let ln = lb.len();
    let rn = rb.len();
    let mut i: usize = 0;
    while i < ln
        invariant
            i <= ln,
            ln == lrows.len(),
            rn == rrows.len(),
            lrows == rows_of(lb@),
            rrows == rows_of(rb@),
            uniform_width(lrows, lw as int),
            uniform_width(rrows, rw as int),
            lcol < lw,
            rcol < rw,
            lw + rw <= M,
            rows_of(out@) == rows_of(old(out)@) + nl_join(
                lrows.take(i as int),
                rrows,
                lcol as int,
                rcol as int,
            ),
        decreases ln - i,
    {
        let mut j: usize = 0;
        while j < rn
            invariant
                i < ln,
                j <= rn,
                ln == lrows.len(),
                rn == rrows.len(),
                lrows == rows_of(lb@),
                rrows == rows_of(rb@),
                uniform_width(lrows, lw as int),
                uniform_width(rrows, rw as int),
                lcol < lw,
                rcol < rw,
                lw + rw <= M,
                rows_of(out@) == rows_of(old(out)@) + nl_join(
                    lrows.take(i as int),
                    rrows,
                    lcol as int,
                    rcol as int,
                ) + matches_of(lrows[i as int], rrows.take(j as int), lcol as int, rcol as int),
            decreases rn - j,
        {
            proof {
                assert(lrows[i as int].len() == lw);
                assert(rrows[j as int].len() == rw);
                lemma_matches_take_step(
                    lrows[i as int],
                    rrows,
                    lcol as int,
                    rcol as int,
                    j as int,
                );
            }
            if lb[i].column_value(lcol) == rb[j].column_value(rcol) {
                assert(rows_match(lrows[i as int], rrows[j as int], lcol as int, rcol as int));
                let merged = Record::merge(&lb[i], &rb[j]).unwrap();
                out.push(merged);
            } else {
                assert(!rows_match(lrows[i as int], rrows[j as int], lcol as int, rcol as int));
            }
            j = j + 1;
        }
        proof {
            assert(rrows.take(rn as int) == rrows);
            lemma_nl_take_step(lrows, rrows, lcol as int, rcol as int, i as int);
        }
        i = i + 1;
    }
    proof {
        assert(lrows.take(ln as int) == lrows);
    }
}

/// The naive nested-loops join: the correctness oracle the other algorithms
/// are compared against.
pub struct NestedLoopsJoin {
    left: SimpleTable,
    right: SimpleTable,
}

impl NestedLoopsJoin {
    /// The outer table.
    pub closed spec fn ltab(&self) -> SimpleTable {
        self.left
    }

    /// The inner table.
    pub closed spec fn rtab(&self) -> SimpleTable {
        self.right
    }

    /// Takes exclusive ownership of both tables for the join's lifetime.
    pub fn new(left: SimpleTable, right: SimpleTable) -> (out: Self)
        ensures
            out.ltab() == left,
            out.rtab() == right,
    {
        Self { left, right }
    }

    /// For each outer record in order, scans the full inner table and emits
    /// the merge of every matching pair; both cursors end rewound.
    pub fn equi_join(&mut self, left_col: usize, right_col: usize) -> (out: Vec<Record>)
        requires
            joinable(old(self).ltab(), old(self).rtab(), left_col as int, right_col as int),
            old(self).ltab().cursor() == 0,
            old(self).rtab().cursor() == 0,
        ensures
            rows_of(out@) == nl_join(
                old(self).ltab().rows(),
                old(self).rtab().rows(),
                left_col as int,
                right_col as int,
            ),
            final(self).ltab().recs() == old(self).ltab().recs(),
            final(self).rtab().recs() == old(self).rtab().recs(),
            final(self).ltab().cols() == old(self).ltab().cols(),
            final(self).rtab().cols() == old(self).rtab().cols(),
            final(self).ltab().cursor() == 0,
            final(self).rtab().cursor() == 0,
    {
        let ghost lrows = self.left.rows();
        let ghost rrows = self.right.rows();
        let ghost lw = self.left.cols();
        let ghost rw = self.right.cols();
        let left_size = self.left.get_num_records();
        let right_size = self.right.get_num_records();
        let mut join_result: Vec<Record> = Vec::new();
        let mut l: usize = 0;
        while l < left_size
            invariant
                l <= left_size,
                left_size == lrows.len(),
                right_size == rrows.len(),
                self.left.rows() == lrows,
                self.right.rows() == rrows,
                self.left.recs() == old(self).ltab().recs(),
                self.right.recs() == old(self).rtab().recs(),
                self.left.cols() == lw,
                self.right.cols() == rw,
                left_col < lw,
                right_col < rw,
                lw + rw <= M,
                uniform_width(lrows, lw),
                uniform_width(rrows, rw),
                self.left.cursor() == l,
                self.right.cursor() == 0,
                rows_of(join_result@) == nl_join(
                    lrows.take(l as int),
                    rrows,
                    left_col as int,
                    right_col as int,
                ),
            decreases left_size - l,
        {
            let left_record = self.left.read_next_record();
            assert(left_record@ == lrows[l as int]);
            assert(lrows[l as int].len() == lw);
            let mut r: usize = 0;
            while r < right_size
                invariant
                    l < left_size,
                    r <= right_size,
                    left_size == lrows.len(),
                    right_size == rrows.len(),
                    self.left.rows() == lrows,
                    self.right.rows() == rrows,
                    self.left.recs() == old(self).ltab().recs(),
                    self.right.recs() == old(self).rtab().recs(),
                    self.left.cols() == lw,
                    self.right.cols() == rw,
                    left_col < lw,
                    right_col < rw,
                    lw + rw <= M,
                    uniform_width(lrows, lw),
                    uniform_width(rrows, rw),
                    self.left.cursor() == l + 1,
                    self.right.cursor() == r,
                    left_record@ == lrows[l as int],
                    left_record@.len() == lw,
                    rows_of(join_result@) == nl_join(
                        lrows.take(l as int),
                        rrows,
                        left_col as int,
                        right_col as int,
                    ) + matches_of(
                        lrows[l as int],
                        rrows.take(r as int),
                        left_col as int,
                        right_col as int,
                    ),
                decreases right_size - r,
            {
                let right_record = self.right.read_next_record();
                assert(right_record@ == rrows[r as int]);
                assert(rrows[r as int].len() == rw);
                proof {
                    lemma_matches_take_step(
                        lrows[l as int],
                        rrows,
                        left_col as int,
                        right_col as int,
                        r as int,
                    );
                }
                if left_record.column_value(left_col) == right_record.column_value(right_col) {
                    assert(rows_match(
                        lrows[l as int],
                        rrows[r as int],
                        left_col as int,
                        right_col as int,
                    ));
                    let join_record = Record::merge(&left_record, &right_record).unwrap();
                    join_result.push(join_record);
                } else {
                    assert(!rows_match(
                        lrows[l as int],
                        rrows[r as int],
                        left_col as int,
                        right_col as int,
                    ));
                }
                r = r + 1;
            }
            self.right.rewind();
            proof {
                assert(rrows.take(right_size as int) == rrows);
                lemma_nl_take_step(lrows, rrows, left_col as int, right_col as int, l as int);
            }
            l = l + 1;
        }
        self.left.rewind();
        proof {
            assert(lrows.take(left_size as int) == lrows);
        }
        join_result
    }
}

/// The block nested-loops join: both tables are scanned in fixed-size
/// windows, the last window of each pass possibly shorter.
pub struct BlockNL {
    left: SimpleTable,
    right: SimpleTable,
    l_block_sz: usize,
    r_block_sz: usize,
}

impl BlockNL {
    /// The outer table.
    pub closed spec fn ltab(&self) -> SimpleTable {
        self.left
    }

    /// The inner table.
    pub closed spec fn rtab(&self) -> SimpleTable {
        self.right
    }

    /// The outer window size.
    pub closed spec fn lbs(&self) -> int {
        self.l_block_sz as int
    }

    /// The inner window size.
    pub closed spec fn rbs(&self) -> int {
        self.r_block_sz as int
    }

    /// Takes exclusive ownership of both tables and fixes the window sizes.
    pub fn new(
        left: SimpleTable,
        right: SimpleTable,
        l_block_sz: usize,
        r_block_sz: usize,
    ) -> (out: Self)
        ensures
            out.ltab() == left,
            out.rtab() == right,
            out.lbs() == l_block_sz,
            out.rbs() == r_block_sz,
    {
        Self { left, right, l_block_sz, r_block_sz }
    }

    /// How many windows of size `block_size` cover `num_records` records:
    /// the quotient rounded upward.
    pub fn get_effective_num_blocks(&self, num_records: usize, block_size: usize) -> (out: usize)
        requires
            block_size >= 1,
        ensures
            out == (num_records + block_size - 1) as int / block_size as int,
    {
        let q = num_records / block_size;
        let r = num_records % block_size;
        proof {
            let n = num_records as int;
            let b = block_size as int;
            vstd::arithmetic::div_mod::lemma_fundamental_div_mod(n, b);
            assert(n == b * (n / b) + n % b);
            if r != 0 {
                assert(q as int <= q as int * b) by (nonlinear_arith)
                    requires q as int >= 0 && b >= 1;
                assert(q as int == n / b && r as int == n % b);
                assert(q as int * b == b * (n / b)) by (nonlinear_arith)
                    requires q as int == n / b;
                assert(q as int * b == n - r as int);
                assert(q as int <= n - 1);
                assert(q < num_records);
                assert((r - 1) + (q + 1) as int * b == n + b - 1) by (nonlinear_arith)
                    requires n == b * (q as int) + r as int;
                vstd::arithmetic::div_mod::lemma_hoist_over_denominator(
                    r as int - 1,
                    q as int + 1,
                    block_size as nat,
                );
                vstd::arithmetic::div_mod::lemma_basic_div(r as int - 1, b);
                assert((n + b - 1) / b == q + 1);
            } else {
                assert((b - 1) + q as int * b == n + b - 1) by (nonlinear_arith)
                    requires n == b * (q as int) + r as int && r == 0;
                vstd::arithmetic::div_mod::lemma_hoist_over_denominator(
                    b - 1,
                    q as int,
                    block_size as nat,
                );
                vstd::arithmetic::div_mod::lemma_basic_div(b - 1, b);
                assert((n + b - 1) / b == q as int);
            }
        }
        if r != 0 {
            q + 1
        } else {
            q
        }
    }

    /// The outer window size, as configured.
    pub fn get_left_block_size(&self) -> (out: usize)
        ensures
            out == self.lbs(),
    {
        self.l_block_sz
    }

    /// The inner window size, as configured.
    pub fn get_right_block_size(&self) -> (out: usize)
        ensures
            out == self.rbs(),
    {
        self.r_block_sz
    }

    /// For each outer window, scans the inner table window by window and
    /// emits the merge of every matching pair. The emission order interleaves
    /// outer records, but the multiset of merged rows is exactly the
    /// reference join's, whatever the two window sizes; both cursors end
    /// rewound.
    pub fn equi_join(&mut self, left_col: usize, right_col: usize) -> (out: Vec<Record>)
        requires
            joinable(old(self).ltab(), old(self).rtab(), left_col as int, right_col as int),
            old(self).ltab().cursor() == 0,
            old(self).rtab().cursor() == 0,
            old(self).lbs() >= 1,
            old(self).rbs() >= 1,
        ensures
            rows_of(out@).to_multiset() == nl_join(
                old(self).ltab().rows(),
                old(self).rtab().rows(),
                left_col as int,
                right_col as int,
            ).to_multiset(),
            final(self).ltab().recs() == old(self).ltab().recs(),
            final(self).rtab().recs() == old(self).rtab().recs(),
            final(self).ltab().cols() == old(self).ltab().cols(),
            final(self).rtab().cols() == old(self).rtab().cols(),
            final(self).ltab().cursor() == 0,
            final(self).rtab().cursor() == 0,
            final(self).lbs() == old(self).lbs(),
            final(self).rbs() == old(self).rbs(),
    {
        broadcast use vstd::multiset::group_multiset_axioms;
        broadcast use vstd::seq_lib::group_to_multiset_ensures;

        let ghost lrows = self.left.rows();
        let ghost rrows = self.right.rows();
        let ghost lw = self.left.cols();
        let ghost rw = self.right.cols();
        let ghost lc = left_col as int;
        let ghost rc = right_col as int;
        let left_size = self.left.get_num_records();
        let right_size = self.right.get_num_records();
        let l_sz = self.l_block_sz;
        let r_sz = self.r_block_sz;
        let lwidth = self.left.get_num_columns_per_record();
        let rwidth = self.right.get_num_columns_per_record();

        let mut join_result: Vec<Record> = Vec::new();
        let mut lpos: usize = 0;
        while lpos < left_size
            invariant
                lpos <= left_size,
                left_size == lrows.len(),
                right_size == rrows.len(),
                self.left.rows() == lrows,
                self.right.rows() == rrows,
                self.left.recs() == old(self).ltab().recs(),
                self.right.recs() == old(self).rtab().recs(),
                self.left.cols() == lw,
                self.right.cols() == rw,
                left_col < lw,
                right_col < rw,
                lw + rw <= M,
                uniform_width(lrows, lw),
                uniform_width(rrows, rw),
                l_sz >= 1,
                r_sz >= 1,
                self.l_block_sz == l_sz,
                self.r_block_sz == r_sz,
                lwidth as int == lw,
                rwidth as int == rw,
                lc == left_col as int,
                rc == right_col as int,
                self.left.cursor() == lpos,
                self.right.cursor() == 0,
                rows_of(join_result@).to_multiset() == nl_join(
                    lrows.take(lpos as int),
                    rrows,
                    lc,
                    rc,
                ).to_multiset(),
            decreases left_size - lpos,
        {
            let left_block = self.left.read_next_block(l_sz);
            let lpos2: usize = if l_sz <= left_size - lpos {
                lpos + l_sz
            } else {
                left_size
            };
            assert(self.left.cursor() == lpos2);
            let ghost lbrows = rows_of(left_block@);
            assert(lbrows == lrows.subrange(lpos as int, lpos2 as int));
            assert forall|k: int| 0 <= k < lbrows.len() implies (#[trigger] lbrows[k]).len()
                == lw by {
                assert(lbrows[k] == lrows[lpos + k]);
            }
            let mut rpos: usize = 0;
            proof {
                lemma_empty_join(lbrows, rrows.take(0), lc, rc);
                broadcast use vstd::multiset::group_multiset_axioms;
                broadcast use vstd::seq_lib::group_to_multiset_ensures;

                assert(rows_of(join_result@).to_multiset() =~= nl_join(
                    lrows.take(lpos as int),
                    rrows,
                    lc,
                    rc,
                ).to_multiset().add(nl_join(lbrows, rrows.take(0), lc, rc).to_multiset()));
            }
            while rpos < right_size
                invariant
                    lpos < lpos2 <= left_size,
                    rpos <= right_size,
                    left_size == lrows.len(),
                    right_size == rrows.len(),
                    self.left.rows() == lrows,
                    self.right.rows() == rrows,
                    self.left.recs() == old(self).ltab().recs(),
                    self.right.recs() == old(self).rtab().recs(),
                    self.left.cols() == lw,
                    self.right.cols() == rw,
                    left_col < lw,
                    right_col < rw,
                    lw + rw <= M,
                    uniform_width(lrows, lw),
                    uniform_width(rrows, rw),
                    uniform_width(lbrows, lw),
                    r_sz >= 1,
                    self.l_block_sz == l_sz,
                    self.r_block_sz == r_sz,
                    lwidth as int == lw,
                    rwidth as int == rw,
                    lc == left_col as int,
                    rc == right_col as int,
                    self.left.cursor() == lpos2,
                    self.right.cursor() == rpos,
                    lbrows == rows_of(left_block@),
                    lbrows == lrows.subrange(lpos as int, lpos2 as int),
                    rows_of(join_result@).to_multiset() == nl_join(
                        lrows.take(lpos as int),
                        rrows,
                        lc,
                        rc,
                    ).to_multiset().add(nl_join(lbrows, rrows.take(rpos as int), lc, rc).to_multiset()),
                decreases right_size - rpos,
            {
                let right_block = self.right.read_next_block(r_sz);
                let rpos2: usize = if r_sz <= right_size - rpos {
                    rpos + r_sz
                } else {
                    right_size
                };
                assert(self.right.cursor() == rpos2);
                let ghost rbrows = rows_of(right_block@);
                assert(rbrows == rrows.subrange(rpos as int, rpos2 as int));
                assert forall|k: int| 0 <= k < rbrows.len() implies (#[trigger] rbrows[k]).len()
                    == rw by {
                    assert(rbrows[k] == rrows[rpos + k]);
                }
                let ghost before = rows_of(join_result@);
                join_pair(
                    &mut join_result,
                    left_block.as_slice(),
                    right_block.as_slice(),
                    left_col,
                    right_col,
                    lwidth,
                    rwidth,
                );
                proof {
                    let a = nl_join(lrows.take(lpos as int), rrows, lc, rc).to_multiset();
                    let b = nl_join(lbrows, rrows.take(rpos as int), lc, rc).to_multiset();
                    let c = nl_join(lbrows, rbrows, lc, rc).to_multiset();
                    lemma_multiset_commutative(before, nl_join(lbrows, rbrows, lc, rc));
                    assert(rows_of(join_result@).to_multiset() == a.add(b).add(c));
                    assert(rrows.take(rpos2 as int) =~= rrows.take(rpos as int) + rbrows);
                    lemma_nl_right_append_multiset(lbrows, rrows.take(rpos as int), rbrows, lc, rc);
                    assert(nl_join(lbrows, rrows.take(rpos2 as int), lc, rc).to_multiset() == b.add(
                        c,
                    ));
                    assert(a.add(b).add(c) =~= a.add(b.add(c)));
                }
                rpos = rpos2;
            }
            self.right.rewind();
            proof {
                assert(rrows.take(right_size as int) == rrows);
                assert(lrows.take(lpos2 as int) =~= lrows.take(lpos as int) + lbrows);
                lemma_nl_left_append(lrows.take(lpos as int), lbrows, rrows, lc, rc);
                lemma_multiset_commutative(
                    nl_join(lrows.take(lpos as int), rrows, lc, rc),
                    nl_join(lbrows, rrows, lc, rc),
                );
                assert(rows_of(join_result@).to_multiset() =~= nl_join(
                    lrows.take(lpos2 as int),
                    rrows,
                    lc,
                    rc,
                ).to_multiset());
            }
            lpos = lpos2;
        }
        self.left.rewind();
        proof {
            assert(lrows.take(left_size as int) == lrows);
        }
        join_result
    }
}

/// The map is exactly the key-indexed multimap of `rows`: it holds a key if
/// and only if some row carries it, and then maps it to all such rows in
/// table order.
pub open spec fn map_models(m: Map<i32, Vec<Record>>, rows: Seq<Seq<i32>>, rcol: int) -> bool {
    &&& forall|k: i32| #[trigger] m.contains_key(k) <==> key_filter(rows, rcol, k).len() != 0
    &&& forall|k: i32| #[trigger] m.contains_key(k) ==> rows_of(m[k]@) == key_filter(
        rows,
        rcol,
        k,
    )
}

/// Every row sequence the map holds has width `w`.
pub open spec fn map_width(m: Map<i32, Vec<Record>>, w: int) -> bool {
    forall|k: i32| #[trigger] m.contains_key(k) ==> uniform_width(rows_of(m[k]@), w)
}

/// What a probe of key `k` yields: the rows under the key, or nothing.
pub open spec fn bucket_rows(m: Map<i32, Vec<Record>>, k: i32) -> Seq<Seq<i32>> {
    if m.contains_key(k) {
        rows_of(m[k]@)
    } else {
        Seq::empty()
    }
}

/// The rows a probe pass emits: for each left row in order, its bucket's
/// rows in order, each merged onto it.
pub open spec fn probe_spec(
    lrows: Seq<Seq<i32>>,
    m: Map<i32, Vec<Record>>,
    lcol: int,
) -> Seq<Seq<i32>>
    decreases lrows.len(),
{
    if lrows.len() == 0 {
        Seq::empty()
    } else {
        probe_spec(lrows.drop_last(), m, lcol) + bucket_rows(
            m,
            lrows.last()[lcol],
        ).map_values(|r: Seq<i32>| lrows.last() + r)
    }
}

/// Extending the probed prefix by one left row appends that row's merges.
proof fn lemma_probe_take_step(
    lrows: Seq<Seq<i32>>,
    m: Map<i32, Vec<Record>>,
    lcol: int,
    i: int,
)
    requires
        0 <= i < lrows.len(),
    ensures
        probe_spec(lrows.take(i + 1), m, lcol) == probe_spec(lrows.take(i), m, lcol)
            + bucket_rows(m, lrows[i][lcol]).map_values(|r: Seq<i32>| lrows[i] + r),
{
    assert(lrows.take(i + 1).drop_last() =~= lrows.take(i));
    assert(lrows.take(i + 1).last() == lrows[i]);
}

/// A map that models the right table makes a probe pass emit exactly the
/// reference join.
pub proof fn lemma_probe_is_nl(
    lrows: Seq<Seq<i32>>,
    m: Map<i32, Vec<Record>>,
    rrows: Seq<Seq<i32>>,
    lcol: int,
    rcol: int,
)
    requires
        map_models(m, rrows, rcol),
    ensures
        probe_spec(lrows, m, lcol) == nl_join(lrows, rrows, lcol, rcol),
    decreases lrows.len(),
{
    if lrows.len() != 0 {
        lemma_probe_is_nl(lrows.drop_last(), m, rrows, lcol, rcol);
        let la = lrows.last();
        let k = la[lcol];
        lemma_matches_key_filter(la, rrows, lcol, rcol);
        assert(m.contains_key(k) <==> key_filter(rrows, rcol, k).len() != 0);
        if m.contains_key(k) {
            assert(bucket_rows(m, k) == key_filter(rrows, rcol, k));
        } else {
            assert(key_filter(rrows, rcol, k).len() == 0);
            assert(bucket_rows(m, k) =~= key_filter(rrows, rcol, k));
        }
        assert(matches_of(la, rrows, lcol, rcol) == bucket_rows(m, k).map_values(
            |r: Seq<i32>| la + r,
        ));
    }
}

/// Uniform source rows give the modeled map uniform bucket rows.
pub proof fn lemma_models_width(
    m: Map<i32, Vec<Record>>,
    rows: Seq<Seq<i32>>,
    rcol: int,
    w: int,
)
    requires
        map_models(m, rows, rcol),
        uniform_width(rows, w),
    ensures
        map_width(m, w),
{
    assert forall|k: i32| #[trigger] m.contains_key(k) implies uniform_width(
        rows_of(m[k]@),
        w,
    ) by {
        assert(rows_of(m[k]@) == key_filter(rows, rcol, k));
        lemma_filter_uniform(rows, |r: Seq<i32>| r[rcol] == k, w);
    }
}

/// Builds the key-indexed multimap of the given records: one pass, each
/// record appended to its key's bucket in order.
pub(crate) fn build_key_map(recs: &[Record], rcol: usize, rw: usize) -> (m: HashMap<
    i32,
    Vec<Record>,
>)
    requires
        uniform_width(rows_of(recs@), rw as int),
        rcol < rw,
    ensures
        map_models(m@, rows_of(recs@), rcol as int),
{
    let ghost rrows = rows_of(recs@);
    let n = recs.len();
    let mut m: HashMap<i32, Vec<Record>> = HashMap::new();
    proof {
        reveal_with_fuel(Seq::filter, 1);
        assert forall|k: i32| #[trigger] m@.contains_key(k) <==> key_filter(
            rrows.take(0),
            rcol as int,
            k,
        ).len() != 0 by {
            assert(key_filter(rrows.take(0), rcol as int, k).len() == 0);
        }
    }
    let mut j: usize = 0;
    while j < n
        invariant
            j <= n,
            n == rrows.len(),
            rrows == rows_of(recs@),
            uniform_width(rrows, rw as int),
            rcol < rw,
            map_models(m@, rrows.take(j as int), rcol as int),
        decreases n - j,
    {
        let rec = recs[j].clone();
        assert(rec@ == rrows[j as int]);
        assert(rrows[j as int].len() == rw);
        let k = rec.column_value(rcol);
        let ghost prevm = m@;
        let ghost prev = rrows.take(j as int);
        let mut bucket: Vec<Record> = match m.remove(&k) {
            Some(b) => b,
            None => Vec::new(),
        };
        let ghost oldbucket = bucket@;
        bucket.push(rec);
        m.insert(k, bucket);
        j = j + 1;
        proof {
            let cur = rrows.take(j as int);
            let rc = rcol as int;
            assert(cur == prev.push(rrows[j - 1]));
            assert(rrows[j - 1][rc] == k);
            if prevm.contains_key(k) {
                assert(rows_of(oldbucket) == key_filter(prev, rc, k));
            } else {
                assert(key_filter(prev, rc, k).len() == 0);
                assert(rows_of(oldbucket) =~= key_filter(prev, rc, k));
            }
            assert forall|k2: i32| #[trigger] m@.contains_key(k2) <==> key_filter(
                cur,
                rc,
                k2,
            ).len() != 0 by {
                if k2 == k {
                    assert(m@.contains_key(k));
                    assert(key_filter(cur, rc, k) == key_filter(prev, rc, k).push(rrows[j - 1]));
                } else {
                    assert(key_filter(cur, rc, k2) == key_filter(prev, rc, k2));
                    assert(m@.contains_key(k2) <==> prevm.contains_key(k2));
                }
            }
            assert forall|k2: i32| #[trigger] m@.contains_key(k2) implies rows_of(m@[k2]@)
                == key_filter(cur, rc, k2) by {
                if k2 == k {
                    assert(m@[k]@ == oldbucket.push(rec));
                    assert(key_filter(cur, rc, k) == key_filter(prev, rc, k).push(rrows[j - 1]));
                } else {
                    assert(key_filter(cur, rc, k2) == key_filter(prev, rc, k2));
                    assert(m@[k2] == prevm[k2]);
                }
            }
        }
    }
    proof {
        assert(rrows.take(n as int) == rrows);
    }
    m
}

/// Probes the map with each record of a left window in order, emitting the
/// merges with every record of the matching bucket in bucket order.
pub(crate) fn probe_slice(
    m: &HashMap<i32, Vec<Record>>,
    recs: &[Record],
    lcol: usize,
    lw: usize,
    rw: usize,
) -> (out: Vec<Record>)
    requires
        uniform_width(rows_of(recs@), lw as int),
        lcol < lw,
        map_width(m@, rw as int),
        lw + rw <= M,
    ensures
        rows_of(out@) == probe_spec(rows_of(recs@), m@, lcol as int),
{
    let ghost lrows = rows_of(recs@);
    let n = recs.len();
    let mut out: Vec<Record> = Vec::new();
    let mut i: usize = 0;
    while i < n
        invariant
            i <= n,
            n == lrows.len(),
            lrows == rows_of(recs@),
            uniform_width(lrows, lw as int),
            lcol < lw,
            map_width(m@, rw as int),
            lw + rw <= M,
            rows_of(out@) == probe_spec(lrows.take(i as int), m@, lcol as int),
        decreases n - i,
    {
        assert(lrows[i as int].len() == lw);
        let k = recs[i].column_value(lcol);
        proof {
            lemma_probe_take_step(lrows, m@, lcol as int, i as int);
        }
        let ghost mergef = |r: Seq<i32>| lrows[i as int] + r;
        match m.get(&k) {
            None => {
                proof {
                    assert(!m@.contains_key(k));
                    assert(bucket_rows(m@, k).map_values(mergef) =~= Seq::<Seq<i32>>::empty());
                    assert(rows_of(out@) =~= probe_spec(
                        lrows.take(i + 1),
                        m@,
                        lcol as int,
                    ));
                }
            },
            Some(bucket) => {
                assert(m@.contains_key(k));
                assert(rows_of(bucket@) == bucket_rows(m@, k));
                let ghost target = bucket_rows(m@, k).map_values(mergef);
                let bn = bucket.len();
                let mut b: usize = 0;
                while b < bn
                    invariant
                        b <= bn,
                        i < n,
                        n == lrows.len(),
                        lrows == rows_of(recs@),
                        uniform_width(lrows, lw as int),
                        lcol < lw,
                        map_width(m@, rw as int),
                        lw + rw <= M,
                        m@.contains_key(k),
                        rows_of(bucket@) == bucket_rows(m@, k),
                        bn == bucket@.len(),
                        mergef == (|r: Seq<i32>| lrows[i as int] + r),
                        target == bucket_rows(m@, k).map_values(mergef),
                        lrows[i as int].len() == lw,
                        rows_of(out@) == probe_spec(lrows.take(i as int), m@, lcol as int)
                            + target.take(b as int),
                    decreases bn - b,
                {
                    assert(rows_of(bucket@)[b as int].len() == rw);
                    let merged = Record::merge(&recs[i], &bucket[b]).unwrap();
                    out.push(merged);
                    b = b + 1;
                    proof {
                        assert(target[b - 1] == mergef(rows_of(bucket@)[b - 1]));
                        assert(rows_of(out@) =~= probe_spec(
                            lrows.take(i as int),
                            m@,
                            lcol as int,
                        ) + target.take(b as int));
                    }
                }
                proof {
                    assert(target.take(bn as int) == target);
                    assert(rows_of(out@) == probe_spec(lrows.take(i + 1), m@, lcol as int));
                }
            },
        }
        i = i + 1;
    }
    proof {
        assert(lrows.take(n as int) == lrows);
    }
    out
}

/// The single-threaded hash join: one pass over the inner table builds a
/// key-indexed multimap, one pass over the outer table probes it.
pub struct SimpleHashJoin {
    left: SimpleTable,
    right: SimpleTable,
}

impl SimpleHashJoin {
    /// The outer table.
    pub closed spec fn ltab(&self) -> SimpleTable {
        self.left
    }

    /// The inner table.
    pub closed spec fn rtab(&self) -> SimpleTable {
        self.right
    }

    /// Takes exclusive ownership of both tables for the join's lifetime.
    pub fn new(left: SimpleTable, right: SimpleTable) -> (out: Self)
        ensures
            out.ltab() == left,
            out.rtab() == right,
    {
        Self { left, right }
    }

    /// Builds the multimap over the inner table, then probes it with each
    /// outer record in order; duplicate keys are fully supported, and the
    /// emission order is exactly the reference join's.
    pub fn equi_join(&mut self, left_col: usize, right_col: usize) -> (out: Vec<Record>)
        requires
            joinable(old(self).ltab(), old(self).rtab(), left_col as int, right_col as int),
            old(self).ltab().cursor() == 0,
            old(self).rtab().cursor() == 0,
        ensures
            rows_of(out@) == nl_join(
                old(self).ltab().rows(),
                old(self).rtab().rows(),
                left_col as int,
                right_col as int,
            ),
            final(self).ltab().recs() == old(self).ltab().recs(),
            final(self).rtab().recs() == old(self).rtab().recs(),
            final(self).ltab().cols() == old(self).ltab().cols(),
            final(self).rtab().cols() == old(self).rtab().cols(),
            final(self).ltab().cursor() == 0,
            final(self).rtab().cursor() == 0,
    {
        let lwidth = self.left.get_num_columns_per_record();
        let rwidth = self.right.get_num_columns_per_record();
        let right_records = self.right.record_view();
        let hash_table = build_key_map(right_records, right_col, rwidth);
        proof {
            lemma_models_width(
                hash_table@,
                self.right.rows(),
                right_col as int,
                rwidth as int,
            );
            lemma_probe_is_nl(
                self.left.rows(),
                hash_table@,
                self.right.rows(),
                left_col as int,
                right_col as int,
            );
        }
        let left_records = self.left.record_view();
        probe_slice(&hash_table, left_records, left_col, lwidth, rwidth)
    }
}

} // verus!
