//! The parallel join algorithms: chunked parallel nested loops, the parallel
//! hash join, and the sort-merge leapfrog join with run compression. The
//! outer table is split into contiguous windows, rayon maps a verified join
//! over them, and the window results are concatenated by window index.

use vstd::prelude::*;
use rayon::iter::{IntoParallelRefIterator, ParallelIterator};
use std::collections::HashMap;
use crate::record::{Record, M};
use crate::table::SimpleTable;
use crate::model::{
    rows_of, uniform_width, nl_join, concat_rows, lemma_concat_rows_take_step,
    lemma_concat_parts_join, sorted_by_col, lemma_rows_of_multiset, lemma_uniform_multiset,
    lemma_nl_left_append, lemma_nl_no_matches, lemma_nl_right_extend_no_match,
    lemma_nl_right_prefix_no_match, lemma_nl_left_permutation, lemma_nl_right_permutation,
    rows_match,
};
use crate::record::key_at;
use crate::join::{
    joinable, join_pair, build_key_map, probe_slice, probe_spec, map_width,
    lemma_probe_is_nl, lemma_models_width,
};

verus! {

broadcast use
    crate::model::lemma_rows_of_push,
    vstd::seq::Seq::lemma_take_succ_push,
    vstd::seq::Seq::lemma_take_len,
;

/// How many outer records one parallel worker takes at a time.
pub const CHUNK_SIZE: usize = 4300;

/// The merges of every matching pair of one left window and the full right
/// window, in left-window order. An empty window on either side joins to
/// nothing.
pub fn nl_join_slices(
    lb: &[Record],
    rb: &[Record],
    lcol: usize,
    rcol: usize,
    lw: usize,
    rw: usize,
) -> (out: Vec<Record>)
    requires
        uniform_width(rows_of(lb@), lw as int),
        uniform_width(rows_of(rb@), rw as int),
        lcol < lw,
        rcol < rw,
        lw + rw <= M,
    ensures
        rows_of(out@) == nl_join(rows_of(lb@), rows_of(rb@), lcol as int, rcol as int),
{
    let mut out: Vec<Record> = Vec::new();
    join_pair(&mut out, lb, rb, lcol, rcol, lw, rw);
    proof {
        assert(rows_of(out@) =~= nl_join(rows_of(lb@), rows_of(rb@), lcol as int, rcol as int));
    }
    out
}

/// Splits the records into contiguous windows of up to `sz` records, in
/// order; the last window may be shorter.
pub(crate) fn split_chunks(recs: &[Record], sz: usize, w: Ghost<int>) -> (out: Vec<Vec<Record>>)
    requires
        sz >= 1,
        uniform_width(rows_of(recs@), w@),
    ensures
        concat_rows(out@) == rows_of(recs@),
        forall|c: int| 0 <= c < out@.len() ==> uniform_width(
            rows_of((#[trigger] out@[c])@),
            w@,
        ),
{
    let ghost rows = rows_of(recs@);
    let n = recs.len();
    let mut out: Vec<Vec<Record>> = Vec::new();
    let mut pos: usize = 0;
    while pos < n
        invariant
            pos <= n,
            n == rows.len(),
            rows == rows_of(recs@),
            sz >= 1,
            uniform_width(rows, w@),
            concat_rows(out@) == rows.take(pos as int),
            forall|c: int| 0 <= c < out@.len() ==> uniform_width(
                rows_of((#[trigger] out@[c])@),
                w@,
            ),
        decreases n - pos,
    {
        let end = if sz <= n - pos {
            pos + sz
        } else {
            n
        };
        let mut chunk: Vec<Record> = Vec::new();
        let mut i: usize = pos;
        while i < end
            invariant
                pos <= i <= end <= n,
                n == rows.len(),
                rows == rows_of(recs@),
                rows_of(chunk@) == rows.subrange(pos as int, i as int),
            decreases end - i,
        {
            chunk.push(recs[i].clone());
            i = i + 1;
            proof {
                assert(rows_of(chunk@) =~= rows.subrange(pos as int, i as int));
            }
        }
        let ghost prev = out@;
        out.push(chunk);
        proof {
            assert(out@.drop_last() =~= prev);
            assert(concat_rows(out@) == concat_rows(prev) + rows.subrange(
                pos as int,
                end as int,
            ));
            assert(concat_rows(out@) =~= rows.take(end as int));
            assert forall|c: int| 0 <= c < out@.len() implies uniform_width(
                rows_of((#[trigger] out@[c])@),
                w@,
            ) by {
                if c < prev.len() {
                    assert(out@[c] == prev[c]);
                } else {
                    assert forall|k: int|
                        0 <= k < rows_of(out@[c]@).len() implies (#[trigger] rows_of(
                        out@[c]@,
                    )[k]).len() == w@ by {
                        assert(rows_of(out@[c]@)[k] == rows[pos + k]);
                    }
                }
            }
        }
        pos = end;
    }
    proof {
        assert(rows.take(n as int) == rows);
    }
    out
}

/// Concatenates the window results in window order.
pub(crate) fn concat_parts(parts: &Vec<Vec<Record>>) -> (out: Vec<Record>)
    ensures
        rows_of(out@) == concat_rows(parts@),
{
    let n = parts.len();
    let mut out: Vec<Record> = Vec::new();
    let mut c: usize = 0;
    while c < n
        invariant
            c <= n,
            n == parts@.len(),
            rows_of(out@) == concat_rows(parts@.take(c as int)),
        decreases n - c,
    {
        let part = &parts[c];
        let pn = part.len();
        let mut i: usize = 0;
        while i < pn
            invariant
                c < n,
                i <= pn,
                n == parts@.len(),
                pn == parts@[c as int]@.len(),
                part == &parts@[c as int],
                rows_of(out@) == concat_rows(parts@.take(c as int)) + rows_of(
                    parts@[c as int]@,
                ).take(i as int),
            decreases pn - i,
        {
            out.push(part[i].clone());
            i = i + 1;
            proof {
                assert(rows_of(out@) =~= concat_rows(parts@.take(c as int)) + rows_of(
                    parts@[c as int]@,
                ).take(i as int));
            }
        }
        c = c + 1;
        proof {
            assert(rows_of(parts@[c - 1]@).take(pn as int) == rows_of(parts@[c - 1]@));
            lemma_concat_rows_take_step(parts@, c - 1);
        }
    }
    proof {
        assert(parts@.take(n as int) == parts@);
    }
    out
}

/// Joins each left window with the full right window, one rayon worker per
/// window.
///
/// Relies on rayon's `par_iter`, `map` and `collect`: mapping an indexed
/// parallel iterator and collecting it yields one result per window in
/// window order; each window is joined by this crate's verified
/// `nl_join_slices`.
#[verifier::external_body]
fn par_map_nl(
    chunks: &Vec<Vec<Record>>,
    right: &[Record],
    lcol: usize,
    rcol: usize,
    lw: usize,
    rw: usize,
) -> (out: Vec<Vec<Record>>)
    requires
        forall|c: int| 0 <= c < chunks@.len() ==> uniform_width(
            rows_of((#[trigger] chunks@[c])@),
            lw as int,
        ),
        uniform_width(rows_of(right@), rw as int),
        lcol < lw,
        rcol < rw,
        lw + rw <= M,
    ensures
        out@.len() == chunks@.len(),
        forall|c: int| 0 <= c < out@.len() ==> rows_of((#[trigger] out@[c])@) == nl_join(
            rows_of(chunks@[c]@),
            rows_of(right@),
            lcol as int,
            rcol as int,
        ),
{
    chunks.par_iter().map(|ch| nl_join_slices(ch.as_slice(), right, lcol, rcol, lw, rw)).collect()
}

/// Probes the shared read-only map with each left window, one rayon worker
/// per window; no locking after the build handoff.
///
/// Relies on rayon's `par_iter`, `map` and `collect`: mapping an indexed
/// parallel iterator and collecting it yields one result per window in
/// window order; each window is probed by this crate's verified
/// `probe_slice`.
#[verifier::external_body]
fn par_map_probe(
    chunks: &Vec<Vec<Record>>,
    m: &HashMap<i32, Vec<Record>>,
    lcol: usize,
    lw: usize,
    rw: usize,
) -> (out: Vec<Vec<Record>>)
    requires
        forall|c: int| 0 <= c < chunks@.len() ==> uniform_width(
            rows_of((#[trigger] chunks@[c])@),
            lw as int,
        ),
        lcol < lw,
        map_width(m@, rw as int),
        lw + rw <= M,
    ensures
        out@.len() == chunks@.len(),
        forall|c: int| 0 <= c < out@.len() ==> rows_of((#[trigger] out@[c])@) == probe_spec(
            rows_of(chunks@[c]@),
            m@,
            lcol as int,
        ),
{
    chunks.par_iter().map(|ch| probe_slice(m, ch.as_slice(), lcol, lw, rw)).collect()
}

/// The chunked parallel nested-loops join: the outer table is split into
/// fixed-size contiguous windows; each worker scans the entire shared
/// read-only inner table; results are concatenated by window index.
pub struct ParallelNestedLoopsJoin {
    left: SimpleTable,
    right: SimpleTable,
}

impl ParallelNestedLoopsJoin {
    /// The outer table.
    pub closed spec fn ltab(&self) -> SimpleTable {
        self.left
    }

    /// The inner table.
    pub closed spec fn rtab(&self) -> SimpleTable {
        self.right
    }

    /// Takes exclusive ownership of both tables for the join's lifetime.
    pub fn new(left: SimpleTable, right: SimpleTable) -> (out: Self)
        ensures
            out.ltab() == left,
            out.rtab() == right,
    {
        Self { left, right }
    }

    /// Splits the outer table into windows of `CHUNK_SIZE` records, joins
    /// each against the full inner table in parallel, and concatenates the
    /// window results by window index: the emitted sequence is exactly the
    /// reference join's. Both tables are read through their stateless views
    /// and are left untouched.
    pub fn equi_join(&mut self, left_col: usize, right_col: usize) -> (out: Vec<Record>)
        requires
            joinable(old(self).ltab(), old(self).rtab(), left_col as int, right_col as int),
        ensures
            rows_of(out@) == nl_join(
                old(self).ltab().rows(),
                old(self).rtab().rows(),
                left_col as int,
                right_col as int,
            ),
            *final(self) == *old(self),
    {
        let lwidth = self.left.get_num_columns_per_record();
        let rwidth = self.right.get_num_columns_per_record();
        let lview = self.left.record_view();
        let rview = self.right.record_view();
        let chunks = split_chunks(lview, CHUNK_SIZE, Ghost(lwidth as int));
        let parts = par_map_nl(&chunks, rview, left_col, right_col, lwidth, rwidth);
        proof {
            lemma_concat_parts_join(
                parts@,
                chunks@,
                self.right.rows(),
                left_col as int,
                right_col as int,
            );
        }
        concat_parts(&parts)
    }
}

/// The parallel hash join: the key-indexed multimap is built single-threaded
/// over the inner table, then shared read-only across probing workers; the
/// window results are concatenated by window index, never merged through a
/// lock.
pub struct ParallelSimpleHashJoin {
    left: SimpleTable,
    right: SimpleTable,
}

impl ParallelSimpleHashJoin {
    /// The outer table.
    pub closed spec fn ltab(&self) -> SimpleTable {
        self.left
    }

    /// The inner table.
    pub closed spec fn rtab(&self) -> SimpleTable {
        self.right
    }

    /// Takes exclusive ownership of both tables for the join's lifetime.
    pub fn new(left: SimpleTable, right: SimpleTable) -> (out: Self)
        ensures
            out.ltab() == left,
            out.rtab() == right,
    {
        Self { left, right }
    }

    /// Builds the multimap over the inner table, splits the outer table into
    /// windows of `CHUNK_SIZE` records, probes the shared map in parallel,
    /// and concatenates the window results by window index: the emitted
    /// sequence is exactly the reference join's.
    pub fn equi_join(&mut self, left_col: usize, right_col: usize) -> (out: Vec<Record>)
        requires
            joinable(old(self).ltab(), old(self).rtab(), left_col as int, right_col as int),
        ensures
            rows_of(out@) == nl_join(
                old(self).ltab().rows(),
                old(self).rtab().rows(),
                left_col as int,
                right_col as int,
            ),
            *final(self) == *old(self),
    {
        let lwidth = self.left.get_num_columns_per_record();
        let rwidth = self.right.get_num_columns_per_record();
        let rview = self.right.record_view();
        let hash_table = build_key_map(rview, right_col, rwidth);
        proof {
            lemma_models_width(
                hash_table@,
                self.right.rows(),
                right_col as int,
                rwidth as int,
            );
        }
        let lview = self.left.record_view();
        let chunks = split_chunks(lview, CHUNK_SIZE, Ghost(lwidth as int));
        let parts = par_map_probe(&chunks, &hash_table, left_col, lwidth, rwidth);
        proof {
            assert forall|c: int| 0 <= c < parts@.len() implies rows_of(
                (#[trigger] parts@[c])@,
            ) == nl_join(
                rows_of(chunks@[c]@),
                self.right.rows(),
                left_col as int,
                right_col as int,
            ) by {
                lemma_probe_is_nl(
                    rows_of(chunks@[c]@),
                    hash_table@,
                    self.right.rows(),
                    left_col as int,
                    right_col as int,
                );
            }
            lemma_concat_parts_join(
                parts@,
                chunks@,
                self.right.rows(),
                left_col as int,
                right_col as int,
            );
        }
        concat_parts(&parts)
    }
}

/// The sort-merge leapfrog join with run compression: both tables are sorted
/// in place by their join columns, destroying the original order, then a
/// single merge pass emits the cross product of each pair of equal-key runs.
pub struct ParallelUnaryLeapFrogJoin {
    left: SimpleTable,
    right: SimpleTable,
}

impl ParallelUnaryLeapFrogJoin {
    /// The outer table.
    pub closed spec fn ltab(&self) -> SimpleTable {
        self.left
    }

    /// The inner table.
    pub closed spec fn rtab(&self) -> SimpleTable {
        self.right
    }

    /// Takes exclusive ownership of both tables; the join sorts them in
    /// place, so a caller needing the original order must copy first.
    pub fn new(left: SimpleTable, right: SimpleTable) -> (out: Self)
        ensures
            out.ltab() == left,
            out.rtab() == right,
    {
        Self { left, right }
    }

    /// The length of the run starting at index `i`: how many consecutive
    /// records from `i` share `table[i]`'s value at `column`; the run is
    /// maximal and stops at the table end.
    pub fn get_run_length(&self, table: &[Record], column: usize, i: usize) -> (out: usize)
        requires
            i < table@.len(),
            forall|k: int| 0 <= k < table@.len() ==> column < (#[trigger] rows_of(
                table@,
            )[k]).len(),
        ensures
            1 <= out,
            i + out <= table@.len(),
            forall|k: int|
                i <= k < i + out ==> (#[trigger] rows_of(table@)[k])[column as int] == rows_of(
                    table@,
                )[i as int][column as int],
            i + out < table@.len() ==> rows_of(table@)[i + out][column as int] != rows_of(
                table@,
            )[i as int][column as int],
    {
        let ghost rows = rows_of(table@);
        let n = table.len();
        assert(rows[i as int].len() > column);
        let v0 = table[i].column_value(column);
        let mut run: usize = 1;
        while i + run < n
            invariant_except_break
                1 <= run,
                i + run <= n,
                i < n,
                n == rows.len(),
                rows == rows_of(table@),
                forall|k: int| 0 <= k < n ==> column < (#[trigger] rows[k]).len(),
                v0 == rows[i as int][column as int],
                forall|k: int| i <= k < i + run ==> (#[trigger] rows[k])[column as int] == v0,
            ensures
                1 <= run,
                i + run <= n,
                forall|k: int| i <= k < i + run ==> (#[trigger] rows[k])[column as int] == v0,
                i + run < n ==> rows[i + run][column as int] != v0,
            decreases n - (i + run),
        {
            assert(rows[i + run].len() > column);
            if table[i + run].column_value(column) != v0 {
                break;
            }
            run = run + 1;
        }
        run
    }

    /// Sorts both tables in place by their join columns, then merges the two
    /// sorted views: equal-key runs emit their full cross product, and the
    /// smaller key's run is skipped otherwise. The emitted sequence is
    /// exactly the reference join of the sorted tables, and its multiset is
    /// the reference join's on the original tables.
    pub fn equi_join(&mut self, left_col: usize, right_col: usize) -> (out: Vec<Record>)
        requires
            joinable(old(self).ltab(), old(self).rtab(), left_col as int, right_col as int),
        ensures
            rows_of(out@) == nl_join(
                final(self).ltab().rows(),
                final(self).rtab().rows(),
                left_col as int,
                right_col as int,
            ),
            rows_of(out@).to_multiset() == nl_join(
                old(self).ltab().rows(),
                old(self).rtab().rows(),
                left_col as int,
                right_col as int,
            ).to_multiset(),
            final(self).ltab().rows().to_multiset() == old(self).ltab().rows().to_multiset(),
            final(self).rtab().rows().to_multiset() == old(self).rtab().rows().to_multiset(),
            sorted_by_col(final(self).ltab().rows(), left_col as int),
            sorted_by_col(final(self).rtab().rows(), right_col as int),
            final(self).ltab().cols() == old(self).ltab().cols(),
            final(self).rtab().cols() == old(self).rtab().cols(),
            final(self).ltab().cursor() == old(self).ltab().cursor(),
            final(self).rtab().cursor() == old(self).rtab().cursor(),
    {
        let ghost oldl = self.left.rows();
        let ghost oldr = self.right.rows();
        let ghost lc = left_col as int;
        let ghost rc = right_col as int;
        let lwidth = self.left.get_num_columns_per_record();
        let rwidth = self.right.get_num_columns_per_record();
        // The in-place sorts are themselves rayon data-parallel sorts; they
        // run one after the other on disjoint tables.
        self.left.sort_by(left_col);
        self.right.sort_by(right_col);
        proof {
            lemma_rows_of_multiset(final(self).ltab().recs(), old(self).ltab().recs());
            lemma_rows_of_multiset(final(self).rtab().recs(), old(self).rtab().recs());
            lemma_uniform_multiset(oldl, self.left.rows(), lwidth as int);
            lemma_uniform_multiset(oldr, self.right.rows(), rwidth as int);
        }
        let ghost sl = self.left.rows();
        let ghost sr = self.right.rows();
        let left_size = self.left.get_num_records();
        let right_size = self.right.get_num_records();
        let lview = self.left.record_view();
        let rview = self.right.record_view();
        let mut join_results: Vec<Record> = Vec::new();
        let mut l: usize = 0;
        let mut r: usize = 0;
        while l < left_size && r < right_size
            invariant
                l <= left_size,
                r <= right_size,
                left_size == sl.len(),
                right_size == sr.len(),
                sl == rows_of(lview@),
                sr == rows_of(rview@),
                uniform_width(sl, lwidth as int),
                uniform_width(sr, rwidth as int),
                sorted_by_col(sl, lc),
                sorted_by_col(sr, rc),
                lc == left_col as int,
                rc == right_col as int,
                left_col < lwidth,
                right_col < rwidth,
                lwidth + rwidth <= M,
                forall|i: int, j: int|
                    0 <= i < l && r <= j < sr.len() ==> (#[trigger] sl[i])[lc] != (
                    #[trigger] sr[j])[rc],
                forall|i: int, j: int|
                    l <= i < sl.len() && 0 <= j < r ==> (#[trigger] sl[i])[lc] != (
                    #[trigger] sr[j])[rc],
                rows_of(join_results@) == nl_join(
                    sl.take(l as int),
                    sr.take(r as int),
                    lc,
                    rc,
                ),
            decreases (left_size - l) + (right_size - r),
        {
            proof {
                assert forall|k: int| 0 <= k < lview@.len() implies left_col < (
                #[trigger] rows_of(lview@)[k]).len() by {
                    assert(sl[k].len() == lwidth);
                }
                assert forall|k: int| 0 <= k < rview@.len() implies right_col < (
                #[trigger] rows_of(rview@)[k]).len() by {
                    assert(sr[k].len() == rwidth);
                }
            }
            let left_run_length = self.get_run_length(lview, left_col, l);
            let right_run_length = self.get_run_length(rview, right_col, r);
            let l2 = l + left_run_length;
            let r2 = r + right_run_length;
            assert(sl[l as int].len() == lwidth);
            assert(sr[r as int].len() == rwidth);
            let left_value = lview[l].column_value(left_col);
            let right_value = rview[r].column_value(right_col);
            let ghost pre_l = sl.take(l as int);
            let ghost run_l = sl.subrange(l as int, l2 as int);
            let ghost pre_r = sr.take(r as int);
            let ghost run_r = sr.subrange(r as int, r2 as int);
            if left_value == right_value {
                let lslice = &lview[l..l2];
                let rslice = &rview[r..r2];
                proof {
                    assert(rows_of(lslice@) =~= run_l);
                    assert(rows_of(rslice@) =~= run_r);
                    assert forall|k: int| 0 <= k < run_l.len() implies (
                    #[trigger] run_l[k]).len() == lwidth by {
                        assert(run_l[k] == sl[l + k]);
                    }
                    assert forall|k: int| 0 <= k < run_r.len() implies (
                    #[trigger] run_r[k]).len() == rwidth by {
                        assert(run_r[k] == sr[r + k]);
                    }
                }
                let ghost before = rows_of(join_results@);
                join_pair(&mut join_results, lslice, rslice, left_col, right_col, lwidth, rwidth);
                proof {
                    // The already-scanned left prefix matches nothing in the
                    // two runs' right window.
                    assert forall|i: int, j: int|
                        0 <= i < pre_l.len() && 0 <= j < run_r.len() implies !rows_match(
                        #[trigger] pre_l[i],
                        #[trigger] run_r[j],
                        lc,
                        rc,
                    ) by {
                        assert(pre_l[i] == sl[i]);
                        assert(run_r[j] == sr[r + j]);
                    }
                    lemma_nl_right_extend_no_match(pre_l, pre_r, run_r, lc, rc);
                    assert(pre_r + run_r =~= sr.take(r2 as int));
                    // The left run matches nothing before the right cursor.
                    assert forall|i: int, j: int|
                        0 <= i < run_l.len() && 0 <= j < pre_r.len() implies !rows_match(
                        #[trigger] run_l[i],
                        #[trigger] pre_r[j],
                        lc,
                        rc,
                    ) by {
                        assert(run_l[i] == sl[l + i]);
                        assert(pre_r[j] == sr[j]);
                    }
                    lemma_nl_right_prefix_no_match(run_l, pre_r, run_r, lc, rc);
                    lemma_nl_left_append(pre_l, run_l, sr.take(r2 as int), lc, rc);
                    assert(pre_l + run_l =~= sl.take(l2 as int));
                    assert(rows_of(join_results@) =~= nl_join(
                        sl.take(l2 as int),
                        sr.take(r2 as int),
                        lc,
                        rc,
                    ));
                    // Past both runs the keys strictly grow, so the new
                    // prefixes still match nothing beyond the new cursors.
                    assert forall|i: int, j: int|
                        0 <= i < l2 && r2 <= j < sr.len() implies (#[trigger] sl[i])[lc] != (
                        #[trigger] sr[j])[rc] by {
                        if i >= l {
                            assert(sl[i][lc] == left_value);
                            if r2 < sr.len() {
                                assert(key_at(sr[r2 as int], rc) <= key_at(sr[j], rc));
                                assert(sr[r2 as int][rc] != right_value);
                                assert(key_at(sr[r as int], rc) <= key_at(sr[r2 as int], rc));
                            }
                        }
                    }
                    assert forall|i: int, j: int|
                        l2 <= i < sl.len() && 0 <= j < r2 implies (#[trigger] sl[i])[lc] != (
                        #[trigger] sr[j])[rc] by {
                        if j >= r {
                            assert(sr[j][rc] == right_value);
                            if l2 < sl.len() {
                                assert(key_at(sl[l2 as int], lc) <= key_at(sl[i], lc));
                                assert(sl[l2 as int][lc] != left_value);
                                assert(key_at(sl[l as int], lc) <= key_at(sl[l2 as int], lc));
                            }
                        }
                    }
                }
                l = l2;
                r = r2;
            } else if left_value < right_value {
                proof {
                    assert forall|i: int, j: int|
                        0 <= i < run_l.len() && 0 <= j < sr.take(r as int).len() implies !rows_match(
                        #[trigger] run_l[i],
                        #[trigger] sr.take(r as int)[j],
                        lc,
                        rc,
                    ) by {
                        assert(run_l[i] == sl[l + i]);
                        assert(sr.take(r as int)[j] == sr[j]);
                    }
                    lemma_nl_no_matches(run_l, sr.take(r as int), lc, rc);
                    lemma_nl_left_append(pre_l, run_l, sr.take(r as int), lc, rc);
                    assert(pre_l + run_l =~= sl.take(l2 as int));
                    assert(nl_join(sl.take(l as int), sr.take(r as int), lc, rc) + Seq::<
                        Seq<i32>,
                    >::empty() =~= nl_join(sl.take(l as int), sr.take(r as int), lc, rc));
                    assert forall|i: int, j: int|
                        0 <= i < l2 && r <= j < sr.len() implies (#[trigger] sl[i])[lc] != (
                        #[trigger] sr[j])[rc] by {
                        if i >= l {
                            assert(sl[i][lc] == left_value);
                            assert(key_at(sr[r as int], rc) <= key_at(sr[j], rc));
                        }
                    }
                }
                l = l2;
            } else {
                proof {
                    assert forall|i: int, j: int|
                        0 <= i < sl.take(l as int).len() && 0 <= j < run_r.len() implies !rows_match(
                        #[trigger] sl.take(l as int)[i],
                        #[trigger] run_r[j],
                        lc,
                        rc,
                    ) by {
                        assert(sl.take(l as int)[i] == sl[i]);
                        assert(run_r[j] == sr[r + j]);
                    }
                    lemma_nl_right_extend_no_match(sl.take(l as int), pre_r, run_r, lc, rc);
                    assert(pre_r + run_r =~= sr.take(r2 as int));
                    assert forall|i: int, j: int|
                        l <= i < sl.len() && 0 <= j < r2 implies (#[trigger] sl[i])[lc] != (
                        #[trigger] sr[j])[rc] by {
                        if j >= r {
                            assert(sr[j][rc] == right_value);
                            assert(key_at(sl[l as int], lc) <= key_at(sl[i], lc));
                        }
                    }
                }
                r = r2;
            }
        }
        proof {
            if l == left_size {
                assert(sl.take(l as int) == sl);
                assert forall|i: int, j: int|
                    0 <= i < sl.len() && 0 <= j < sr.skip(r as int).len() implies !rows_match(
                    #[trigger] sl[i],
                    #[trigger] sr.skip(r as int)[j],
                    lc,
                    rc,
                ) by {
                    assert(sr.skip(r as int)[j] == sr[r + j]);
                }
                lemma_nl_right_extend_no_match(sl, sr.take(r as int), sr.skip(r as int), lc, rc);
                assert(sr.take(r as int) + sr.skip(r as int) =~= sr);
            } else {
                assert(r == right_size);
                assert(sr.take(r as int) == sr);
                let rest = sl.skip(l as int);
                assert forall|i: int, j: int|
                    0 <= i < rest.len() && 0 <= j < sr.len() implies !rows_match(
                    #[trigger] rest[i],
                    #[trigger] sr[j],
                    lc,
                    rc,
                ) by {
                    assert(rest[i] == sl[l + i]);
                }
                lemma_nl_no_matches(rest, sr, lc, rc);
                lemma_nl_left_append(sl.take(l as int), rest, sr, lc, rc);
                assert(sl.take(l as int) + rest =~= sl);
                assert(nl_join(sl.take(l as int), sr, lc, rc) + Seq::<Seq<i32>>::empty()
                    =~= nl_join(sl.take(l as int), sr, lc, rc));
            }
            assert(rows_of(join_results@) == nl_join(sl, sr, lc, rc));
            lemma_nl_right_permutation(sl, sr, oldr, lc, rc);
            lemma_nl_left_permutation(sl, oldl, oldr, lc, rc);
        }
        join_results
    }
}

} // verus!
