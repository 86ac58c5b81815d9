//! In-memory tables: an ordered record sequence of uniform width with a
//! mutable read cursor, a stateless full view, and an in-place parallel sort.

use vstd::prelude::*;
use rayon::slice::ParallelSliceMut;
use crate::record::{JoinError, Record, M};
use crate::model::{rows_of, sorted_by_col, uniform_width};

verus! {

broadcast use
    crate::model::lemma_rows_of_push,
    vstd::seq::Seq::lemma_take_succ_push,
    vstd::seq::Seq::lemma_take_len,
;

/// The rows a raw integer table abstracts to.
pub open spec fn views_of(rows: Seq<Vec<i32>>) -> Seq<Seq<i32>> {
    rows.map_values(|v: Vec<i32>| v@)
}

/// An ordered sequence of records of one shared width, plus a cursor for
/// sequential and blocked reads.
#[derive(Debug)]
pub struct SimpleTable {
    records: Vec<Record>,
    num_columns: usize,
    index: usize,
}

impl SimpleTable {
    /// The records, in table order.
    pub closed spec fn recs(&self) -> Seq<Record> {
        self.records@
    }

    /// The rows, in table order.
    pub open spec fn rows(&self) -> Seq<Seq<i32>> {
        rows_of(self.recs())
    }

    /// The cursor: the index of the next sequential read.
    pub closed spec fn cursor(&self) -> int {
        self.index as int
    }

    /// How many columns each record has.
    pub closed spec fn cols(&self) -> int {
        self.num_columns as int
    }

    /// Every record has exactly `cols()` columns, the width fits the record
    /// capacity, and the cursor lies within `[0, record count]`.
    pub open spec fn wf(&self) -> bool {
        &&& self.cols() <= M
        &&& 0 <= self.cursor() <= self.recs().len()
        &&& uniform_width(self.rows(), self.cols())
    }

    /// Loads a table from a materialized source of integer rows.
    ///
    /// Fails with a source-format error exactly when the source is empty or
    /// its rows do not share one width, and with a capacity error exactly
    /// when that shared width exceeds `M`.
    pub fn new(source: &Vec<Vec<i32>>) -> (out: Result<SimpleTable, JoinError>)
        ensures
            out is Ok <==> (source@.len() > 0 && uniform_width(
                views_of(source@),
                source@[0]@.len() as int,
            ) && source@[0]@.len() <= M),
            out matches Ok(t) ==> {
                &&& t.wf()
                &&& t.rows() == views_of(source@)
                &&& t.cols() == source@[0]@.len()
                &&& t.cursor() == 0
            },
            out matches Err(e) ==> e == if source@.len() == 0 || !uniform_width(
                views_of(source@),
                source@[0]@.len() as int,
            ) {
                JoinError::SourceFormat
            } else {
                JoinError::Capacity
            },
    {
        let n = source.len();
        if n == 0 {
            return Err(JoinError::SourceFormat);
        }
        let w = source[0].len();
        let mut i: usize = 0;
        while i < n
            invariant
                i <= n,
                n == source@.len(),
                w == source@[0]@.len(),
                forall|k: int| 0 <= k < i ==> (#[trigger] views_of(source@)[k]).len() == w,
            decreases n - i,
        {
            if source[i].len() != w {
                assert(views_of(source@)[i as int].len() != w);
                return Err(JoinError::SourceFormat);
            }
            assert(views_of(source@)[i as int].len() == w);
            i = i + 1;
        }
        assert(uniform_width(views_of(source@), w as int));
        if w > M {
            return Err(JoinError::Capacity);
        }
        let mut records: Vec<Record> = Vec::new();
        let mut j: usize = 0;
        while j < n
            invariant
                j <= n,
                n == source@.len(),
                w == source@[0]@.len() <= M,
                uniform_width(views_of(source@), w as int),
                rows_of(records@) == views_of(source@).take(j as int),
            decreases n - j,
        {
            assert(views_of(source@)[j as int].len() == w);
            let rec = Record::new(source[j].as_slice()).unwrap();
            records.push(rec);
            j = j + 1;
            proof {
                assert(rows_of(records@) =~= views_of(source@).take(j as int));
            }
        }
        proof {
            assert(views_of(source@).take(n as int) =~= views_of(source@));
        }
        Ok(SimpleTable { records, num_columns: w, index: 0 })
    }

    /// How many records the table holds.
    pub fn get_num_records(&self) -> (n: usize)
        ensures
            n == self.recs().len(),
    {
        self.records.len()
    }

    /// How many columns each record holds.
    pub fn get_num_columns_per_record(&self) -> (n: usize)
        ensures
            n == self.cols(),
    {
        self.num_columns
    }

    /// A fresh copy of the record sequence.
    pub fn copy_to_vec_of_records(&self) -> (out: Vec<Record>)
        ensures
            rows_of(out@) == self.rows(),
    {
        let n = self.records.len();
        let mut out: Vec<Record> = Vec::new();
        let mut i: usize = 0;
        while i < n
            invariant
                i <= n,
                n == self.recs().len(),
                rows_of(out@) == self.rows().take(i as int),
            decreases n - i,
        {
            out.push(self.records[i].clone());
            i = i + 1;
            proof {
                assert(rows_of(out@) =~= self.rows().take(i as int));
            }
        }
        proof {
            assert(self.rows().take(n as int) =~= self.rows());
        }
        out
    }

    /// The stateless full view: every record, independent of the cursor.
    pub fn record_view(&self) -> (out: &[Record])
        ensures
            out@ == self.recs(),
    {
        self.records.as_slice()
    }

    /// Sequential access to every record in table order, independent of the
    /// cursor.
    pub fn record_iterator(&self) -> (out: &[Record])
        ensures
            out@ == self.recs(),
    {
        self.records.as_slice()
    }

    /// Returns the record under the cursor and advances the cursor by one.
    pub fn read_next_record(&mut self) -> (out: Record)
        requires
            old(self).cursor() < old(self).recs().len(),
        ensures
            out@ == old(self).rows()[old(self).cursor()],
            final(self).recs() == old(self).recs(),
            final(self).cols() == old(self).cols(),
            final(self).cursor() == old(self).cursor() + 1,
    {
        let n = self.records.len();
        let r = self.records[self.index].clone();
        self.index = self.index + 1;
        r
    }

    /// Returns the contiguous window of up to `block_sz` records under the
    /// cursor and advances the cursor past it; the final block may be
    /// shorter.
    pub fn read_next_block(&mut self, block_sz: usize) -> (out: Vec<Record>)
        requires
            old(self).cursor() <= old(self).recs().len(),
        ensures
            final(self).recs() == old(self).recs(),
            final(self).cols() == old(self).cols(),
            final(self).cursor() == if old(self).cursor() + block_sz
                <= old(self).recs().len() {
                old(self).cursor() + block_sz
            } else {
                old(self).recs().len() as int
            },
            rows_of(out@) == old(self).rows().subrange(old(self).cursor(), final(self).cursor()),
    {
        let n = self.records.len();
        let start = self.index;
        let end = if block_sz <= n - start {
            start + block_sz
        } else {
            n
        };
        let mut out: Vec<Record> = Vec::new();
        let mut i: usize = start;
        while i < end
            invariant
                start <= i <= end <= n,
                n == self.recs().len(),
                rows_of(out@) == self.rows().subrange(start as int, i as int),
            decreases end - i,
        {
            out.push(self.records[i].clone());
            i = i + 1;
            proof {
                assert(rows_of(out@) =~= self.rows().subrange(start as int, i as int));
            }
        }
        self.index = end;
        out
    }

    /// Resets the cursor to the first record; the records are untouched.
    pub fn rewind(&mut self)
        ensures
            final(self).recs() == old(self).recs(),
            final(self).cols() == old(self).cols(),
            final(self).cursor() == 0,
    {
        self.index = 0;
    }

    /// Reorders the records in place so that column `i` ascends; ties break
    /// arbitrarily, and the original order is lost.
    ///
    /// Relies on rayon's `par_sort_unstable_by_key`: it reorders the slice in
    /// place into ascending key order; the key closure is this crate's
    /// verified `Record::sort_key`.
    #[verifier::external_body]
    pub fn sort_by(&mut self, i: usize)
        requires
            i < old(self).cols(),
        ensures
            final(self).recs().to_multiset() == old(self).recs().to_multiset(),
            sorted_by_col(rows_of(final(self).recs()), i as int),
            final(self).cols() == old(self).cols(),
            final(self).cursor() == old(self).cursor(),
    {
        self.records.par_sort_unstable_by_key(|r| r.sort_key(i));
    }
}

} // verus!
