//! Fixed-capacity records: ordered tuples of 32-bit signed integers with a
//! logical length bounded by the capacity `M`.

use vstd::prelude::*;

verus! {

/// Maximum number of columns a [`Record`] can hold.
pub const M: usize = 20;

/// The error taxonomy of the join engine.
#[derive(Debug, Clone, Copy, PartialEq, Eq, Structural)]
pub enum JoinError {
    /// A construction or merge would exceed the fixed capacity `M`.
    Capacity,
    /// A column access beyond a record's logical length.
    IndexRange,
    /// A table source was empty or its rows were not of uniform width.
    SourceFormat,
}

/// An ordered tuple of at most `M` 32-bit signed integers.
///
/// A record is created by parsing one row or by merging two records and is
/// immutable thereafter, except for the controlled overwrite `set_column`
/// used only by data generation.
#[derive(Debug, PartialEq, Eq, PartialOrd, Ord)]
pub struct Record {
    fields: Vec<i32>,
}

impl View for Record {
    type V = Seq<i32>;

    closed spec fn view(&self) -> Seq<i32> {
        self.fields@
    }
}

/// The value a row yields when sorted by column `col`: the column value
/// where `col` is in range, and `0` otherwise.
pub open spec fn key_at(row: Seq<i32>, col: int) -> i32 {
    if 0 <= col < row.len() {
        row[col]
    } else {
        0
    }
}

impl Record {
    /// A record never holds more than `M` columns.
    pub open spec fn wf(&self) -> bool {
        self@.len() <= M
    }

    /// Builds a record from one row of column values.
    ///
    /// Fails with a capacity error exactly when the row has more than `M`
    /// columns.
    pub fn new(input_record: &[i32]) -> (out: Result<Record, JoinError>)
        ensures
            out is Ok <==> input_record@.len() <= M,
            out matches Ok(r) ==> r@ == input_record@ && r.wf(),
            out matches Err(e) ==> e == JoinError::Capacity,
    {
        let n = input_record.len();
        if n > M {
            return Err(JoinError::Capacity);
        }
        let mut fields: Vec<i32> = Vec::new();
        let mut i: usize = 0;
        while i < n
            invariant
                i <= n,
                n == input_record@.len() <= M,
                fields@ == input_record@.take(i as int),
            decreases n - i,
        {
            fields.push(input_record[i]);
            i = i + 1;
            proof {
                assert(input_record@.take(i as int)
                    == input_record@.take(i - 1).push(input_record@[i - 1]));
            }
        }
        proof {
            assert(input_record@.take(n as int) == input_record@);
        }
        Ok(Record { fields })
    }

    /// Concatenates two records.
    ///
    /// Fails with a capacity error exactly when the combined length would
    /// exceed `M`.
    pub fn merge(r1: &Record, r2: &Record) -> (out: Result<Record, JoinError>)
        requires
            r1.wf(),
            r2.wf(),
        ensures
            out is Ok <==> r1@.len() + r2@.len() <= M,
            out matches Ok(r) ==> r@ == r1@ + r2@ && r.wf(),
            out matches Err(e) ==> e == JoinError::Capacity,
    {
        let s1 = r1.fields.len();
        let s2 = r2.fields.len();
        if s1 + s2 > M {
            return Err(JoinError::Capacity);
        }
        let mut fields: Vec<i32> = Vec::new();
        let mut i: usize = 0;
        while i < s1
            invariant
                i <= s1,
                s1 == r1@.len(),
                fields@ == r1@.take(i as int),
            decreases s1 - i,
        {
            fields.push(r1.fields[i]);
            i = i + 1;
            proof {
                assert(r1@.take(i as int) == r1@.take(i - 1).push(r1@[i - 1]));
            }
        }
        proof {
            assert(r1@.take(s1 as int) == r1@);
        }
        let mut j: usize = 0;
        while j < s2
            invariant
                j <= s2,
                s1 == r1@.len(),
                s2 == r2@.len(),
                fields@ == r1@ + r2@.take(j as int),
            decreases s2 - j,
        {
            fields.push(r2.fields[j]);
            j = j + 1;
            proof {
                assert(r2@.take(j as int) == r2@.take(j - 1).push(r2@[j - 1]));
                assert(r1@ + r2@.take(j as int)
                    == (r1@ + r2@.take(j - 1)).push(r2@[j - 1]));
            }
        }
        proof {
            assert(r2@.take(s2 as int) == r2@);
        }
        Ok(Record { fields })
    }

    /// Reads the column at index `i`.
    ///
    /// Fails with an index-range error exactly when `i` is at or beyond the
    /// logical length.
    pub fn get_column(&self, i: usize) -> (out: Result<i32, JoinError>)
        ensures
            out is Ok <==> i < self@.len(),
            out matches Ok(v) ==> v == self@[i as int],
            out matches Err(e) ==> e == JoinError::IndexRange,
    {
        if i >= self.fields.len() {
            return Err(JoinError::IndexRange);
        }
        Ok(self.fields[i])
    }

    /// Reads the column at an index known to be in range.
    pub fn column_value(&self, i: usize) -> (v: i32)
        requires
            i < self@.len(),
        ensures
            v == self@[i as int],
    {
        self.fields[i]
    }

    /// The value this record contributes when a table is sorted by column
    /// `col`; total so that it can serve as a sort key for any index.
    pub fn sort_key(&self, col: usize) -> (v: i32)
        ensures
            v == key_at(self@, col as int),
    {
        if col < self.fields.len() {
            self.fields[col]
        } else {
            0
        }
    }

    /// Overwrites the column at index `i`; used only by data generation.
    ///
    /// Fails with an index-range error exactly when `i` is at or beyond the
    /// logical length.
    pub fn set_column(&mut self, i: usize, value: i32) -> (out: Result<(), JoinError>)
        ensures
            out is Ok <==> i < old(self)@.len(),
            out is Ok ==> final(self)@ == old(self)@.update(i as int, value),
            out is Err ==> final(self)@ == old(self)@,
            out matches Err(e) ==> e == JoinError::IndexRange,
    {
        if i >= self.fields.len() {
            return Err(JoinError::IndexRange);
        }
        self.fields.set(i, value);
        Ok(())
    }

    /// All column values, in order.
    pub fn get_column_values(&self) -> (out: &[i32])
        ensures
            out@ == self@,
    {
        self.fields.as_slice()
    }

    /// The logical length: how many columns this record holds.
    pub fn get_num_columns(&self) -> (n: usize)
        ensures
            n == self@.len(),
    {
        self.fields.len()
    }
}

impl Clone for Record {
    /// A clone holds the same column values as the original.
    fn clone(&self) -> (res: Self)
        ensures
            res@ == self@,
    {
        let n = self.fields.len();
        let mut fields: Vec<i32> = Vec::new();
        let mut i: usize = 0;
        while i < n
            invariant
                i <= n,
                n == self@.len(),
                fields@ == self@.take(i as int),
            decreases n - i,
        {
            fields.push(self.fields[i]);
            i = i + 1;
            proof {
                assert(self@.take(i as int) == self@.take(i - 1).push(self@[i - 1]));
            }
        }
        proof {
            assert(self@.take(n as int) == self@);
        }
        Record { fields }
    }
}

} // verus!
