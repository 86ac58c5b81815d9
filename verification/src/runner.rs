//! The benchmark runner: builds fresh tables from a materialized source,
//! dispatches one join algorithm, wraps it in a best-effort cache-perturbing
//! warm-up and a monotonic timer, and reports the run as one result record.

use vstd::prelude::*;
use crate::record::{JoinError, M};
use crate::table::{views_of, SimpleTable};
use crate::join::{BlockNL, JoinAlgos, NestedLoopsJoin, SimpleHashJoin};
use crate::parjoin::{ParallelNestedLoopsJoin, ParallelSimpleHashJoin, ParallelUnaryLeapFrogJoin};
use crate::radixjoin::RadixJoin;
use crate::model::{nl_join, rows_of, uniform_width};

verus! {

broadcast use vstd::seq_lib::group_to_multiset_ensures;

/// A source loads as a table exactly when it is nonempty, of one row width,
/// and that width fits the record capacity.
pub open spec fn loadable(source: Seq<Vec<i32>>) -> bool {
    &&& source.len() > 0
    &&& uniform_width(views_of(source), source[0]@.len() as int)
    &&& source[0]@.len() <= M
}

/// The error a failed load reports.
pub open spec fn load_error(source: Seq<Vec<i32>>) -> JoinError {
    if source.len() == 0 || !uniform_width(views_of(source), source[0]@.len() as int) {
        JoinError::SourceFormat
    } else {
        JoinError::Capacity
    }
}

/// Whether one benchmark run can execute: both sources load, the join
/// columns are in range, and merged records fit the capacity.
pub open spec fn runnable(
    t1: Seq<Vec<i32>>,
    t2: Seq<Vec<i32>>,
    lcol: int,
    rcol: int,
) -> bool {
    &&& loadable(t1)
    &&& loadable(t2)
    &&& 0 <= lcol < t1[0]@.len()
    &&& 0 <= rcol < t2[0]@.len()
    &&& t1[0]@.len() + t2[0]@.len() <= M
}

/// The error a run that cannot execute reports.
pub open spec fn run_error(t1: Seq<Vec<i32>>, t2: Seq<Vec<i32>>, lcol: int, rcol: int) -> JoinError {
    if !loadable(t1) {
        load_error(t1)
    } else if !loadable(t2) {
        load_error(t2)
    } else if !(0 <= lcol < t1[0]@.len()) || !(0 <= rcol < t2[0]@.len()) {
        JoinError::IndexRange
    } else {
        JoinError::Capacity
    }
}

/// One table's descriptor in a result record.
#[derive(Debug)]
pub struct Table {
    pub table_name: String,
    pub num_records: usize,
    pub columns_per_record: usize,
}

/// Which algorithm ran, with its window sizes; the sizes are zero for the
/// algorithms that ignore them.
#[derive(Debug)]
pub struct JoinAlgoDetails {
    pub join_name: JoinAlgos,
    pub left_block_size: usize,
    pub right_block_size: usize,
}

/// One benchmark run: the algorithm, both tables' descriptors, the elapsed
/// time, and how many merged records came out.
#[derive(Debug)]
pub struct JoinRunResult {
    pub join_type: JoinAlgoDetails,
    pub execution_time_nanos: u128,
    pub outer_table: Table,
    pub inner_table: Table,
    pub num_emitted_records: usize,
    pub trial_number: i8,
}

/// An opaque monotonic timestamp.
#[verifier::external_type_specification]
#[verifier::external_body]
pub struct ExInstant(std::time::Instant);

/// Relies on `std::time::Instant::now`: an opaque monotonic timestamp; no
/// property of its value is assumed.
#[verifier::external_body]
fn instant_now() -> std::time::Instant {
    std::time::Instant::now()
}

/// Relies on `std::time::Instant::elapsed`: the time since `start`, which
/// depends on the clock; `as_nanos` converts it to a plain integer, of which
/// nothing is assumed.
#[verifier::external_body]
fn nanos_since(start: &std::time::Instant) -> (r: u128) {
    start.elapsed().as_nanos()
}

/// A best-effort cache-perturbing warm-up: writes a large buffer so that the
/// timed join starts from a comparable cache state. No correctness property
/// rests on it.
fn flush_caches() {
    let n: usize = 1000 * 1000;
    let mut a: Vec<i32> = vec![1; n];
    let mut i: usize = 0;
    while i < a.len()
        invariant
            i <= a@.len(),
        decreases a@.len() - i,
    {
        a.set(i, 0);
        i = i + 1;
    }
}

/// Builds a descriptor for a loaded table.
fn describe(name: &str, table: &SimpleTable) -> (out: Table)
    ensures
        out.table_name@ == name@,
        out.num_records == table.recs().len(),
        out.columns_per_record == table.cols(),
{
    Table {
        table_name: name.to_owned(),
        num_records: table.get_num_records(),
        columns_per_record: table.get_num_columns_per_record(),
    }
}


/// Times one nested-loops run and reports it.
fn run_nl_join(
    nlj: &mut NestedLoopsJoin,
    left_col: usize,
    right_col: usize,
    t1: Table,
    t2: Table,
) -> (out: JoinRunResult)
    requires
        crate::join::joinable(
            old(nlj).ltab(),
            old(nlj).rtab(),
            left_col as int,
            right_col as int,
        ),
        old(nlj).ltab().cursor() == 0,
        old(nlj).rtab().cursor() == 0,
    ensures
        out.num_emitted_records == nl_join(
            old(nlj).ltab().rows(),
            old(nlj).rtab().rows(),
            left_col as int,
            right_col as int,
        ).len(),
        out.join_type.join_name == JoinAlgos::NLJoin,
        out.join_type.left_block_size == 0,
        out.join_type.right_block_size == 0,
        out.outer_table == t1,
        out.inner_table == t2,
        out.trial_number == -1,
{
    // Run the join
    flush_caches();
    let start = instant_now();
    let results = nlj.equi_join(left_col, right_col);
    let execution_time_nanos = nanos_since(&start);
    assert(rows_of(results@).len() == results@.len());

    // Output result
    JoinRunResult {
        join_type: JoinAlgoDetails {
            join_name: JoinAlgos::NLJoin,
            left_block_size: 0,
            right_block_size: 0,
        },
        execution_time_nanos,
        outer_table: t1,
        inner_table: t2,
        num_emitted_records: results.len(),
        trial_number: -1,
    }
}

/// Times one block nested-loops run and reports it, window sizes included.
fn run_bnl_join(
    bnlj: &mut BlockNL,
    left_col: usize,
    right_col: usize,
    t1: Table,
    t2: Table,
) -> (out: JoinRunResult)
    requires
        crate::join::joinable(
            old(bnlj).ltab(),
            old(bnlj).rtab(),
            left_col as int,
            right_col as int,
        ),
        old(bnlj).ltab().cursor() == 0,
        old(bnlj).rtab().cursor() == 0,
        old(bnlj).lbs() >= 1,
        old(bnlj).rbs() >= 1,
    ensures
        out.num_emitted_records == nl_join(
            old(bnlj).ltab().rows(),
            old(bnlj).rtab().rows(),
            left_col as int,
            right_col as int,
        ).len(),
        out.join_type.join_name == JoinAlgos::BNLJoin,
        out.join_type.left_block_size == old(bnlj).lbs(),
        out.join_type.right_block_size == old(bnlj).rbs(),
        out.outer_table == t1,
        out.inner_table == t2,
        out.trial_number == -1,
{
    let left_block_size = bnlj.get_left_block_size();
    let right_block_size = bnlj.get_right_block_size();

    // Run the join
    flush_caches();
    let start = instant_now();
    let results = bnlj.equi_join(left_col, right_col);
    let execution_time_nanos = nanos_since(&start);
    proof {
        assert(rows_of(results@).len() == rows_of(results@).to_multiset().len());
        assert(nl_join(
            old(bnlj).ltab().rows(),
            old(bnlj).rtab().rows(),
            left_col as int,
            right_col as int,
        ).len() == nl_join(
            old(bnlj).ltab().rows(),
            old(bnlj).rtab().rows(),
            left_col as int,
            right_col as int,
        ).to_multiset().len());
        assert(rows_of(results@).len() == results@.len());
    }

    // Output result
    JoinRunResult {
        join_type: JoinAlgoDetails {
            join_name: JoinAlgos::BNLJoin,
            left_block_size,
            right_block_size,
        },
        execution_time_nanos,
        outer_table: t1,
        inner_table: t2,
        num_emitted_records: results.len(),
        trial_number: -1,
    }
}

/// Times one hash-join run and reports it.
fn run_simplehash_join(
    shj: &mut SimpleHashJoin,
    left_col: usize,
    right_col: usize,
    t1: Table,
    t2: Table,
) -> (out: JoinRunResult)
    requires
        crate::join::joinable(
            old(shj).ltab(),
            old(shj).rtab(),
            left_col as int,
            right_col as int,
        ),
        old(shj).ltab().cursor() == 0,
        old(shj).rtab().cursor() == 0,
    ensures
        out.num_emitted_records == nl_join(
            old(shj).ltab().rows(),
            old(shj).rtab().rows(),
            left_col as int,
            right_col as int,
        ).len(),
        out.join_type.join_name == JoinAlgos::SimpleHashJoin,
        out.join_type.left_block_size == 0,
        out.join_type.right_block_size == 0,
        out.outer_table == t1,
        out.inner_table == t2,
        out.trial_number == -1,
{
    // Run the join
    flush_caches();
    let start = instant_now();
    let results = shj.equi_join(left_col, right_col);
    let execution_time_nanos = nanos_since(&start);
    assert(rows_of(results@).len() == results@.len());

    // Output result
    JoinRunResult {
        join_type: JoinAlgoDetails {
            join_name: JoinAlgos::SimpleHashJoin,
            left_block_size: 0,
            right_block_size: 0,
        },
        execution_time_nanos,
        outer_table: t1,
        inner_table: t2,
        num_emitted_records: results.len(),
        trial_number: -1,
    }
}

/// Times one radix-join run and reports it.
fn run_radix_join(
    rj: &mut RadixJoin,
    left_col: usize,
    right_col: usize,
    t1: Table,
    t2: Table,
) -> (out: JoinRunResult)
    requires
        crate::join::joinable(
            old(rj).ltab(),
            old(rj).rtab(),
            left_col as int,
            right_col as int,
        ),
        old(rj).ltab().cursor() == 0,
        old(rj).rtab().cursor() == 0,
    ensures
        out.num_emitted_records == nl_join(
            old(rj).ltab().rows(),
            old(rj).rtab().rows(),
            left_col as int,
            right_col as int,
        ).len(),
        out.join_type.join_name == JoinAlgos::RadixJoin,
        out.join_type.left_block_size == 0,
        out.join_type.right_block_size == 0,
        out.outer_table == t1,
        out.inner_table == t2,
        out.trial_number == -1,
{
    // Run the join
    flush_caches();
    let start = instant_now();
    let results = rj.equi_join(left_col, right_col);
    let execution_time_nanos = nanos_since(&start);
    proof {
        assert(rows_of(results@).len() == rows_of(results@).to_multiset().len());
        assert(nl_join(
            old(rj).ltab().rows(),
            old(rj).rtab().rows(),
            left_col as int,
            right_col as int,
        ).len() == nl_join(
            old(rj).ltab().rows(),
            old(rj).rtab().rows(),
            left_col as int,
            right_col as int,
        ).to_multiset().len());
        assert(rows_of(results@).len() == results@.len());
    }

    // Output result
    JoinRunResult {
        join_type: JoinAlgoDetails {
            join_name: JoinAlgos::RadixJoin,
            left_block_size: 0,
            right_block_size: 0,
        },
        execution_time_nanos,
        outer_table: t1,
        inner_table: t2,
        num_emitted_records: results.len(),
        trial_number: -1,
    }
}

/// Times one chunked parallel nested-loops run and reports it.
fn run_pnl_join(
    pnlj: &mut ParallelNestedLoopsJoin,
    left_col: usize,
    right_col: usize,
    t1: Table,
    t2: Table,
) -> (out: JoinRunResult)
    requires
        crate::join::joinable(
            old(pnlj).ltab(),
            old(pnlj).rtab(),
            left_col as int,
            right_col as int,
        ),
    ensures
        out.num_emitted_records == nl_join(
            old(pnlj).ltab().rows(),
            old(pnlj).rtab().rows(),
            left_col as int,
            right_col as int,
        ).len(),
        out.join_type.join_name == JoinAlgos::PNLJoin,
        out.join_type.left_block_size == 0,
        out.join_type.right_block_size == 0,
        out.outer_table == t1,
        out.inner_table == t2,
        out.trial_number == -1,
{
    // Run the join
    flush_caches();
    let start = instant_now();
    let results = pnlj.equi_join(left_col, right_col);
    let execution_time_nanos = nanos_since(&start);
    assert(rows_of(results@).len() == results@.len());

    // Output result
    JoinRunResult {
        join_type: JoinAlgoDetails {
            join_name: JoinAlgos::PNLJoin,
            left_block_size: 0,
            right_block_size: 0,
        },
        execution_time_nanos,
        outer_table: t1,
        inner_table: t2,
        num_emitted_records: results.len(),
        trial_number: -1,
    }
}

/// Times one parallel hash-join run and reports it.
fn run_psh_join(
    pshj: &mut ParallelSimpleHashJoin,
    left_col: usize,
    right_col: usize,
    t1: Table,
    t2: Table,
) -> (out: JoinRunResult)
    requires
        crate::join::joinable(
            old(pshj).ltab(),
            old(pshj).rtab(),
            left_col as int,
            right_col as int,
        ),
    ensures
        out.num_emitted_records == nl_join(
            old(pshj).ltab().rows(),
            old(pshj).rtab().rows(),
            left_col as int,
            right_col as int,
        ).len(),
        out.join_type.join_name == JoinAlgos::ParallelSimpleHashJoin,
        out.join_type.left_block_size == 0,
        out.join_type.right_block_size == 0,
        out.outer_table == t1,
        out.inner_table == t2,
        out.trial_number == -1,
{
    // Run the join
    flush_caches();
    let start = instant_now();
    let results = pshj.equi_join(left_col, right_col);
    let execution_time_nanos = nanos_since(&start);
    assert(rows_of(results@).len() == results@.len());

    // Output result
    JoinRunResult {
        join_type: JoinAlgoDetails {
            join_name: JoinAlgos::ParallelSimpleHashJoin,
            left_block_size: 0,
            right_block_size: 0,
        },
        execution_time_nanos,
        outer_table: t1,
        inner_table: t2,
        num_emitted_records: results.len(),
        trial_number: -1,
    }
}

/// Times one sort-merge leapfrog run and reports it.
fn run_pulf_join(
    pulf: &mut ParallelUnaryLeapFrogJoin,
    left_col: usize,
    right_col: usize,
    t1: Table,
    t2: Table,
) -> (out: JoinRunResult)
    requires
        crate::join::joinable(
            old(pulf).ltab(),
            old(pulf).rtab(),
            left_col as int,
            right_col as int,
        ),
    ensures
        out.num_emitted_records == nl_join(
            old(pulf).ltab().rows(),
            old(pulf).rtab().rows(),
            left_col as int,
            right_col as int,
        ).len(),
        out.join_type.join_name == JoinAlgos::ParallelUnaryLeapFrogJoin,
        out.join_type.left_block_size == 0,
        out.join_type.right_block_size == 0,
        out.outer_table == t1,
        out.inner_table == t2,
        out.trial_number == -1,
{
    // Run the join
    flush_caches();
    let start = instant_now();
    let results = pulf.equi_join(left_col, right_col);
    let execution_time_nanos = nanos_since(&start);
    proof {
        assert(rows_of(results@).len() == rows_of(results@).to_multiset().len());
        assert(nl_join(
            old(pulf).ltab().rows(),
            old(pulf).rtab().rows(),
            left_col as int,
            right_col as int,
        ).len() == nl_join(
            old(pulf).ltab().rows(),
            old(pulf).rtab().rows(),
            left_col as int,
            right_col as int,
        ).to_multiset().len());
        assert(rows_of(results@).len() == results@.len());
    }

    // Output result
    JoinRunResult {
        join_type: JoinAlgoDetails {
            join_name: JoinAlgos::ParallelUnaryLeapFrogJoin,
            left_block_size: 0,
            right_block_size: 0,
        },
        execution_time_nanos,
        outer_table: t1,
        inner_table: t2,
        num_emitted_records: results.len(),
        trial_number: -1,
    }
}

/// Loads both tables fresh from the materialized sources, dispatches the
/// chosen algorithm, times it around a cache warm-up, and reports the run.
///
/// Succeeds exactly when both sources load, both join columns are in range,
/// and merged records fit the capacity; the reported emitted-record count is
/// exactly the reference join's size, whichever algorithm ran.
pub fn run_one_join(
    table1_name: &str,
    table1_source: &Vec<Vec<i32>>,
    table2_name: &str,
    table2_source: &Vec<Vec<i32>>,
    left_col: usize,
    right_col: usize,
    l_block_sz: usize,
    r_block_sz: usize,
    algo: &JoinAlgos,
) -> (out: Result<JoinRunResult, JoinError>)
    requires
        *algo is BNLJoin ==> l_block_sz >= 1 && r_block_sz >= 1,
    ensures
        out is Ok <==> runnable(
            table1_source@,
            table2_source@,
            left_col as int,
            right_col as int,
        ),
        out matches Err(e) ==> e == run_error(
            table1_source@,
            table2_source@,
            left_col as int,
            right_col as int,
        ),
        out matches Ok(res) ==> {
            &&& res.num_emitted_records == nl_join(
                views_of(table1_source@),
                views_of(table2_source@),
                left_col as int,
                right_col as int,
            ).len()
            &&& res.join_type.join_name == *algo
            &&& res.join_type.left_block_size == if *algo is BNLJoin {
                l_block_sz as int
            } else {
                0
            }
            &&& res.join_type.right_block_size == if *algo is BNLJoin {
                r_block_sz as int
            } else {
                0
            }
            &&& res.outer_table.table_name@ == table1_name@
            &&& res.outer_table.num_records == table1_source@.len()
            &&& res.outer_table.columns_per_record == table1_source@[0]@.len()
            &&& res.inner_table.table_name@ == table2_name@
            &&& res.inner_table.num_records == table2_source@.len()
            &&& res.inner_table.columns_per_record == table2_source@[0]@.len()
            &&& res.trial_number == -1
        },
{
    let table1 = match SimpleTable::new(table1_source) {
        Ok(t) => t,
        Err(e) => {
            return Err(e);
        },
    };
    let table2 = match SimpleTable::new(table2_source) {
        Ok(t) => t,
        Err(e) => {
            return Err(e);
        },
    };
    let w1 = table1.get_num_columns_per_record();
    let w2 = table2.get_num_columns_per_record();
    if left_col >= w1 || right_col >= w2 {
        return Err(JoinError::IndexRange);
    }
    if w1 > M - w2 {
        return Err(JoinError::Capacity);
    }
    let t1 = describe(table1_name, &table1);
    let t2 = describe(table2_name, &table2);
    // Dispatch experiment and result measurement
    let res = match *algo {
        JoinAlgos::NLJoin => run_nl_join(
            &mut NestedLoopsJoin::new(table1, table2),
            left_col,
            right_col,
            t1,
            t2,
        ),
        JoinAlgos::BNLJoin => run_bnl_join(
            &mut BlockNL::new(table1, table2, l_block_sz, r_block_sz),
            left_col,
            right_col,
            t1,
            t2,
        ),
        JoinAlgos::SimpleHashJoin => run_simplehash_join(
            &mut SimpleHashJoin::new(table1, table2),
            left_col,
            right_col,
            t1,
            t2,
        ),
        JoinAlgos::RadixJoin => run_radix_join(
            &mut RadixJoin::new(table1, table2),
            left_col,
            right_col,
            t1,
            t2,
        ),
        JoinAlgos::PNLJoin => run_pnl_join(
            &mut ParallelNestedLoopsJoin::new(table1, table2),
            left_col,
            right_col,
            t1,
            t2,
        ),
        JoinAlgos::ParallelSimpleHashJoin => run_psh_join(
            &mut ParallelSimpleHashJoin::new(table1, table2),
            left_col,
            right_col,
            t1,
            t2,
        ),
        JoinAlgos::ParallelUnaryLeapFrogJoin => run_pulf_join(
            &mut ParallelUnaryLeapFrogJoin::new(table1, table2),
            left_col,
            right_col,
            t1,
            t2,
        ),
    };
    Ok(res)
}


/// The fixed order in which `run_all_joins` exercises the variants.
pub open spec fn run_order() -> Seq<JoinAlgos> {
    seq![
        JoinAlgos::NLJoin,
        JoinAlgos::BNLJoin,
        JoinAlgos::SimpleHashJoin,
        JoinAlgos::RadixJoin,
        JoinAlgos::PNLJoin,
        JoinAlgos::ParallelSimpleHashJoin,
        JoinAlgos::ParallelUnaryLeapFrogJoin,
    ]
}

/// Runs every algorithm once on fresh tables, in the fixed order, and
/// collects the ordered result sequence. Each run reports the same
/// emitted-record count: the reference join's size.
pub fn run_all_joins(
    table1_name: &str,
    table1_source: &Vec<Vec<i32>>,
    table2_name: &str,
    table2_source: &Vec<Vec<i32>>,
    left_col: usize,
    right_col: usize,
    l_block_sz: usize,
    r_block_sz: usize,
) -> (out: Result<Vec<JoinRunResult>, JoinError>)
    requires
        l_block_sz >= 1,
        r_block_sz >= 1,
    ensures
        out is Ok <==> runnable(
            table1_source@,
            table2_source@,
            left_col as int,
            right_col as int,
        ),
        out matches Err(e) ==> e == run_error(
            table1_source@,
            table2_source@,
            left_col as int,
            right_col as int,
        ),
        out matches Ok(results) ==> {
            &&& results@.len() == run_order().len()
            &&& forall|i: int| 0 <= i < results@.len() ==> (#[trigger] results@[i]).join_type.join_name
                == run_order()[i]
            &&& forall|i: int| 0 <= i < results@.len() ==> (#[trigger] results@[i]).num_emitted_records
                == nl_join(
                    views_of(table1_source@),
                    views_of(table2_source@),
                    left_col as int,
                    right_col as int,
                ).len()
        },
{
    let algos: Vec<JoinAlgos> = vec![
        JoinAlgos::NLJoin,
        JoinAlgos::BNLJoin,
        JoinAlgos::SimpleHashJoin,
        JoinAlgos::RadixJoin,
        JoinAlgos::PNLJoin,
        JoinAlgos::ParallelSimpleHashJoin,
        JoinAlgos::ParallelUnaryLeapFrogJoin,
    ];
    assert(algos@ =~= run_order());
    let mut results: Vec<JoinRunResult> = Vec::new();
    let mut i: usize = 0;
    while i < algos.len()
        invariant
            i <= algos@.len(),
            algos@ == run_order(),
            l_block_sz >= 1,
            r_block_sz >= 1,
            results@.len() == i,
            i > 0 ==> runnable(
                table1_source@,
                table2_source@,
                left_col as int,
                right_col as int,
            ),
            forall|k: int| 0 <= k < i ==> (#[trigger] results@[k]).join_type.join_name
                == run_order()[k],
            forall|k: int| 0 <= k < i ==> (#[trigger] results@[k]).num_emitted_records == nl_join(
                views_of(table1_source@),
                views_of(table2_source@),
                left_col as int,
                right_col as int,
            ).len(),
        decreases algos@.len() - i,
    {
        let algo = algos[i];
        let result = match run_one_join(
            table1_name,
            table1_source,
            table2_name,
            table2_source,
            left_col,
            right_col,
            l_block_sz,
            r_block_sz,
            &algo,
        ) {
            Ok(r) => r,
            Err(e) => {
                return Err(e);
            },
        };
        results.push(result);
        i = i + 1;
    }
    Ok(results)
}

} // verus!
