use joinlib::join::{BlockNL, JoinAlgos, NestedLoopsJoin, SimpleHashJoin};
use joinlib::parjoin::{
    nl_join_slices, ParallelNestedLoopsJoin, ParallelSimpleHashJoin, ParallelUnaryLeapFrogJoin,
};
use joinlib::radixjoin::{radix_bucket_of, RadixJoin};
use joinlib::record::{JoinError, Record, M};
use joinlib::table::SimpleTable;

fn table(rows: &Vec<Vec<i32>>) -> SimpleTable {
    SimpleTable::new(rows).unwrap()
}

fn all_algos() -> Vec<JoinAlgos> {
    vec![
        JoinAlgos::NLJoin,
        JoinAlgos::BNLJoin,
        JoinAlgos::SimpleHashJoin,
        JoinAlgos::RadixJoin,
        JoinAlgos::PNLJoin,
        JoinAlgos::ParallelSimpleHashJoin,
        JoinAlgos::ParallelUnaryLeapFrogJoin,
    ]
}

fn algo_result(
    algo: &JoinAlgos,
    rows1: &Vec<Vec<i32>>,
    rows2: &Vec<Vec<i32>>,
    col1: usize,
    col2: usize,
) -> Vec<Record> {
    match algo {
        JoinAlgos::NLJoin => NestedLoopsJoin::new(table(rows1), table(rows2)).equi_join(col1, col2),
        JoinAlgos::BNLJoin => {
            BlockNL::new(table(rows1), table(rows2), 2, 3).equi_join(col1, col2)
        }
        JoinAlgos::SimpleHashJoin => {
            SimpleHashJoin::new(table(rows1), table(rows2)).equi_join(col1, col2)
        }
        JoinAlgos::RadixJoin => RadixJoin::new(table(rows1), table(rows2)).equi_join(col1, col2),
        JoinAlgos::PNLJoin => {
            ParallelNestedLoopsJoin::new(table(rows1), table(rows2)).equi_join(col1, col2)
        }
        JoinAlgos::ParallelSimpleHashJoin => {
            ParallelSimpleHashJoin::new(table(rows1), table(rows2)).equi_join(col1, col2)
        }
        JoinAlgos::ParallelUnaryLeapFrogJoin => {
            ParallelUnaryLeapFrogJoin::new(table(rows1), table(rows2)).equi_join(col1, col2)
        }
    }
}

fn sorted_rows(records: &Vec<Record>) -> Vec<Vec<i32>> {
    let mut rows: Vec<Vec<i32>> = records.iter().map(|r| r.get_column_values().to_vec()).collect();
    rows.sort();
    rows
}

// Every algorithm emits the same multiset of merged records as the
// nested-loops oracle, over a fixture with duplicate and unmatched keys.
#[test]
fn cross_algorithm_equivalence() {
    let mut left = Vec::new();
    for i in 0..30 {
        left.push(vec![i, (i % 5) - 2, i * 3]);
    }
    let mut right = Vec::new();
    for i in 0..25 {
        right.push(vec![(i % 9) - 4, i + 50]);
    }
    let oracle = sorted_rows(&algo_result(&JoinAlgos::NLJoin, &left, &right, 1, 0));
    assert!(!oracle.is_empty());
    for algo in all_algos() {
        let actual = sorted_rows(&algo_result(&algo, &left, &right, 1, 0));
        assert_eq!(oracle, actual);
    }
}

// Block-size invariance: window sizes 1, N, and a non-divisor give one
// multiset.
#[test]
fn block_size_invariance() {
    let mut left = Vec::new();
    for i in 0..13 {
        left.push(vec![i % 4, i]);
    }
    let mut right = Vec::new();
    for i in 0..9 {
        right.push(vec![i % 3, i + 100]);
    }
    let oracle = sorted_rows(&NestedLoopsJoin::new(table(&left), table(&right)).equi_join(0, 0));
    for (lb, rb) in [(1, 1), (13, 9), (5, 4), (20, 20)] {
        let actual =
            sorted_rows(&BlockNL::new(table(&left), table(&right), lb, rb).equi_join(0, 0));
        assert_eq!(oracle, actual);
    }
}

// Duplicate-key completeness: k outer and m inner records sharing one key
// yield exactly k * m merges for the hash, radix, and leapfrog variants.
#[test]
fn duplicate_key_completeness() {
    let left = vec![vec![5, 1], vec![5, 2], vec![5, 3]];
    let right = vec![vec![5, 10], vec![5, 11], vec![5, 12], vec![5, 13]];
    for algo in [
        JoinAlgos::SimpleHashJoin,
        JoinAlgos::RadixJoin,
        JoinAlgos::ParallelUnaryLeapFrogJoin,
    ] {
        let res = algo_result(&algo, &left, &right, 0, 0);
        assert_eq!(res.len(), 3 * 4);
    }
}

// Capacity boundary: exactly M columns construct, M + 1 fail; merging to
// exactly M succeeds, to M + 1 fails.
#[test]
fn capacity_boundary() {
    let exact: Vec<i32> = (0..M as i32).collect();
    assert!(Record::new(&exact).is_ok());
    let over: Vec<i32> = (0..(M + 1) as i32).collect();
    assert_eq!(Record::new(&over).unwrap_err(), JoinError::Capacity);

    let half_a: Vec<i32> = (0..10).collect();
    let half_b: Vec<i32> = (10..20).collect();
    let a = Record::new(&half_a).unwrap();
    let b = Record::new(&half_b).unwrap();
    let merged = Record::merge(&a, &b).unwrap();
    assert_eq!(merged.get_num_columns(), M);
    assert_eq!(merged.get_column_values(), &exact[..]);

    let eleven: Vec<i32> = (0..11).collect();
    let c = Record::new(&eleven).unwrap();
    assert_eq!(Record::merge(&a, &c).unwrap_err(), JoinError::Capacity);
}

// Run-length correctness on the spelled-out key sequence.
#[test]
fn run_length_correctness() {
    let rows = vec![vec![2], vec![2], vec![2], vec![5], vec![7], vec![7]];
    let t1 = table(&rows);
    let t2 = table(&rows);
    let join = ParallelUnaryLeapFrogJoin::new(t1, t2);
    let recs: Vec<Record> =
        rows.iter().map(|r| Record::new(r.as_slice()).unwrap()).collect();
    assert_eq!(join.get_run_length(&recs, 0, 0), 3);
    assert_eq!(join.get_run_length(&recs, 0, 3), 1);
    assert_eq!(join.get_run_length(&recs, 0, 4), 2);
}

// Radix partition consistency: one convention maps a key to one bucket pair
// index, negative keys included, and the index stays within the bucket count.
#[test]
fn radix_partition_consistency() {
    let mut x = -2200;
    while x <= 2200 {
        let left_side = radix_bucket_of(x);
        let right_side = radix_bucket_of(x);
        assert_eq!(left_side, right_side);
        assert!(left_side < 1024);
        x += 7;
    }
    // The convention pins exact bucket indices.
    assert_eq!(radix_bucket_of(0), 0);
    assert_eq!(radix_bucket_of(1), 1);
    assert_eq!(radix_bucket_of(1023), 1023);
    assert_eq!(radix_bucket_of(1024), 0);
    assert_eq!(radix_bucket_of(1055), 31);
    assert_eq!(radix_bucket_of(-1), 1023);
    assert_eq!(radix_bucket_of(-1024), 0);
}

// Negative keys join identically across the variants.
#[test]
fn negative_key_join() {
    let left = vec![vec![-5, 1], vec![-1029, 2]];
    let right = vec![vec![-5, 10], vec![-1029, 11], vec![3, 12]];
    for algo in all_algos() {
        let res = algo_result(&algo, &left, &right, 0, 0);
        assert_eq!(res.len(), 2);
    }
}

// End to end: the spelled-out three-by-three join yields the same four
// merged records for every algorithm; keys 1 and 3 stay unmatched.
#[test]
fn end_to_end() {
    let left = vec![vec![1, 10], vec![2, 20], vec![2, 21]];
    let right = vec![vec![2, 97], vec![2, 98], vec![3, 99]];
    let expected: Vec<Vec<i32>> = vec![
        vec![2, 20, 2, 97],
        vec![2, 20, 2, 98],
        vec![2, 21, 2, 97],
        vec![2, 21, 2, 98],
    ];
    for algo in all_algos() {
        let res = algo_result(&algo, &left, &right, 0, 0);
        assert_eq!(res.len(), 4);
        assert_eq!(sorted_rows(&res), expected);
    }
}

// A window with no records joins to nothing, with no failure.
#[test]
fn empty_input() {
    let rows = vec![vec![1, 2], vec![3, 4]];
    let recs: Vec<Record> =
        rows.iter().map(|r| Record::new(r.as_slice()).unwrap()).collect();
    let none: Vec<Record> = Vec::new();
    assert!(nl_join_slices(&none, &recs, 0, 0, 2, 2).is_empty());
    assert!(nl_join_slices(&recs, &none, 0, 0, 2, 2).is_empty());
    assert!(nl_join_slices(&none, &none, 0, 0, 2, 2).is_empty());
}

// Rewind idempotence: a full read, a rewind, and a second full read see one
// identical sequence.
#[test]
fn rewind_idempotence() {
    let rows = vec![vec![4, 40], vec![2, 20], vec![9, 90]];
    let mut t = table(&rows);
    let n = t.get_num_records();
    let mut first = Vec::new();
    for _ in 0..n {
        first.push(t.read_next_record());
    }
    t.rewind();
    let mut second = Vec::new();
    for _ in 0..n {
        second.push(t.read_next_record());
    }
    assert_eq!(first, second);
    for (rec, row) in first.iter().zip(rows.iter()) {
        assert_eq!(rec.get_column_values(), &row[..]);
    }
}
