use joinlib::join::{BlockNL, JoinAlgos};
use joinlib::record::{JoinError, Record};
use joinlib::runner::{run_all_joins, run_one_join};
use joinlib::table::SimpleTable;

fn left_rows() -> Vec<Vec<i32>> {
    vec![vec![1, 10], vec![2, 20], vec![2, 21], vec![7, 70]]
}

fn right_rows() -> Vec<Vec<i32>> {
    vec![vec![2, 97], vec![2, 98], vec![3, 99], vec![7, 77]]
}

#[test]
fn run_one_reports_oracle_count() {
    for algo in [
        JoinAlgos::NLJoin,
        JoinAlgos::BNLJoin,
        JoinAlgos::SimpleHashJoin,
        JoinAlgos::RadixJoin,
        JoinAlgos::PNLJoin,
        JoinAlgos::ParallelSimpleHashJoin,
        JoinAlgos::ParallelUnaryLeapFrogJoin,
    ] {
        let res = run_one_join(
            "left", &left_rows(), "right", &right_rows(), 0, 0, 3, 2, &algo,
        )
        .unwrap();
        // 2x2 merges on key 2, one on key 7.
        assert_eq!(res.num_emitted_records, 5);
        assert_eq!(res.trial_number, -1);
        assert_eq!(res.outer_table.table_name, "left");
        assert_eq!(res.outer_table.num_records, 4);
        assert_eq!(res.outer_table.columns_per_record, 2);
        assert_eq!(res.inner_table.table_name, "right");
        if matches!(algo, JoinAlgos::BNLJoin) {
            assert_eq!(res.join_type.left_block_size, 3);
            assert_eq!(res.join_type.right_block_size, 2);
        } else {
            assert_eq!(res.join_type.left_block_size, 0);
            assert_eq!(res.join_type.right_block_size, 0);
        }
    }
}

#[test]
fn run_one_rejects_bad_inputs() {
    let empty: Vec<Vec<i32>> = Vec::new();
    let uneven = vec![vec![1, 2], vec![3]];
    let wide = vec![(0..21).collect::<Vec<i32>>()];
    let eleven = vec![(0..11).collect::<Vec<i32>>()];
    let ok = left_rows();
    let algo = JoinAlgos::NLJoin;

    let r = run_one_join("a", &empty, "b", &ok, 0, 0, 1, 1, &algo);
    assert_eq!(r.unwrap_err(), JoinError::SourceFormat);

    let r = run_one_join("a", &ok, "b", &uneven, 0, 0, 1, 1, &algo);
    assert_eq!(r.unwrap_err(), JoinError::SourceFormat);

    let r = run_one_join("a", &wide, "b", &ok, 0, 0, 1, 1, &algo);
    assert_eq!(r.unwrap_err(), JoinError::Capacity);

    let r = run_one_join("a", &ok, "b", &ok, 2, 0, 1, 1, &algo);
    assert_eq!(r.unwrap_err(), JoinError::IndexRange);

    let r = run_one_join("a", &ok, "b", &ok, 0, 5, 1, 1, &algo);
    assert_eq!(r.unwrap_err(), JoinError::IndexRange);

    // Two eleven-column tables load, but their merges would not fit.
    let r = run_one_join("a", &eleven, "b", &eleven, 0, 0, 1, 1, &algo);
    assert_eq!(r.unwrap_err(), JoinError::Capacity);
}

#[test]
fn run_all_fixed_order() {
    let results = run_all_joins("left", &left_rows(), "right", &right_rows(), 0, 0, 2, 2)
        .unwrap();
    assert_eq!(results.len(), 7);
    let expected_order = [
        JoinAlgos::NLJoin,
        JoinAlgos::BNLJoin,
        JoinAlgos::SimpleHashJoin,
        JoinAlgos::RadixJoin,
        JoinAlgos::PNLJoin,
        JoinAlgos::ParallelSimpleHashJoin,
        JoinAlgos::ParallelUnaryLeapFrogJoin,
    ];
    for (res, algo) in results.iter().zip(expected_order.iter()) {
        assert_eq!(res.join_type.join_name, *algo);
        assert_eq!(res.num_emitted_records, 5);
    }
}

#[test]
fn table_load_and_shape() {
    let rows = left_rows();
    let t = SimpleTable::new(&rows).unwrap();
    assert_eq!(t.get_num_records(), 4);
    assert_eq!(t.get_num_columns_per_record(), 2);
    assert_eq!(t.record_view().len(), 4);
    assert_eq!(t.record_iterator().len(), 4);
    let copy = t.copy_to_vec_of_records();
    assert_eq!(copy.len(), 4);
    assert_eq!(copy[2].get_column_values(), &[2, 21]);

    let empty: Vec<Vec<i32>> = Vec::new();
    assert_eq!(SimpleTable::new(&empty).unwrap_err(), JoinError::SourceFormat);
    let uneven = vec![vec![1], vec![2, 3]];
    assert_eq!(SimpleTable::new(&uneven).unwrap_err(), JoinError::SourceFormat);
    let wide = vec![(0..25).collect::<Vec<i32>>()];
    assert_eq!(SimpleTable::new(&wide).unwrap_err(), JoinError::Capacity);
}

#[test]
fn table_blocked_reads() {
    let rows = vec![vec![1], vec![2], vec![3], vec![4], vec![5]];
    let mut t = SimpleTable::new(&rows).unwrap();
    let b1 = t.read_next_block(2);
    assert_eq!(b1.len(), 2);
    assert_eq!(b1[0].get_column_values(), &[1]);
    assert_eq!(b1[1].get_column_values(), &[2]);
    let b2 = t.read_next_block(2);
    assert_eq!(b2[1].get_column_values(), &[4]);
    // The final block is shorter.
    let b3 = t.read_next_block(2);
    assert_eq!(b3.len(), 1);
    assert_eq!(b3[0].get_column_values(), &[5]);
    t.rewind();
    let b4 = t.read_next_block(10);
    assert_eq!(b4.len(), 5);
}

// The in-place sort really reorders the records by the key column.
#[test]
fn sort_by_orders_records() {
    let rows = vec![vec![3, 1], vec![1, 2], vec![2, 3], vec![1, 4]];
    let mut t = SimpleTable::new(&rows).unwrap();
    t.sort_by(0);
    let keys: Vec<i32> =
        t.record_view().iter().map(|r| r.get_column(0).unwrap()).collect();
    assert_eq!(keys, vec![1, 1, 2, 3]);
    // A permutation: all four second-column values survive.
    let mut seconds: Vec<i32> =
        t.record_view().iter().map(|r| r.get_column(1).unwrap()).collect();
    seconds.sort();
    assert_eq!(seconds, vec![1, 2, 3, 4]);
}

#[test]
fn record_set_column() {
    let mut r = Record::new(&[1, 2, 3]).unwrap();
    assert!(r.set_column(1, 9).is_ok());
    assert_eq!(r.get_column_values(), &[1, 9, 3]);
    assert_eq!(r.set_column(3, 9).unwrap_err(), JoinError::IndexRange);
    assert_eq!(r.get_column_values(), &[1, 9, 3]);
}

#[test]
fn effective_block_counts() {
    let t1 = SimpleTable::new(&left_rows()).unwrap();
    let t2 = SimpleTable::new(&right_rows()).unwrap();
    let bnl = BlockNL::new(t1, t2, 2, 2);
    assert_eq!(bnl.get_left_block_size(), 2);
    assert_eq!(bnl.get_right_block_size(), 2);
    assert_eq!(bnl.get_effective_num_blocks(10, 3), 4);
    assert_eq!(bnl.get_effective_num_blocks(10, 5), 2);
    assert_eq!(bnl.get_effective_num_blocks(0, 3), 0);
    assert_eq!(bnl.get_effective_num_blocks(1, 1), 1);
}
