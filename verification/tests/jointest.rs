use joinlib::join::{BlockNL, NestedLoopsJoin, SimpleHashJoin};
use joinlib::record::Record;
use joinlib::table::SimpleTable;

fn small1() -> Vec<Vec<i32>> {
    vec![
        vec![1, 2, 10],
        vec![3, 4, 20],
        vec![5, 6, 30],
        vec![7, 8, 40],
        vec![9, 10, 50],
        vec![11, 12, 60],
    ]
}

fn small2() -> Vec<Vec<i32>> {
    vec![vec![10, 100], vec![20, 200], vec![30, 300], vec![99, 999]]
}

fn med1() -> Vec<Vec<i32>> {
    let mut rows = Vec::new();
    for i in 0..20 {
        rows.push(vec![i, i + 100, (i % 7) * 10]);
    }
    rows
}

fn med2() -> Vec<Vec<i32>> {
    let mut rows = Vec::new();
    for i in 0..12 {
        rows.push(vec![(i % 6) * 10, i + 1000]);
    }
    rows
}

fn nl_result(rows1: &Vec<Vec<i32>>, rows2: &Vec<Vec<i32>>, col1: usize, col2: usize) -> Vec<Record> {
    let table1 = SimpleTable::new(rows1).unwrap();
    let table2 = SimpleTable::new(rows2).unwrap();
    let mut nl = NestedLoopsJoin::new(table1, table2);
    nl.equi_join(col1, col2)
}

fn bnl_result(
    rows1: &Vec<Vec<i32>>,
    rows2: &Vec<Vec<i32>>,
    col1: usize,
    col2: usize,
    l_block_sz: usize,
    r_block_sz: usize,
) -> Vec<Record> {
    let table1 = SimpleTable::new(rows1).unwrap();
    let table2 = SimpleTable::new(rows2).unwrap();
    let mut bnl = BlockNL::new(table1, table2, l_block_sz, r_block_sz);
    bnl.equi_join(col1, col2)
}

fn simplehash_result(
    rows1: &Vec<Vec<i32>>,
    rows2: &Vec<Vec<i32>>,
    col1: usize,
    col2: usize,
) -> Vec<Record> {
    let table1 = SimpleTable::new(rows1).unwrap();
    let table2 = SimpleTable::new(rows2).unwrap();
    let mut simplehash = SimpleHashJoin::new(table1, table2);
    simplehash.equi_join(col1, col2)
}

fn compare_results(actual: &mut Vec<Record>, expected: &mut Vec<Record>) {
    assert_eq!(actual.len(), expected.len());
    actual.sort();
    expected.sort();
    for i in 0..actual.len() {
        assert_eq!(actual[i], expected[i]);
    }
}

#[test]
fn test_nl_small1_small2() {
    let res = nl_result(&small1(), &small2(), 2, 0);
    assert_eq!(res.len(), 3);
}

#[test]
fn test_bnl_small1_small2() {
    let col1 = 2;
    let col2 = 0;
    let l_block_sz = 2;
    let r_block_sz = 2;
    let expected = nl_result(&small1(), &small2(), col1, col2);
    let mut actual = bnl_result(&small1(), &small2(), col1, col2, l_block_sz, r_block_sz);
    compare_results(&mut actual, &mut expected.clone());

    let l_block_sz = 6;
    let r_block_sz = 6;
    let mut actual = bnl_result(&small1(), &small2(), col1, col2, l_block_sz, r_block_sz);
    compare_results(&mut actual, &mut expected.clone());

    let l_block_sz = 1;
    let r_block_sz = 1;
    let mut actual = bnl_result(&small1(), &small2(), col1, col2, l_block_sz, r_block_sz);
    compare_results(&mut actual, &mut expected.clone());

    let l_block_sz = 5;
    let r_block_sz = 1;
    let mut actual = bnl_result(&small1(), &small2(), col1, col2, l_block_sz, r_block_sz);
    compare_results(&mut actual, &mut expected.clone());

    let l_block_sz = 3;
    let r_block_sz = 2;
    let mut actual = bnl_result(&small1(), &small2(), col1, col2, l_block_sz, r_block_sz);
    compare_results(&mut actual, &mut expected.clone());
}

#[test]
fn test_bnl_med1_med2() {
    let col1 = 2;
    let col2 = 0;
    let l_block_sz = 10;
    let r_block_sz = 10;
    let expected = nl_result(&med1(), &med2(), col1, col2);
    let mut actual = bnl_result(&med1(), &med2(), col1, col2, l_block_sz, r_block_sz);
    compare_results(&mut actual, &mut expected.clone());

    let l_block_sz = 5;
    let r_block_sz = 5;
    let mut actual = bnl_result(&med1(), &med2(), col1, col2, l_block_sz, r_block_sz);
    compare_results(&mut actual, &mut expected.clone());

    let l_block_sz = 1;
    let r_block_sz = 1;
    let mut actual = bnl_result(&med1(), &med2(), col1, col2, l_block_sz, r_block_sz);
    compare_results(&mut actual, &mut expected.clone());

    let l_block_sz = 15;
    let r_block_sz = 2;
    let mut actual = bnl_result(&med1(), &med2(), col1, col2, l_block_sz, r_block_sz);
    compare_results(&mut actual, &mut expected.clone());

    let l_block_sz = 3;
    let r_block_sz = 2;
    let mut actual = bnl_result(&med1(), &med2(), col1, col2, l_block_sz, r_block_sz);
    compare_results(&mut actual, &mut expected.clone());
}

#[test]
fn test_simplehash_small1_small2() {
    let col1 = 2;
    let col2 = 0;
    let expected = nl_result(&small1(), &small2(), col1, col2);
    let mut actual = simplehash_result(&small1(), &small2(), col1, col2);
    compare_results(&mut actual, &mut expected.clone());
}

#[test]
fn test_simplehash_med1_med2() {
    let col1 = 2;
    let col2 = 0;
    let expected = nl_result(&med1(), &med2(), col1, col2);
    let mut actual = simplehash_result(&med1(), &med2(), col1, col2);
    compare_results(&mut actual, &mut expected.clone());
}
