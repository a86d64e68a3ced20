use dataflow::row::{Row, RowFn};
use dataflow::simple::{data_rel, join_rel, map_rel, memo_rel, System};

fn rows(v: &[i64]) -> Vec<Row> {
    v.iter().map(|x| vec![*x]).collect()
}

#[test]
fn simple_tests_t1() {
    let mut sys = System::new();
    let (d1_data, d1) = data_rel::new(&mut sys, &rows(&[1, 2, 3]));
    let d2 = map_rel::new(&mut sys, &d1, RowFn::AddConst(1));
    let d3 = map_rel::new(&mut sys, &d2, RowFn::DivConst(2));
    let d3memo = memo_rel::new(&mut sys, &d3).unwrap();
    sys.run().unwrap();
    assert_eq!(d2.to_sorted_vec(&sys), rows(&[2, 3, 4]));
    assert_eq!(d3.to_sorted_vec(&sys), rows(&[1, 1, 2]));
    assert_eq!(d3memo.to_sorted_vec(&sys), rows(&[1, 2]));
    d1_data.add(&mut sys, &vec![5]);
    sys.run().unwrap();
    assert_eq!(d2.to_sorted_vec(&sys), rows(&[2, 3, 4, 6]));
    assert_eq!(d3.to_sorted_vec(&sys), rows(&[1, 1, 2, 3]));
    assert_eq!(d3memo.to_sorted_vec(&sys), rows(&[1, 2, 3]));
}

#[test]
fn join_of_two_sources_follows_removal() {
    let mut sys = System::new();
    let (a_data, a) = data_rel::new(&mut sys, &rows(&[1, 2]));
    let (_b_data, b) = data_rel::new(&mut sys, &rows(&[1, 2]));
    let j = join_rel::new(&mut sys, &a, &b, RowFn::Identity, RowFn::Identity).unwrap();
    sys.run().unwrap();
    assert_eq!(j.to_sorted_vec(&sys), vec![vec![1, 1, 1], vec![1, 2, 2]]);
    a_data.remove(&mut sys, &vec![1]);
    sys.run().unwrap();
    assert_eq!(j.to_sorted_vec(&sys), vec![vec![1, 2, 2]]);
}
