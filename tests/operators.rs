use dataflow::arena::Arena;
use dataflow::counts::Counts;
use dataflow::row::{concat_rows, pair_rows, row_le_exec, rows_equal, sort_rows, RowFn};
use dataflow::simple::{data_rel, join_rel, map_rel, memo_rel, System};

fn rows(v: &[i64]) -> Vec<Vec<i64>> {
    v.iter().map(|x| vec![*x]).collect()
}

#[test]
fn arena_hands_out_stable_indices() {
    let mut a: Arena<String> = Arena::new();
    assert_eq!(a.allocate("x".to_string()), 0);
    assert_eq!(a.allocate("y".to_string()), 1);
    assert_eq!(a.len(), 2);
    assert_eq!(a.get(1), "y");
    a.get_mut(0).push('z');
    assert_eq!(a.get(0), "xz");
}

#[test]
fn row_functions() {
    assert_eq!(RowFn::Identity.apply(&vec![1, 2]), vec![1, 2]);
    assert_eq!(RowFn::AddConst(1).apply(&vec![1, i64::MAX]), vec![2, i64::MIN]);
    assert_eq!(RowFn::DivConst(2).apply(&vec![7, -7, 4]), vec![3, -3, 2]);
    assert_eq!(RowFn::DivConst(-2).apply(&vec![7, -7, i64::MIN]), vec![-3, 3, i64::MAX / 2 + 1]);
    assert_eq!(RowFn::Column(1).apply(&vec![5, 6]), vec![6]);
    assert_eq!(RowFn::Column(2).apply(&vec![5, 6]), Vec::<i64>::new());
    assert_eq!(concat_rows(&vec![1], &vec![2, 3]), vec![1, 2, 3]);
    // Pairs of different widths stay apart.
    assert_eq!(pair_rows(&vec![1], &vec![2, 3]), vec![1, 1, 2, 3]);
    assert_eq!(pair_rows(&vec![1, 2], &vec![3]), vec![2, 1, 2, 3]);
    assert!(rows_equal(&vec![1, 2], &vec![1, 2]));
    assert!(!rows_equal(&vec![1, 2], &vec![1]));
    assert!(row_le_exec(&vec![1], &vec![1, 0]));
    assert!(!row_le_exec(&vec![2], &vec![1, 5]));
    let v = vec![vec![3], vec![1, 1], vec![1], vec![2]];
    assert_eq!(sort_rows(&v), vec![vec![1], vec![1, 1], vec![2], vec![3]]);
}

#[test]
fn counts_report_transitions() {
    let mut c = Counts::new();
    assert_eq!(c.add(&vec![1], 1), (0, 1));
    assert_eq!(c.add(&vec![1], 1), (1, 2));
    assert_eq!(c.add(&vec![1], -2), (2, 0));
    assert_eq!(c.add(&vec![2], -1), (0, -1));
    assert_eq!(c.present_rows(), vec![vec![2]]);
    assert_eq!(c.find(&vec![1]), Some(0));
    assert_eq!(c.find(&vec![3]), None);
}

#[test]
fn source_add_and_remove_are_idempotent() {
    let mut sys = System::new();
    let (d, r) = data_rel::new(&mut sys, &rows(&[3, 1, 3]));
    assert_eq!(r.to_vec(&sys), rows(&[3, 1]));
    d.add(&mut sys, &vec![1]);
    d.remove(&mut sys, &vec![9]);
    assert_eq!(r.to_vec(&sys), rows(&[3, 1]));
    d.remove(&mut sys, &vec![3]);
    d.add(&mut sys, &vec![4]);
    assert_eq!(r.to_sorted_vec(&sys), rows(&[1, 4]));
    assert_eq!(d.rel().index(), r.index());
}

#[test]
fn map_keeps_repeats() {
    let mut sys = System::new();
    let (d, r) = data_rel::new(&mut sys, &rows(&[1, 2, 3]));
    let m = map_rel::new(&mut sys, &r, RowFn::DivConst(2));
    assert_eq!(m.to_sorted_vec(&sys), rows(&[0, 1, 1]));
    d.remove(&mut sys, &vec![2]);
    sys.run().unwrap();
    assert_eq!(m.to_sorted_vec(&sys), rows(&[0, 1]));
}

#[test]
fn distinct_tracks_multiplicity() {
    let mut sys = System::new();
    let (d, r) = data_rel::new(&mut sys, &rows(&[2, 3, 4]));
    let m = map_rel::new(&mut sys, &r, RowFn::DivConst(2));
    let u = memo_rel::new(&mut sys, &m).unwrap();
    assert_eq!(u.to_sorted_vec(&sys), rows(&[1, 2]));
    // 2 and 3 both map to 1: removing one of them keeps 1.
    d.remove(&mut sys, &vec![2]);
    sys.run().unwrap();
    assert_eq!(u.to_sorted_vec(&sys), rows(&[1, 2]));
    d.remove(&mut sys, &vec![3]);
    sys.run().unwrap();
    assert_eq!(u.to_sorted_vec(&sys), rows(&[2]));
    d.add(&mut sys, &vec![6]);
    sys.run().unwrap();
    assert_eq!(u.to_sorted_vec(&sys), rows(&[2, 3]));
}

#[test]
fn join_on_a_key_column() {
    let mut sys = System::new();
    let (a_data, a) = data_rel::new(&mut sys, &vec![vec![1, 10], vec![2, 20]]);
    let (b_data, b) = data_rel::new(&mut sys, &vec![vec![1, 100]]);
    let j = join_rel::new(&mut sys, &a, &b, RowFn::Column(0), RowFn::Column(0)).unwrap();
    assert_eq!(j.to_vec(&sys), vec![vec![2, 1, 10, 1, 100]]);
    b_data.add(&mut sys, &vec![2, 200]);
    a_data.add(&mut sys, &vec![1, 11]);
    sys.run().unwrap();
    assert_eq!(
        j.to_sorted_vec(&sys),
        vec![vec![2, 1, 10, 1, 100], vec![2, 1, 11, 1, 100], vec![2, 2, 20, 2, 200]]
    );
    b_data.remove(&mut sys, &vec![1, 100]);
    sys.run().unwrap();
    assert_eq!(j.to_sorted_vec(&sys), vec![vec![2, 2, 20, 2, 200]]);
}

#[test]
fn self_join_pairs_each_row_with_itself() {
    let mut sys = System::new();
    let (d, r) = data_rel::new(&mut sys, &rows(&[1]));
    let j = join_rel::new(&mut sys, &r, &r, RowFn::Identity, RowFn::Identity).unwrap();
    assert_eq!(j.to_vec(&sys), vec![vec![1, 1, 1]]);
    d.add(&mut sys, &vec![2]);
    sys.run().unwrap();
    assert_eq!(j.to_sorted_vec(&sys), vec![vec![1, 1, 1], vec![1, 2, 2]]);
    d.remove(&mut sys, &vec![1]);
    sys.run().unwrap();
    assert_eq!(j.to_sorted_vec(&sys), vec![vec![1, 2, 2]]);
}

#[test]
fn join_feeds_distinct() {
    let mut sys = System::new();
    let (a_data, a) = data_rel::new(&mut sys, &vec![vec![1, 5], vec![2, 5]]);
    let (_b_data, b) = data_rel::new(&mut sys, &vec![vec![1], vec![2]]);
    let j = join_rel::new(&mut sys, &a, &b, RowFn::Column(0), RowFn::Column(0)).unwrap();
    // The join row is the left width, the left row, then the right row.
    let k = map_rel::new(&mut sys, &j, RowFn::Column(2));
    let u = memo_rel::new(&mut sys, &k).unwrap();
    assert_eq!(k.to_sorted_vec(&sys), rows(&[5, 5]));
    assert_eq!(u.to_vec(&sys), rows(&[5]));
    a_data.remove(&mut sys, &vec![1, 5]);
    sys.run().unwrap();
    assert_eq!(u.to_vec(&sys), rows(&[5]));
    a_data.remove(&mut sys, &vec![2, 5]);
    sys.run().unwrap();
    assert_eq!(u.to_vec(&sys), Vec::<Vec<i64>>::new());
}

#[test]
fn empty_source() {
    let mut sys = System::new();
    let (_d, r) = data_rel::new(&mut sys, &Vec::new());
    let u = memo_rel::new(&mut sys, &r).unwrap();
    sys.run().unwrap();
    assert!(r.to_vec(&sys).is_empty());
    assert!(u.to_vec(&sys).is_empty());
}

#[test]
fn distinct_follows_add_then_remove() {
    let mut sys = System::new();
    let (d, r) = data_rel::new(&mut sys, &rows(&[1]));
    let u = memo_rel::new(&mut sys, &r).unwrap();
    sys.run().unwrap();
    assert_eq!(u.to_vec(&sys), rows(&[1]));
    d.remove(&mut sys, &vec![1]);
    sys.run().unwrap();
    assert!(u.to_vec(&sys).is_empty());
    d.add(&mut sys, &vec![2]);
    d.add(&mut sys, &vec![1]);
    d.remove(&mut sys, &vec![2]);
    sys.run().unwrap();
    assert_eq!(u.to_vec(&sys), rows(&[1]));
    // A second pump with nothing queued changes nothing.
    assert_eq!(sys.run(), Ok(()));
    assert_eq!(u.to_vec(&sys), rows(&[1]));
}

#[test]
fn source_keeps_first_occurrence_order() {
    let mut sys = System::new();
    let (_d, r) = data_rel::new(&mut sys, &rows(&[5, 3, 5, 1, 3]));
    assert_eq!(r.to_vec(&sys), rows(&[5, 3, 1]));
}
