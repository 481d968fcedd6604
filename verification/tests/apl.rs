use bex::apl::{at, gradeup, group};

#[test]
fn gradeup_sorts_stably() {
    let xs = [30u64, 10, 20, 10, 5];
    let p = gradeup(&xs);
    assert_eq!(p, vec![4, 1, 3, 2, 0]);
    let sorted: Vec<u64> = at(&xs, &p);
    assert_eq!(sorted, vec![5, 10, 10, 20, 30]);
    assert_eq!(gradeup(&[]), Vec::<usize>::new());
}

#[test]
fn group_collects_positions() {
    let (nub, map) = group(&[3u64, 1, 3, 2, 1, 3]);
    assert_eq!(nub, vec![3, 1, 2]);
    assert_eq!(map[&3], vec![0, 2, 5]);
    assert_eq!(map[&1], vec![1, 4]);
    assert_eq!(map[&2], vec![3]);
    assert_eq!(map.len(), 3);
}

#[test]
fn at_picks_items() {
    let xs = vec!["a".to_string(), "b".to_string(), "c".to_string()];
    assert_eq!(at(&xs, &[2, 0, 2]), vec!["c".to_string(), "a".to_string(), "c".to_string()]);
}
