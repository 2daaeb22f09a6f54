//! Checks of the bounded list of best solutions.

use fplll::solutions::BestSolutions;

fn keys(s: &BestSolutions) -> Vec<u64> {
    (0..s.len()).map(|i| s.get(i).0).collect()
}

#[test]
fn best_solutions_sorted_and_bounded() {
    let mut s = BestSolutions::new(3);
    s.insert(50, vec![1]);
    s.insert(10, vec![2]);
    s.insert(30, vec![3]);
    assert_eq!(keys(&s), vec![10, 30, 50]);
    s.insert(20, vec![4]);
    assert_eq!(keys(&s), vec![10, 20, 30]);
    assert_eq!(s.get(1).1, vec![4]);
    s.insert(99, vec![5]);
    assert_eq!(keys(&s), vec![10, 20, 30]);
    assert_eq!(s.max_sols(), 3);
}

#[test]
fn best_solutions_equal_key_goes_first() {
    let mut s = BestSolutions::new(2);
    s.insert(7, vec![1]);
    s.insert(7, vec![2]);
    assert_eq!(s.get(0).1, vec![2]);
    assert_eq!(s.get(1).1, vec![1]);
}

#[test]
fn best_solutions_zero_capacity() {
    let mut s = BestSolutions::new(0);
    s.insert(1, vec![]);
    assert_eq!(s.len(), 0);
}
