use schreier::groups::util::get_cycle;
use schreier::perm::{all_permutations, is_permutation, Perm};

#[test]
fn main_perm_pow_test() {
    let p = Perm::new(vec![1, 2, 3, 4, 0]);
    // p^8 = [3, 4, 0, 1, 2]
    assert_eq!(p.pow(8), Perm::new(vec![3, 4, 0, 1, 2]));
    // p^5 = e
    assert_eq!(p.pow(5), Perm::e(5));
    // p^{-5} = e
    assert_eq!(p.pow(-5), Perm::e(5));
    // p^{-3} = p^2 = pp
    assert_eq!(p.pow(-3), p.compose(&p));
}

#[test]
fn perm_perm_pow_test() {
    let p = Perm::new(vec![1, 2, 3, 4, 0]);
    assert_eq!(p.pow(8), Perm::new(vec![3, 4, 0, 1, 2]));
    assert_eq!(p.pow(5), Perm::e(5));
    assert_eq!(p.pow(-5), Perm::e(5));
    assert_eq!(p.pow(-3), p.compose(&p));
}

#[test]
fn pow_extreme_exponents() {
    let p = Perm::new(vec![1, 2, 0]);
    // 2^63 = 2 (mod 3), and -2^63 = 1 (mod 3)
    assert_eq!(p.pow(i64::MIN), p);
    assert_eq!(p.pow(i64::MAX), p);
    assert_eq!(p.pow(0), Perm::e(3));
}

#[test]
fn compose_applies_left_first() {
    let a = Perm::new(vec![1, 0, 2]);
    let b = Perm::new(vec![0, 2, 1]);
    // 0 -a-> 1 -b-> 2, 1 -a-> 0 -b-> 0, 2 -a-> 2 -b-> 1
    assert_eq!(a.compose(&b), Perm::new(vec![2, 0, 1]));
    assert_eq!(b.compose(&a), Perm::new(vec![1, 2, 0]));
}

#[test]
fn inverse_undoes() {
    let a = Perm::new(vec![2, 0, 3, 1]);
    assert_eq!(a.inv(), Perm::new(vec![1, 3, 0, 2]));
    assert_eq!(a.compose(&a.inv()), Perm::e(4));
    assert_eq!(Perm::e(0).size(), 0);
}

#[test]
fn concat_shifts_second() {
    let a = Perm::new(vec![1, 0]);
    let b = Perm::new(vec![1, 2, 0]);
    let c = a.concat(&b);
    assert_eq!(c, Perm::new(vec![1, 0, 3, 4, 2]));
    assert_eq!(c.size(), 5);
    assert_eq!(c.at(4), 2);
}

#[test]
fn sign_counts_inversions() {
    assert_eq!(Perm::e(4).sgn(), 1);
    assert_eq!(Perm::new(vec![1, 0, 2]).sgn(), -1);
    assert_eq!(Perm::new(vec![1, 2, 0]).sgn(), 1);
    assert_eq!(Perm::new(vec![3, 2, 1, 0]).sgn(), 1);
    assert_eq!(Perm::new(vec![1, 2, 3, 0]).sgn(), -1);
}

#[test]
fn bijection_check() {
    assert!(is_permutation(&vec![2, 0, 1]));
    assert!(is_permutation(&vec![]));
    assert!(!is_permutation(&vec![0, 0, 1]));
    assert!(!is_permutation(&vec![0, 3, 1]));
}

#[test]
fn cycles_compose_in_order() {
    // (0 1) then (1 2): 0 -> 1 -> 2, 1 -> 0, 2 -> 1
    let p = get_cycle(3, &[vec![0, 1], vec![1, 2]]);
    assert_eq!(p, Perm::new(vec![2, 0, 1]));
    let q = get_cycle(5, &[vec![0, 1, 2], vec![3]]);
    assert_eq!(q, Perm::new(vec![1, 2, 0, 3, 4]));
    assert_eq!(get_cycle(4, &[]), Perm::e(4));
}

#[test]
fn all_permutations_test() {
    let all = all_permutations(3);
    assert_eq!(all.len(), 6);
}

#[test]
fn all_permutations_in_lexicographic_order() {
    let all = all_permutations(3);
    let expected = vec![
        vec![0, 1, 2],
        vec![0, 2, 1],
        vec![1, 0, 2],
        vec![1, 2, 0],
        vec![2, 0, 1],
        vec![2, 1, 0],
    ];
    for (p, v) in all.iter().zip(expected) {
        assert_eq!(*p, Perm::new(v));
    }
    assert_eq!(all_permutations(5).len(), 120);
    assert_eq!(all_permutations(1), vec![Perm::e(1)]);
    assert_eq!(all_permutations(0), vec![Perm::e(0)]);
}
