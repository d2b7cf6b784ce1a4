use num_bigint::BigInt;
use std::str::FromStr;
use schreier::groups::{mathieu12, rubik};
use schreier::perm::Perm;
use schreier::schreier::{chain_order, incrementally_build_bsgs, order, schreier_sims, strip};
use schreier::transversal::{get_transversal, orbit_transversal_stabilizer};

fn star(n: usize) -> Vec<Perm> {
    let mut gen = vec![];
    for i in 0..n - 1 {
        let mut p: Vec<usize> = (0..n).collect();
        p.swap(i, n - 1);
        gen.push(Perm::new(p));
    }
    gen
}

fn factorial(n: usize) -> BigInt {
    let mut f: BigInt = 1.into();
    for i in 1..n + 1 {
        f *= i;
    }
    f
}

fn a5() -> Vec<Perm> {
    vec![
        Perm::new(vec![1, 2, 0, 3, 4]),
        Perm::new(vec![0, 1, 3, 4, 2]),
    ]
}

#[test]
fn main_orbit_transversal_stabilizer_test() {
    let gen = vec![Perm::new(vec![1, 2, 3, 0]), Perm::new(vec![1, 0, 2, 3])];
    let (h1, stab1) = orbit_transversal_stabilizer(4, &gen, 0);
    // |0^G| = 4, H^{(1)} = G_0 = <(2 3), (1 2)>
    assert_eq!(h1.len(), 4);
    let (h2, stab2) = orbit_transversal_stabilizer(4, &stab1, 1);
    // |1^{H^{(1)}}| = 3, H^{(2)} = H^{(1)}_1 = <(2 3)>
    assert_eq!(h2.len(), 3);
    let (h3, stab3) = orbit_transversal_stabilizer(4, &stab2, 2);
    // |2^{H^{(2)}}| = 2, H^{(3)} = H^{(2)}_2 = {e}
    assert_eq!(h3.len(), 2);
    assert_eq!(stab3, Vec::new());
}

#[test]
fn transversal_orbit_transversal_stabilizer_test() {
    let gen = vec![Perm::new(vec![1, 2, 3, 0]), Perm::new(vec![1, 0, 2, 3])];
    let (h1, stab1) = orbit_transversal_stabilizer(4, &gen, 0);
    assert_eq!(h1.len(), 4);
    let (h2, stab2) = orbit_transversal_stabilizer(4, &stab1, 1);
    assert_eq!(h2.len(), 3);
    let (h3, stab3) = orbit_transversal_stabilizer(4, &stab2, 2);
    assert_eq!(h3.len(), 2);
    assert_eq!(stab3, Vec::new());
}

#[test]
fn orbit_with_no_generators() {
    let (ot, stab) = orbit_transversal_stabilizer(3, &[], 1);
    assert_eq!(ot.len(), 1);
    assert_eq!(ot[0].0, 1);
    assert_eq!(ot[0].1, Perm::e(3));
    assert!(stab.is_empty());
}

fn schreier_sims_case() {
    // G = <(0 1 2), (2 3 4)>
    let n = 5;
    let gen = a5();
    let beta = vec![0, 2];
    let (orbit_transversal0, subgen) = orbit_transversal_stabilizer(n, &gen, beta[0]);
    assert_eq!(orbit_transversal0.len(), 5);
    let transversal0 = get_transversal(n, orbit_transversal0);
    let (orbit_transversal1, _) = orbit_transversal_stabilizer(n, &subgen, beta[1]);
    assert_eq!(orbit_transversal1.len(), 4);
    let transversal1 = get_transversal(n, orbit_transversal1);
    // orbit 1^{G^{(1)}} is {1, 2, 3, 4}.
    assert_eq!(transversal1[0], None);

    let beta_transversals = vec![(beta[0], transversal0), (beta[1], transversal1)];
    let ans = schreier_sims(5, &beta_transversals, &gen);
    // (beta, gen) is not a BSGS:
    // there is an element of G that needs appending to gen.
    assert!(ans.is_err());
    let (_, h) = ans.unwrap_err();
    // Asserts h stabilizes 0 and 2.
    for &point in &beta {
        assert_eq!(h.at(point), point);
    }
}

#[test]
fn main_schreier_sims_test() {
    schreier_sims_case();
}

#[test]
fn schreier_schreier_sims_test() {
    schreier_sims_case();
}

#[test]
fn schreier_sims_on_empty_chain() {
    assert!(schreier_sims(3, &[], &[]).is_ok());
    let g = vec![Perm::new(vec![1, 0, 2])];
    let r = schreier_sims(3, &[], &g);
    assert_eq!(r, Err((vec![], Perm::new(vec![1, 0, 2]))));
}

fn build_case() {
    // G = <(0 1 2), (2 3 4)>
    let n = 5;
    let gen = a5();
    let beta = vec![0, 2];
    let mut rnd = rand::thread_rng();
    let (beta_transversals, _) = incrementally_build_bsgs(n, &beta, &gen, &mut rnd);
    // |G| should be 60. In fact, G = A_5.
    let mut order = 1;
    for (_, transversal) in beta_transversals {
        let mut u = 0;
        for i in 0..n {
            if let Some(_) = transversal[i] {
                u += 1;
            }
        }
        order *= u;
    }
    assert_eq!(order, 60);
}

#[test]
fn main_incrementally_build_bsgs_test() {
    build_case();
}

#[test]
fn schreier_incrementally_build_bsgs_test() {
    build_case();
}

#[test]
fn order_test_0() {
    // G = <(0 1 2), (2 3 4)> = A_5, |G| = 60
    assert_eq!(order(5, &a5()), 60.into());
}

#[test]
fn order_test_1() {
    // G = <(0 1 2 3), (0 2)> ~= D_8, |G| = 8
    let n = 4;
    let gen = vec![Perm::new(vec![1, 2, 3, 0]), Perm::new(vec![2, 1, 0, 3])];
    assert_eq!(order(n, &gen), 8.into());
}

#[test]
fn order_test_2() {
    // Star, G = <(0 n-1), (1 n-1), ...> = S_n, |G| = n!
    let n = 10;
    assert_eq!(order(n, &star(n)), factorial(n));
}

#[test]
fn order_test_3() {
    // Rubik's Cube group
    let (n, gen) = rubik::generators();
    assert_eq!(
        order(n, &gen),
        num_bigint::BigInt::from_str("43252003274489856000").unwrap()
    );
}

#[test]
fn order_test_4() {
    // The Mathieu group M12
    let (n, gen) = mathieu12::generators();
    assert_eq!(order(n, &gen), 95040.into());
}

#[test]
fn star_orders_are_factorials() {
    for n in 2..=12 {
        assert_eq!(order(n, &star(n)), factorial(n));
    }
}

#[test]
fn star_order_twenty() {
    assert_eq!(order(20, &star(20)), factorial(20));
}

#[test]
fn empty_generating_set() {
    for n in 0..6 {
        assert_eq!(order(n, &[]), 1.into());
        let mut rnd = rand::thread_rng();
        let (chain, s) = incrementally_build_bsgs(n, &[], &[], &mut rnd);
        assert!(chain.is_empty());
        assert!(s.is_empty());
    }
}

#[test]
fn identity_generators_give_order_one() {
    let gen = vec![Perm::e(4), Perm::e(4)];
    assert_eq!(order(4, &gen), 1.into());
}

#[test]
fn order_does_not_depend_on_random_choices() {
    let gen = vec![Perm::new(vec![1, 2, 3, 4, 5, 0]), Perm::new(vec![1, 0, 2, 3, 4, 5])];
    for _ in 0..10 {
        let mut rnd = rand::thread_rng();
        let (chain, _) = incrementally_build_bsgs(6, &[], &gen, &mut rnd);
        assert_eq!(chain_order(&chain), 720.into());
        assert_eq!(order(6, &gen), 720.into());
    }
}

#[test]
fn chain_product_matches_order() {
    let (n, gen) = mathieu12::generators();
    let mut rnd = rand::thread_rng();
    let (chain, s) = incrementally_build_bsgs(n, &[], &gen, &mut rnd);
    assert_eq!(chain_order(&chain), order(n, &gen));
    assert!(schreier_sims(n, &chain, &s).is_ok());
    assert_eq!(chain_order(&[]), 1.into());
}

#[test]
fn strip_round_trip() {
    let n = 5;
    let mut rnd = rand::thread_rng();
    let (chain, _) = incrementally_build_bsgs(n, &[], &a5(), &mut rnd);
    let g = Perm::new(vec![1, 0, 2, 4, 3]).compose(&Perm::new(vec![2, 0, 1, 3, 4]));
    let (us, h) = strip(&g, &chain);
    assert_eq!(h, Perm::e(n));
    let mut back = h.clone();
    for u in us.iter().rev() {
        back = back.compose(u);
    }
    assert_eq!(back, g);
    // an odd permutation is not in A_5: something is left over
    let odd = Perm::new(vec![1, 0, 2, 3, 4]);
    let (us, h) = strip(&odd, &chain);
    assert_ne!(h, Perm::e(n));
    let mut back = h.clone();
    for u in us.iter().rev() {
        back = back.compose(u);
    }
    assert_eq!(back, odd);
}

#[test]
fn star_order_thirty() {
    assert_eq!(order(30, &star(30)), factorial(30));
}

#[test]
fn same_group_same_order() {
    let mut gen = a5();
    let first = order(5, &gen);
    gen.reverse();
    gen.push(gen[0].clone());
    gen.push(Perm::e(5));
    assert_eq!(order(5, &gen), first);
}

#[test]
fn built_chain_has_distinct_base_points() {
    let (n, gen) = mathieu12::generators();
    let mut rnd = rand::thread_rng();
    let (chain, _) = incrementally_build_bsgs(n, &[], &gen, &mut rnd);
    assert!(chain.len() <= n);
    for i in 0..chain.len() {
        assert_eq!(chain[i].1[chain[i].0], Some(Perm::e(n)));
        for j in 0..i {
            assert_ne!(chain[i].0, chain[j].0);
        }
    }
}
