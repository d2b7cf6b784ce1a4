//! The group of Rubik's cube, acting on the 48 movable facets.
use crate::groups::util::{cycles_product, get_cycle};
use crate::perm::Perm;
use crate::transversal::perms_of;
use vstd::prelude::*;

verus! {

/// The cycles of face turn number 0.
pub open spec fn turn_0() -> Seq<Seq<usize>> {
    seq![
        seq![0usize, 2, 4, 6],
        seq![1usize, 3, 5, 7],
        seq![14usize, 16, 34, 28],
        seq![13usize, 23, 33, 27],
        seq![12usize, 22, 32, 26],
    ]
}

/// The cycles of face turn number 1.
pub open spec fn turn_1() -> Seq<Seq<usize>> {
    seq![
        seq![8usize, 10, 12, 14],
        seq![9usize, 11, 13, 15],
        seq![42usize, 18, 2, 26],
        seq![41usize, 17, 1, 25],
        seq![40usize, 16, 0, 24],
    ]
}

/// The cycles of face turn number 2.
pub open spec fn turn_2() -> Seq<Seq<usize>> {
    seq![
        seq![16usize, 18, 20, 22],
        seq![17usize, 19, 21, 23],
        seq![12usize, 40, 36, 4],
        seq![11usize, 47, 35, 3],
        seq![10usize, 46, 34, 2],
    ]
}

/// The cycles of face turn number 3.
pub open spec fn turn_3() -> Seq<Seq<usize>> {
    seq![
        seq![24usize, 26, 28, 30],
        seq![25usize, 27, 29, 31],
        seq![8usize, 0, 32, 44],
        seq![15usize, 7, 39, 43],
        seq![14usize, 6, 38, 42],
    ]
}

/// The cycles of face turn number 4.
pub open spec fn turn_4() -> Seq<Seq<usize>> {
    seq![
        seq![32usize, 34, 36, 38],
        seq![33usize, 35, 37, 39],
        seq![6usize, 22, 46, 30],
        seq![5usize, 21, 45, 29],
        seq![4usize, 20, 44, 28],
    ]
}

/// The cycles of face turn number 5.
pub open spec fn turn_5() -> Seq<Seq<usize>> {
    seq![
        seq![40usize, 42, 44, 46],
        seq![41usize, 43, 45, 47],
        seq![10usize, 24, 38, 20],
        seq![9usize, 31, 37, 19],
        seq![8usize, 30, 36, 18],
    ]
}

/// The degree and the six face turns of the cube.
pub fn generators() -> (r: (usize, Vec<Perm>))
    ensures
        r.0 == 48,
        r.1@.len() == 6,
        perms_of(r.1@, 48),
        r.1@[0]@ == cycles_product(turn_0(), 48),
        r.1@[1]@ == cycles_product(turn_1(), 48),
        r.1@[2]@ == cycles_product(turn_2(), 48),
        r.1@[3]@ == cycles_product(turn_3(), 48),
        r.1@[4]@ == cycles_product(turn_4(), 48),
        r.1@[5]@ == cycles_product(turn_5(), 48),
{
    let n: usize = 48;
    let c0 = [
        vec![0, 2, 4, 6],
        vec![1, 3, 5, 7],
        vec![14, 16, 34, 28],
        vec![13, 23, 33, 27],
        vec![12, 22, 32, 26],
    ];
    proof {
        assert(c0@.map_values(|c: Vec<usize>| c@) =~= turn_0());
    }
    let p0 = get_cycle(n, &c0);
    let c1 = [
        vec![8, 10, 12, 14],
        vec![9, 11, 13, 15],
        vec![42, 18, 2, 26],
        vec![41, 17, 1, 25],
        vec![40, 16, 0, 24],
    ];
    proof {
        assert(c1@.map_values(|c: Vec<usize>| c@) =~= turn_1());
    }
    let p1 = get_cycle(n, &c1);
    let c2 = [
        vec![16, 18, 20, 22],
        vec![17, 19, 21, 23],
        vec![12, 40, 36, 4],
        vec![11, 47, 35, 3],
        vec![10, 46, 34, 2],
    ];
    proof {
        assert(c2@.map_values(|c: Vec<usize>| c@) =~= turn_2());
    }
    let p2 = get_cycle(n, &c2);
    let c3 = [
        vec![24, 26, 28, 30],
        vec![25, 27, 29, 31],
        vec![8, 0, 32, 44],
        vec![15, 7, 39, 43],
        vec![14, 6, 38, 42],
    ];
    proof {
        assert(c3@.map_values(|c: Vec<usize>| c@) =~= turn_3());
    }
    let p3 = get_cycle(n, &c3);
    let c4 = [
        vec![32, 34, 36, 38],
        vec![33, 35, 37, 39],
        vec![6, 22, 46, 30],
        vec![5, 21, 45, 29],
        vec![4, 20, 44, 28],
    ];
    proof {
        assert(c4@.map_values(|c: Vec<usize>| c@) =~= turn_4());
    }
    let p4 = get_cycle(n, &c4);
    let c5 = [
        vec![40, 42, 44, 46],
        vec![41, 43, 45, 47],
        vec![10, 24, 38, 20],
        vec![9, 31, 37, 19],
        vec![8, 30, 36, 18],
    ];
    proof {
        assert(c5@.map_values(|c: Vec<usize>| c@) =~= turn_5());
    }
    let p5 = get_cycle(n, &c5);
    let mut gens: Vec<Perm> = Vec::new();
    gens.push(p0);
    gens.push(p1);
    gens.push(p2);
    gens.push(p3);
    gens.push(p4);
    gens.push(p5);
    (n, gens)
}

} // verus!
