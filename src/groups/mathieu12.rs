//! The Mathieu group M12 on 12 points.
use crate::groups::util::{cycles_product, get_cycle};
use crate::perm::Perm;
use crate::transversal::perms_of;
use vstd::prelude::*;

verus! {

/// The degree and two generators of M12: `(0 3)(2 9)(4 10)(5 11)` and
/// `(0 7 8)(1 2 3)(4 11 10)(5 9 6)`.
pub fn generators() -> (r: (usize, Vec<Perm>))
    ensures
        r.0 == 12,
        r.1@.len() == 2,
        perms_of(r.1@, 12),
        r.1@[0]@ == cycles_product(seq![seq![0usize, 3], seq![2usize, 9], seq![4usize, 10], seq![5usize, 11]], 12),
        r.1@[1]@ == cycles_product(
            seq![seq![0usize, 7, 8], seq![1usize, 2, 3], seq![4usize, 11, 10], seq![5usize, 9, 6]],
            12,
        ),
{
    let c11 = [vec![0, 3], vec![2, 9], vec![4, 10], vec![5, 11]];
    let c21 = [vec![0, 7, 8], vec![1, 2, 3], vec![4, 11, 10], vec![5, 9, 6]];
    proof {
        assert(c11@.map_values(|c: Vec<usize>| c@) =~= seq![seq![0usize, 3], seq![2usize, 9], seq![4usize, 10], seq![5usize, 11]]);
        assert(c21@.map_values(|c: Vec<usize>| c@) =~= seq![seq![0usize, 7, 8], seq![1usize, 2, 3], seq![4usize, 11, 10], seq![5usize, 9, 6]]);
    }
    let b11 = get_cycle(12, &c11);
    let b21 = get_cycle(12, &c21);
    let mut gens: Vec<Perm> = Vec::new();
    gens.push(b11);
    gens.push(b21);
    (12, gens)
}

} // verus!
