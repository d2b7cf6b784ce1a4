//! Whether a map between generating sets extends to a homomorphism.
use crate::bignum::big_eq;
use crate::perm::{concat_seq, Perm};
use crate::lagrange::group_size;
use crate::schreier::order;
use crate::transversal::perms_of;
use vstd::prelude::*;

verus! {

/// `xy[i]` acts as `x[i]` on the first `n` points and as `y[i]`, shifted,
/// on the rest.
pub open spec fn paired(xy: Seq<Perm>, x: Seq<Perm>, y: Seq<Perm>) -> bool {
    &&& xy.len() == x.len()
    &&& forall|i: int| 0 <= i < xy.len() ==> (#[trigger] xy[i])@ == concat_seq(x[i]@, y[i]@)
}

/// Checks whether `x[i] -> y[i]` extends to a homomorphism from the group
/// generated by `x` onto the one generated by `y`: it does exactly when the
/// group generated by the pairs `(x[i], y[i])`, acting on `n + m` points,
/// has the order of the group generated by `x`.
pub fn is_homomorphism(n: usize, m: usize, x: &[Perm], y: &[Perm]) -> (r: bool)
    requires
        x@.len() == y@.len(),
        perms_of(x@, n as nat),
        perms_of(y@, m as nat),
        n + m <= usize::MAX,
    ensures
        exists|xy: Seq<Perm>|
            #[trigger] paired(xy, x@, y@) && (r <==> group_size(x@, n as nat) == group_size(
                xy,
                (n + m) as nat,
            )),
{
    let mut xy: Vec<Perm> = Vec::new();
    let mut i: usize = 0;
    while i < x.len()
        invariant
            i <= x@.len(),
            x@.len() == y@.len(),
            perms_of(x@, n as nat),
            perms_of(y@, m as nat),
            n + m <= usize::MAX,
            xy@.len() == i,
            forall|j: int| 0 <= j < i ==> (#[trigger] xy@[j])@ == concat_seq(x@[j]@, y@[j]@),
            perms_of(xy@, (n + m) as nat),
        decreases x@.len() - i,
    {
        let p = x[i].concat(&y[i]);
        xy.push(p);
        i = i + 1;
    }
    let whole = order(n, x);
    let graph = order(n + m, xy.as_slice());
    let r = big_eq(&whole, &graph);
    proof {
        assert(paired(xy@, x@, y@));
    }
    r
}

} // verus!
