//! Why the orbit search is enough: group elements keep an orbit, and the
//! stabilizer of the base point is generated by the Schreier generators
//! (Schreier's lemma).
use crate::group::{
    gen_set, in_group, in_span, is_subgroup, lemma_group_gen, lemma_group_id, lemma_group_inv,
    lemma_group_comp, lemma_group_span,
};
use crate::perm::{
    comp, id_seq, inv_seq, is_perm, lemma_comp_assoc, lemma_comp_id, lemma_comp_inv,
    lemma_comp_perm, lemma_inv_inv, lemma_inv_props, lemma_right_cancel, Perm,
};
use crate::transversal::{closed_under, ot_points, perms_of, schreier_covered};
use vstd::prelude::*;
use vstd::relations::injective_on;
use vstd::set_lib::{lemma_int_range, lemma_len_subset, lemma_map_size, lemma_subset_equality, set_int_range};

verus! {

/// A permutation that keeps a set of points keeps it onto: it hits every
/// point of the set from inside the set.
pub proof fn lemma_keeps_onto(g: Seq<usize>, o: Set<int>, n: nat, w: int)
    requires
        is_perm(g),
        g.len() == n,
        forall|x: int| #[trigger] o.contains(x) ==> 0 <= x < n,
        forall|x: int| #[trigger] o.contains(x) ==> o.contains(g[x] as int),
        o.contains(w),
    ensures
        o.contains(inv_seq(g)[w] as int),
{
    lemma_int_range(0, n as int);
    assert(o.subset_of(set_int_range(0, n as int)));
    lemma_len_subset(o, set_int_range(0, n as int));
    let f = |x: int| g[x] as int;
    let img = o.map(f);
    assert(injective_on(f, o)) by {
        assert forall|x1: int, x2: int| o.contains(x1) && o.contains(x2) && #[trigger] f(x1) == #[trigger] f(x2) implies x1 == x2 by {
            if x1 != x2 {
                assert(g[x1] != g[x2]);
            }
        }
    }
    lemma_map_size(o, img, f);
    assert(img.subset_of(o)) by {
        assert forall|y: int| img.contains(y) implies o.contains(y) by {
            let x = choose|x: int| o.contains(x) && f(x) == y;
        }
    }
    lemma_subset_equality(img, o);
    assert(img.contains(w));
    let x = choose|x: int| o.contains(x) && f(x) == w;
    lemma_inv_props(g);
    assert(inv_seq(g)[g[x] as int] as int == x);
}

/// The permutations of degree `n` that keep `o`.
spec fn keepers(o: Set<int>, n: nat) -> Set<Seq<usize>> {
    Set::new(
        |g: Seq<usize>|
            is_perm(g) && g.len() == n && forall|x: int| o.contains(x) ==> o.contains(#[trigger] g[x] as int),
    )
}

proof fn lemma_keepers_comp(o: Set<int>, n: nat, a: Seq<usize>, b: Seq<usize>)
    requires
        forall|x: int| #[trigger] o.contains(x) ==> 0 <= x < n,
        keepers(o, n).contains(a),
        keepers(o, n).contains(b),
    ensures
        keepers(o, n).contains(comp(a, b)),
{
    lemma_comp_perm(a, b);
    assert forall|x: int| o.contains(x) implies o.contains(#[trigger] comp(a, b)[x] as int) by {
        assert(0 <= x < n);
        assert(o.contains(a[x] as int));
        assert(o.contains(b[a[x] as int] as int));
        assert(comp(a, b)[x] == b[a[x] as int]);
    }
}

proof fn lemma_keepers_inv(o: Set<int>, n: nat, a: Seq<usize>)
    requires
        forall|x: int| #[trigger] o.contains(x) ==> 0 <= x < n,
        keepers(o, n).contains(a),
    ensures
        keepers(o, n).contains(inv_seq(a)),
{
    lemma_inv_props(a);
    assert forall|x: int| o.contains(x) implies o.contains(#[trigger] inv_seq(a)[x] as int) by {
        assert forall|y: int| #[trigger] o.contains(y) implies o.contains(a[y] as int) by {}
        lemma_keeps_onto(a, o, n, x);
    }
}

proof fn lemma_keepers_subgroup(o: Set<int>, n: nat)
    requires
        n <= usize::MAX,
        forall|x: int| #[trigger] o.contains(x) ==> 0 <= x < n,
    ensures
        is_subgroup(keepers(o, n), n),
{
    let k = keepers(o, n);
    assert(is_perm(id_seq(n)));
    assert(k.contains(id_seq(n)));
    assert forall|a: Seq<usize>, b: Seq<usize>| #![trigger k.contains(a), k.contains(b)]
        k.contains(a) && k.contains(b) implies k.contains(comp(a, b)) by {
        lemma_keepers_comp(o, n, a, b);
    }
    assert forall|a: Seq<usize>| #[trigger] k.contains(a) implies k.contains(inv_seq(a)) by {
        lemma_keepers_inv(o, n, a);
    }
    reveal(is_subgroup);
}

/// A set of points closed under the generators is kept by every element of
/// the group they generate.
pub proof fn lemma_group_keeps(o: Set<int>, gs: Set<Seq<usize>>, n: nat, g: Seq<usize>, w: int)
    requires
        n <= usize::MAX,
        forall|x: int| #[trigger] o.contains(x) ==> 0 <= x < n,
        forall|p: Seq<usize>| #[trigger] gs.contains(p) ==> is_perm(p) && p.len() == n,
        forall|p: Seq<usize>, x: int|
            #![trigger gs.contains(p), o.contains(x)]
            gs.contains(p) && o.contains(x) ==> o.contains(p[x] as int),
        in_span(g, gs, n),
        o.contains(w),
    ensures
        o.contains(g[w] as int),
{
    let k = keepers(o, n);
    lemma_keepers_subgroup(o, n);
    assert(gs.subset_of(k)) by {
        assert forall|p: Seq<usize>| gs.contains(p) implies k.contains(p) by {
            assert forall|x: int| o.contains(x) implies o.contains(#[trigger] p[x] as int) by {}
        }
    }
    reveal(in_span);
    assert(k.contains(g));
}

/// The representative listed for point `w`.
pub open spec fn rep_at(ot: Seq<(usize, Perm)>, w: int) -> Seq<usize> {
    ot[choose|k: int| 0 <= k < ot.len() && ot[k].0 as int == w].1@
}

/// The Schreier element of `g` at `w`: the representative of `g(w)`, then
/// the inverse of the representative of `w` followed by `g`.
pub open spec fn sigma(ot: Seq<(usize, Perm)>, g: Seq<usize>, w: int) -> Seq<usize> {
    comp(rep_at(ot, g[w] as int), inv_seq(comp(rep_at(ot, w), g)))
}

/// What the orbit search hands back, as the Schreier argument needs it.
pub open spec fn search_ok(ot: Seq<(usize, Perm)>, stab: Seq<Perm>, gens: Seq<Perm>, v: int, n: nat) -> bool {
    &&& n <= usize::MAX
    &&& 0 <= v < n
    &&& perms_of(gens, n)
    &&& perms_of(stab, n)
    &&& ot.len() >= 1
    &&& ot[0].0 as int == v
    &&& ot[0].1@ == id_seq(n)
    &&& forall|k: int|
        0 <= k < ot.len() ==> (#[trigger] ot[k].0 as int) < n && is_perm(ot[k].1@) && ot[k].1@.len()
            == n && ot[k].1@[v] == ot[k].0
    &&& forall|k1: int, k2: int|
        0 <= k1 < ot.len() && 0 <= k2 < ot.len() && k1 != k2 ==> #[trigger] ot[k1].0 != #[trigger] ot[k2].0
    &&& closed_under(ot_points(ot), gens)
    &&& forall|k: int, j: int|
        0 <= k < ot.len() && 0 <= j < gens.len() ==> #[trigger] schreier_covered(ot, stab, gens, k, j, n)
}

proof fn lemma_rep_at(ot: Seq<(usize, Perm)>, stab: Seq<Perm>, gens: Seq<Perm>, v: int, n: nat, w: int)
    requires
        search_ok(ot, stab, gens, v, n),
        ot_points(ot).contains(w),
    ensures
        is_perm(rep_at(ot, w)),
        rep_at(ot, w).len() == n,
        rep_at(ot, w)[v] as int == w,
        forall|k: int| 0 <= k < ot.len() && ot[k].0 as int == w ==> rep_at(ot, w) == #[trigger] ot[k].1@,
{
    let k0 = choose|k: int| 0 <= k < ot.len() && ot[k].0 as int == w;
    assert forall|k: int| 0 <= k < ot.len() && ot[k].0 as int == w implies rep_at(ot, w) == #[trigger] ot[k].1@ by {
        if k != k0 {
            assert(ot[k].0 != ot[k0].0);
        }
    }
}

/// `sigma(g, w)` followed by the representative of `w` and `g` is the
/// representative of `g(w)`.
proof fn lemma_sigma(a: Seq<usize>, t: Seq<usize>)
    requires
        is_perm(a),
        is_perm(t),
        a.len() == t.len(),
    ensures
        comp(comp(a, inv_seq(t)), t) == a,
        is_perm(comp(a, inv_seq(t))),
{
    lemma_inv_props(t);
    lemma_comp_assoc(a, inv_seq(t), t);
    lemma_comp_inv(t);
    lemma_comp_id(a);
    lemma_comp_perm(a, inv_seq(t));
}

/// The permutations that keep the orbit and whose Schreier elements all lie
/// in the group generated by `stab`.
spec fn schreier_set(ot: Seq<(usize, Perm)>, stab: Seq<Perm>, n: nat) -> Set<Seq<usize>> {
    Set::new(
        |g: Seq<usize>|
            is_perm(g) && g.len() == n && forall|x: int|
                #[trigger] ot_points(ot).contains(x) ==> ot_points(ot).contains(g[x] as int) && in_group(
                    sigma(ot, g, x),
                    stab,
                    n,
                ),
    )
}

proof fn lemma_points_in_range(ot: Seq<(usize, Perm)>, stab: Seq<Perm>, gens: Seq<Perm>, v: int, n: nat)
    requires
        search_ok(ot, stab, gens, v, n),
    ensures
        forall|x: int| #[trigger] ot_points(ot).contains(x) ==> 0 <= x < n,
{
    assert forall|x: int| #[trigger] ot_points(ot).contains(x) implies 0 <= x < n by {
        let k = choose|k: int| 0 <= k < ot.len() && ot[k].0 as int == x;
    }
}

proof fn lemma_schreier_set_id(ot: Seq<(usize, Perm)>, stab: Seq<Perm>, gens: Seq<Perm>, v: int, n: nat)
    requires
        search_ok(ot, stab, gens, v, n),
    ensures
        schreier_set(ot, stab, n).contains(id_seq(n)),
{
    let o = ot_points(ot);
    let e = id_seq(n);
    assert(is_perm(e));
    assert forall|x: int| #[trigger] o.contains(x) implies o.contains(e[x] as int) && in_group(sigma(ot, e, x), stab, n) by {
        lemma_points_in_range(ot, stab, gens, v, n);
        lemma_rep_at(ot, stab, gens, v, n, x);
        let c = rep_at(ot, x);
        lemma_comp_id(c);
        lemma_comp_inv(c);
        assert(e[x] as int == x);
        lemma_group_id(stab, n);
    }
}

proof fn lemma_schreier_set_comp(
    ot: Seq<(usize, Perm)>,
    stab: Seq<Perm>,
    gens: Seq<Perm>,
    v: int,
    n: nat,
    g1: Seq<usize>,
    g2: Seq<usize>,
)
    requires
        search_ok(ot, stab, gens, v, n),
        schreier_set(ot, stab, n).contains(g1),
        schreier_set(ot, stab, n).contains(g2),
    ensures
        schreier_set(ot, stab, n).contains(comp(g1, g2)),
{
    let o = ot_points(ot);
    lemma_comp_perm(g1, g2);
    assert forall|x: int| #[trigger] o.contains(x) implies o.contains(comp(g1, g2)[x] as int) && in_group(
        sigma(ot, comp(g1, g2), x),
        stab,
        n,
    ) by {
        lemma_sigma_comp(ot, stab, gens, v, n, g1, g2, x);
    }
}

proof fn lemma_sigma_comp(
    ot: Seq<(usize, Perm)>,
    stab: Seq<Perm>,
    gens: Seq<Perm>,
    v: int,
    n: nat,
    g1: Seq<usize>,
    g2: Seq<usize>,
    x: int,
)
    requires
        search_ok(ot, stab, gens, v, n),
        schreier_set(ot, stab, n).contains(g1),
        schreier_set(ot, stab, n).contains(g2),
        ot_points(ot).contains(x),
    ensures
        ot_points(ot).contains(comp(g1, g2)[x] as int),
        in_group(sigma(ot, comp(g1, g2), x), stab, n),
{
    let o = ot_points(ot);
    lemma_points_in_range(ot, stab, gens, v, n);
    let x1 = g1[x] as int;
    assert(o.contains(x1));
    let x2 = g2[x1] as int;
    assert(o.contains(x2));
    lemma_rep_at(ot, stab, gens, v, n, x);
    lemma_rep_at(ot, stab, gens, v, n, x1);
    lemma_rep_at(ot, stab, gens, v, n, x2);
    let c = rep_at(ot, x);
    let b = rep_at(ot, x1);
    let a = rep_at(ot, x2);
    let s1 = sigma(ot, g1, x);
    let s2 = sigma(ot, g2, x1);
    let g12 = comp(g1, g2);
    lemma_comp_perm(g1, g2);
    lemma_comp_perm(c, g1);
    lemma_comp_perm(b, g2);
    lemma_comp_perm(c, g12);
    lemma_sigma(b, comp(c, g1));
    lemma_sigma(a, comp(b, g2));
    lemma_sigma(a, comp(c, g12));
    lemma_comp_perm(s2, s1);
    let t = comp(c, g12);
    lemma_comp_assoc(c, g1, g2);
    lemma_comp_assoc(s2, s1, comp(comp(c, g1), g2));
    lemma_comp_assoc(s1, comp(c, g1), g2);
    assert(comp(comp(s2, s1), t) == a);
    assert(comp(sigma(ot, g12, x), t) == a);
    lemma_comp_perm(c, g12);
    lemma_right_cancel(sigma(ot, g12, x), comp(s2, s1), t);
    lemma_group_comp(s2, s1, stab, n);
}

proof fn lemma_sigma_inv(
    ot: Seq<(usize, Perm)>,
    stab: Seq<Perm>,
    gens: Seq<Perm>,
    v: int,
    n: nat,
    g: Seq<usize>,
    x: int,
)
    requires
        search_ok(ot, stab, gens, v, n),
        schreier_set(ot, stab, n).contains(g),
        ot_points(ot).contains(x),
    ensures
        ot_points(ot).contains(inv_seq(g)[x] as int),
        in_group(sigma(ot, inv_seq(g), x), stab, n),
{
    let o = ot_points(ot);
    lemma_points_in_range(ot, stab, gens, v, n);
    lemma_inv_props(g);
    let gi = inv_seq(g);
    assert forall|y: int| #[trigger] o.contains(y) implies o.contains(g[y] as int) by {}
    lemma_keeps_onto(g, o, n, x);
    let x1 = gi[x] as int;
    assert(g[x1] as int == x);
    lemma_rep_at(ot, stab, gens, v, n, x);
    lemma_rep_at(ot, stab, gens, v, n, x1);
    let c = rep_at(ot, x);
    let b = rep_at(ot, x1);
    let s = sigma(ot, g, x1);
    assert(in_group(s, stab, n));
    lemma_comp_perm(b, g);
    lemma_sigma(c, comp(b, g));
    lemma_comp_perm(c, gi);
    lemma_sigma(b, comp(c, gi));
    let t = comp(c, gi);
    lemma_inv_props(s);
    lemma_comp_assoc(s, comp(b, g), gi);
    lemma_comp_assoc(b, g, gi);
    lemma_comp_inv(g);
    lemma_comp_id(b);
    assert(comp(comp(b, g), gi) == b);
    assert(t == comp(s, b));
    lemma_comp_assoc(inv_seq(s), s, b);
    lemma_comp_inv(s);
    assert(comp(inv_seq(s), t) == b);
    lemma_comp_perm(inv_seq(s), s);
    lemma_right_cancel(sigma(ot, gi, x), inv_seq(s), t);
    lemma_group_inv(s, stab, n);
}

proof fn lemma_schreier_set_subgroup(ot: Seq<(usize, Perm)>, stab: Seq<Perm>, gens: Seq<Perm>, v: int, n: nat)
    requires
        search_ok(ot, stab, gens, v, n),
    ensures
        is_subgroup(schreier_set(ot, stab, n), n),
{
    let k = schreier_set(ot, stab, n);
    let o = ot_points(ot);
    lemma_schreier_set_id(ot, stab, gens, v, n);
    assert forall|g1: Seq<usize>, g2: Seq<usize>| #![trigger k.contains(g1), k.contains(g2)]
        k.contains(g1) && k.contains(g2) implies k.contains(comp(g1, g2)) by {
        lemma_schreier_set_comp(ot, stab, gens, v, n, g1, g2);
    }
    assert forall|g: Seq<usize>| #[trigger] k.contains(g) implies k.contains(inv_seq(g)) by {
        lemma_inv_props(g);
        assert forall|x: int| #[trigger] o.contains(x) implies o.contains(inv_seq(g)[x] as int) && in_group(
            sigma(ot, inv_seq(g), x),
            stab,
            n,
        ) by {
            lemma_sigma_inv(ot, stab, gens, v, n, g, x);
        }
    }
    reveal(is_subgroup);
}

/// Schreier's lemma: every element of the group generated by `gens` that
/// fixes `v` lies in the group generated by the Schreier generators.
pub proof fn lemma_schreier(ot: Seq<(usize, Perm)>, stab: Seq<Perm>, gens: Seq<Perm>, v: int, n: nat, h: Seq<usize>)
    requires
        search_ok(ot, stab, gens, v, n),
        in_group(h, gens, n),
        is_perm(h),
        h.len() == n,
        h[v] as int == v,
    ensures
        in_group(h, stab, n),
{
    let k = schreier_set(ot, stab, n);
    let o = ot_points(ot);
    lemma_schreier_set_subgroup(ot, stab, gens, v, n);
    lemma_points_in_range(ot, stab, gens, v, n);
    assert(gen_set(gens).subset_of(k)) by {
        assert forall|p: Seq<usize>| gen_set(gens).contains(p) implies k.contains(p) by {
            let j = choose|j: int| 0 <= j < gens.len() && gens[j]@ == p;
            assert forall|x: int| #[trigger] o.contains(x) implies o.contains(p[x] as int) && in_group(sigma(ot, p, x), stab, n) by {
                let kx = choose|kx: int| 0 <= kx < ot.len() && ot[kx].0 as int == x;
                assert(schreier_covered(ot, stab, gens, kx, j, n));
                assert(o.contains(gens[j]@[x] as int));
                let y = p[x] as int;
                lemma_rep_at(ot, stab, gens, v, n, x);
                lemma_rep_at(ot, stab, gens, v, n, y);
                let k2 = choose|k2: int| 0 <= k2 < ot.len() && ot[k2].0 as int == y;
                assert(ot[k2].0 == gens[j]@[ot[kx].0 as int]);
                assert(rep_at(ot, x) == ot[kx].1@);
                let r = sigma(ot, p, x);
                if r == id_seq(n) {
                    lemma_group_id(stab, n);
                } else {
                    let i = choose|i: int| 0 <= i < stab.len() && stab[i]@ == r;
                    lemma_group_gen(stab, n, i);
                }
            }
        }
    }
    lemma_group_span(h, gens, n);
    reveal(in_span);
    assert(k.contains(h));
    assert(o.contains(v)) by {
        assert(ot[0].0 as int == v);
    }
    lemma_rep_at(ot, stab, gens, v, n, v);
    assert(rep_at(ot, v) == id_seq(n));
    assert(in_group(sigma(ot, h, v), stab, n));
    lemma_comp_id(h);
    lemma_inv_props(h);
    lemma_comp_id(inv_seq(h));
    assert(sigma(ot, h, v) == inv_seq(h));
    lemma_group_inv(inv_seq(h), stab, n);
    lemma_inv_inv(h);
}

} // verus!
