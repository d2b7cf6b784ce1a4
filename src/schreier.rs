//! The Schreier-Sims verification procedure, the randomized incremental
//! builder of a base and strong generating set, and the group order.
use crate::perm::{
    comp, id_seq, inv_seq, is_perm, lemma_comp_assoc, lemma_comp_id, lemma_comp_inv, lemma_comp_perm,
    lemma_inv_props, Perm,
};
pub use crate::transversal::strip;
use crate::bignum::{big_from_u64, big_mul_u64, big_of};
use crate::group::{
    gen_set, in_group, lemma_group_id, in_span, lemma_group_comp, lemma_group_gen, lemma_group_inv, lemma_group_span,
    lemma_group_within, lemma_span_comp, lemma_span_elem, lemma_span_empty, lemma_span_id,
    lemma_span_within,
};
use crate::lagrange::{group_size, lemma_order_is_chain_size};
use crate::stabilizer::{lemma_group_keeps, lemma_schreier, search_ok};
use crate::random::{new_rng, random_index};
use num_bigint::BigInt;
use crate::transversal::{
    prod_rev, views, all_fix, chain_fixes, chain_in, chain_wf, closed_from, ot_points, lemma_sift_in_group, closed_under, dom, get_transversal, is_orbit,
    keeps_fixed, lemma_sift_fixes, lemma_sift_perm, lemma_sift_stop, orbit_transversal_stabilizer,
    perms_of, rep_ok, sift, strip_from, Transversal,
};
use rand::rngs::ThreadRng;
use vstd::prelude::*;
use vstd::set_lib::{lemma_int_range, lemma_len_subset, set_int_range};

verus! {

/// No generator is the identity.
pub open spec fn no_identity(s: Seq<Perm>, n: nat) -> bool {
    forall|i: int| 0 <= i < s.len() ==> (#[trigger] s[i])@ != id_seq(n)
}

/// `p` fixes the base points of the first `i` levels.
pub open spec fn fixes_bases(p: Seq<usize>, chain: Seq<(usize, Transversal)>, i: int) -> bool {
    forall|j: int| 0 <= j < i ==> p[#[trigger] chain[j].0 as int] == chain[j].0
}

/// A witness that the chain is not yet complete: it fixes the base points
/// of some first `i` levels and, unless `i` is the whole chain, sends the
/// next base point outside that level's orbit.
pub open spec fn witness_ok(chain: Seq<(usize, Transversal)>, h: Seq<usize>) -> bool {
    exists|i: int|
        0 <= i <= chain.len() && #[trigger] fixes_bases(h, chain, i) && (i < chain.len()
            ==> chain[i].1@[h[chain[i].0 as int] as int] is None)
}

/// Every generator moves some base point.
pub open spec fn all_move_a_base_point(s: Seq<Perm>, chain: Seq<(usize, Transversal)>) -> bool {
    forall|k: int|
        0 <= k < s.len() ==> exists|j: int|
            0 <= j < chain.len() && (#[trigger] s[k])@[chain[j].0 as int] != chain[j].0
}

/// The generators in `s` that fix the base points of the first `i` levels.
pub open spec fn level_gens(s: Seq<Perm>, chain: Seq<(usize, Transversal)>, i: int) -> Set<Seq<usize>> {
    Set::new(|p: Seq<usize>| exists|k: int| 0 <= k < s.len() && s[k]@ == p && fixes_bases(p, chain, i))
}

/// The chain fits the generating set `s`: it is well formed, each level
/// holds the orbit of its base point under the generators fixing the
/// earlier base points, and its representatives lie in the group those
/// generators generate.
pub open spec fn chain_fits(chain: Seq<(usize, Transversal)>, s: Seq<Perm>, n: nat) -> bool {
    &&& chain_wf(n, chain)
    &&& levels_are_orbits(s, chain)
    &&& forall|i: int, w: int|
        0 <= i < chain.len() && 0 <= w < chain[i].1@.len() && (#[trigger] chain[i].1@[w]) is Some
            ==> in_span(chain[i].1@[w]->Some_0@, level_gens(s, chain, i), n)
}

/// Every element of the group generated by `s` sifts through the chain to
/// the identity: the chain is a base and strong generating set for it.
pub open spec fn sifts_all(chain: Seq<(usize, Transversal)>, s: Seq<Perm>, n: nat) -> bool {
    forall|g: Seq<usize>|
        #[trigger] in_group(g, s, n) && is_perm(g) && g.len() == n ==> sift(g, chain).1 == id_seq(n)
}

/// The table of every level holds the identity at its base point.
pub open spec fn bases_have_identity(chain: Seq<(usize, Transversal)>, n: nat) -> bool {
    forall|i: int|
        0 <= i < chain.len() ==> (#[trigger] chain[i]).1@[chain[i].0 as int] is Some && chain[i].1@[chain[i].0 as int]->Some_0@
            == id_seq(n)
}

/// No point is a base point of two levels.
pub open spec fn distinct_bases(chain: Seq<(usize, Transversal)>) -> bool {
    forall|i: int, j: int| 0 <= i < chain.len() && 0 <= j < chain.len() && i != j ==> #[trigger] chain[i].0 != #[trigger] chain[j].0
}

/// The elements of `s` that fix `b`, in their order, with where each came
/// from in `s` and where each element of `s` fixing `b` went.
fn fixing(s: &[Perm], b: usize, n: Ghost<nat>) -> (r: (Vec<Perm>, Ghost<Seq<int>>, Ghost<Seq<int>>))
    requires
        perms_of(s@, n@),
        b < n@,
    ensures
        perms_of(r.0@, n@),
        r.1@.len() == r.0@.len(),
        forall|a: int|
            0 <= a < r.0@.len() ==> 0 <= #[trigger] r.1@[a] < s@.len() && r.0@[a]@ == s@[r.1@[a]]@
                && r.0@[a]@[b as int] == b,
        r.2@.len() == s@.len(),
        forall|k: int|
            0 <= k < s@.len() && (#[trigger] s@[k])@[b as int] == b ==> 0 <= r.2@[k] < r.0@.len()
                && r.0@[r.2@[k]]@ == s@[k]@,
{
    let mut r: Vec<Perm> = Vec::new();
    let ghost mut src: Seq<int> = Seq::empty();
    let ghost mut dst: Seq<int> = Seq::empty();
    let mut idx: usize = 0;
    while idx < s.len()
        invariant
            idx <= s@.len(),
            perms_of(s@, n@),
            b < n@,
            perms_of(r@, n@),
            src.len() == r@.len(),
            forall|a: int|
                0 <= a < r@.len() ==> 0 <= #[trigger] src[a] < s@.len() && r@[a]@ == s@[src[a]]@
                    && r@[a]@[b as int] == b,
            dst.len() == idx,
            forall|k: int|
                0 <= k < idx && (#[trigger] s@[k])@[b as int] == b ==> 0 <= dst[k] < r@.len()
                    && r@[dst[k]]@ == s@[k]@,
        decreases s@.len() - idx,
    {
        if s[idx].at(b) == b {
            let ghost r0 = r@;
            r.push(s[idx].copy());
            proof {
                src = src.push(idx as int);
                dst = dst.push(r0.len() as int);
                assert forall|a: int| 0 <= a < r@.len() implies 0 <= #[trigger] src[a] < s@.len()
                    && r@[a]@ == s@[src[a]]@ && r@[a]@[b as int] == b by {
                    if a < r0.len() {
                        assert(r@[a] == r0[a]);
                    }
                }
                assert forall|k: int| 0 <= k < idx + 1 && (#[trigger] s@[k])@[b as int] == b implies 0
                    <= dst[k] < r@.len() && r@[dst[k]]@ == s@[k]@ by {
                    if k < idx {
                        assert(r@[dst[k]] == r0[dst[k]]);
                    }
                }
            }
        } else {
            proof {
                dst = dst.push(0);
            }
        }
        idx = idx + 1;
    }
    (r, Ghost(src), Ghost(dst))
}

/// `xs` is closed under every permutation of `gs`.
spec fn closed_by(xs: Set<int>, gs: Set<Seq<usize>>) -> bool {
    forall|p: Seq<usize>, x: int|
        #![trigger gs.contains(p), xs.contains(x)]
        gs.contains(p) && xs.contains(x) ==> xs.contains(p[x] as int)
}

proof fn lemma_closed_at_by(xs: Set<int>, s: Seq<Perm>, c: Seq<(usize, Transversal)>, i: int)
    ensures
        closed_at(xs, s, c, i) == closed_by(xs, level_gens(s, c, i)),
{
    let gs = level_gens(s, c, i);
    if closed_at(xs, s, c, i) {
        assert forall|p: Seq<usize>, x: int| #![trigger gs.contains(p), xs.contains(x)]
            gs.contains(p) && xs.contains(x) implies xs.contains(p[x] as int) by {
            let k = choose|k: int| 0 <= k < s.len() && s[k]@ == p && fixes_bases(p, c, i);
        }
    }
    if closed_by(xs, gs) {
        assert forall|x: int, k: int| #![trigger xs.contains(x), s[k]]
            xs.contains(x) && 0 <= k < s.len() && fixes_bases(s[k]@, c, i) implies xs.contains(s[k]@[x] as int) by {
            assert(gs.contains(s[k]@));
        }
    }
}

proof fn lemma_level_orbit_same(
    d: Set<int>,
    v: int,
    s1: Seq<Perm>,
    c1: Seq<(usize, Transversal)>,
    i1: int,
    s2: Seq<Perm>,
    c2: Seq<(usize, Transversal)>,
    i2: int,
)
    requires
        level_gens(s1, c1, i1) == level_gens(s2, c2, i2),
        level_orbit(d, v, s1, c1, i1),
    ensures
        level_orbit(d, v, s2, c2, i2),
{
    reveal(level_orbit);
    lemma_closed_at_by(d, s1, c1, i1);
    lemma_closed_at_by(d, s2, c2, i2);
    assert forall|xs: Set<int>| #[trigger] closed_at(xs, s2, c2, i2) && xs.contains(v) implies d.subset_of(xs) by {
        lemma_closed_at_by(xs, s1, c1, i1);
        lemma_closed_at_by(xs, s2, c2, i2);
        assert(closed_at(xs, s1, c1, i1));
    }
}

proof fn lemma_level_gens_zero(s: Seq<Perm>, c: Seq<(usize, Transversal)>)
    ensures
        level_gens(s, c, 0) == gen_set(s),
{
    assert(level_gens(s, c, 0) =~= gen_set(s)) by {
        assert forall|p: Seq<usize>| gen_set(s).contains(p) implies level_gens(s, c, 0).contains(p) by {
            let k = choose|k: int| 0 <= k < s.len() && s[k]@ == p;
            assert(fixes_bases(p, c, 0));
        }
    }
}

proof fn lemma_level_gens_mono(s: Seq<Perm>, c: Seq<(usize, Transversal)>, i: int, j: int)
    requires
        0 <= i <= j,
    ensures
        level_gens(s, c, j).subset_of(level_gens(s, c, i)),
{
    assert forall|p: Seq<usize>| level_gens(s, c, j).contains(p) implies level_gens(s, c, i).contains(p) by {
        let k = choose|k: int| 0 <= k < s.len() && s[k]@ == p && fixes_bases(p, c, j);
        assert(fixes_bases(p, c, i));
    }
}

/// `inter` holds the elements of `s` fixing the first base point.
spec fn first_fixers(inter: Seq<Perm>, s: Seq<Perm>, c: Seq<(usize, Transversal)>, src: Seq<int>, dst: Seq<int>) -> bool {
    &&& c.len() > 0
    &&& src.len() == inter.len()
    &&& forall|a: int|
        0 <= a < inter.len() ==> 0 <= #[trigger] src[a] < s.len() && inter[a]@ == s[src[a]]@
            && inter[a]@[c[0].0 as int] == c[0].0
    &&& dst.len() == s.len()
    &&& forall|k: int|
        0 <= k < s.len() && (#[trigger] s[k])@[c[0].0 as int] == c[0].0 ==> 0 <= dst[k] < inter.len()
            && inter[dst[k]]@ == s[k]@
}

proof fn lemma_gens_tail(
    inter: Seq<Perm>,
    s: Seq<Perm>,
    c: Seq<(usize, Transversal)>,
    src: Seq<int>,
    dst: Seq<int>,
    i: int,
)
    requires
        first_fixers(inter, s, c, src, dst),
        0 <= i < c.len(),
    ensures
        level_gens(inter, c.drop_first(), i) == level_gens(s, c, i + 1),
{
    let tail = c.drop_first();
    assert forall|p: Seq<usize>| fixes_bases(p, c, i + 1) <==> (p[c[0].0 as int] == c[0].0 && fixes_bases(p, tail, i)) by {
        if fixes_bases(p, c, i + 1) {
            assert forall|j: int| 0 <= j < i implies p[#[trigger] tail[j].0 as int] == tail[j].0 by {
                assert(tail[j] == c[j + 1]);
            }
        }
        if p[c[0].0 as int] == c[0].0 && fixes_bases(p, tail, i) {
            assert forall|j: int| 0 <= j < i + 1 implies p[#[trigger] c[j].0 as int] == c[j].0 by {
                if j > 0 {
                    assert(tail[j - 1] == c[j]);
                }
            }
        }
    }
    let g1 = level_gens(inter, tail, i);
    let g2 = level_gens(s, c, i + 1);
    assert forall|p: Seq<usize>| g1.contains(p) implies g2.contains(p) by {
        let a = choose|a: int| 0 <= a < inter.len() && inter[a]@ == p && fixes_bases(p, tail, i);
        assert(0 <= src[a] < s.len());
    }
    assert forall|p: Seq<usize>| g2.contains(p) implies g1.contains(p) by {
        let k = choose|k: int| 0 <= k < s.len() && s[k]@ == p && fixes_bases(p, c, i + 1);
        assert(s[k]@[c[0].0 as int] == c[0].0);
        assert(inter[dst[k]]@ == s[k]@);
    }
    assert(g1 =~= g2);
}

proof fn lemma_fits_tail(n: nat, c: Seq<(usize, Transversal)>, s: Seq<Perm>, inter: Seq<Perm>, src: Seq<int>, dst: Seq<int>)
    requires
        first_fixers(inter, s, c, src, dst),
        chain_fits(c, s, n),
    ensures
        chain_fits(c.drop_first(), inter, n),
{
    let tail = c.drop_first();
    crate::transversal::lemma_wf_tail(n, c);
    assert forall|i: int| 0 <= i < tail.len() implies level_orbit(dom(#[trigger] tail[i].1@), tail[i].0 as int, inter, tail, i) by {
        assert(tail[i] == c[i + 1]);
        assert(level_orbit(dom(c[i + 1].1@), c[i + 1].0 as int, s, c, i + 1));
        lemma_gens_tail(inter, s, c, src, dst, i);
        lemma_level_orbit_same(dom(c[i + 1].1@), c[i + 1].0 as int, s, c, i + 1, inter, tail, i);
    }
    assert forall|i: int, w: int|
        0 <= i < tail.len() && 0 <= w < tail[i].1@.len() && (#[trigger] tail[i].1@[w]) is Some
            implies in_span(tail[i].1@[w]->Some_0@, level_gens(inter, tail, i), n) by {
        assert(tail[i] == c[i + 1]);
        lemma_gens_tail(inter, s, c, src, dst, i);
    }
}

/// Sifting backwards: what was sifted lies in a group holding what was left
/// and every representative.
pub proof fn lemma_sift_back(g: Seq<usize>, chain: Seq<(usize, Transversal)>, n: nat, gs: Set<Seq<usize>>)
    requires
        is_perm(g),
        g.len() == n,
        crate::transversal::chain_shape(n, chain),
        in_span(sift(g, chain).1, gs, n),
        forall|i: int, w: int|
            0 <= i < chain.len() && 0 <= w < chain[i].1@.len() && (#[trigger] chain[i].1@[w]) is Some
                ==> in_span(chain[i].1@[w]->Some_0@, gs, n),
    ensures
        in_span(g, gs, n),
    decreases chain.len(),
{
    if chain.len() > 0 {
        let t = chain[0].1@;
        let w = g[chain[0].0 as int] as int;
        if 0 <= w < t.len() && t[w] is Some {
            let u = t[w]->Some_0@;
            let g1 = comp(g, inv_seq(u));
            lemma_inv_props(u);
            lemma_comp_perm(g, inv_seq(u));
            let tail = chain.drop_first();
            crate::transversal::lemma_shape_tail(n, chain);
            assert forall|i: int, w2: int|
                0 <= i < tail.len() && 0 <= w2 < tail[i].1@.len() && (#[trigger] tail[i].1@[w2]) is Some
                    implies in_span(tail[i].1@[w2]->Some_0@, gs, n) by {
                assert(tail[i] == chain[i + 1]);
            }
            lemma_sift_back(g1, tail, n, gs);
            lemma_span_comp(g1, u, gs, n);
            lemma_comp_assoc(g, inv_seq(u), u);
            lemma_comp_inv(u);
            lemma_comp_id(g);
        }
    }
}

/// One level of the verification: if the rest of the chain sifts the group
/// of the generators fixing the first base point, and every Schreier
/// generator of the first base point sifts through the rest, then the whole
/// chain sifts the group of `s`.
proof fn lemma_sifts_step(
    n: nat,
    c: Seq<(usize, Transversal)>,
    s: Seq<Perm>,
    inter: Seq<Perm>,
    src: Seq<int>,
    dst: Seq<int>,
    ot: Seq<(usize, Perm)>,
    y: Seq<Perm>,
)
    requires
        first_fixers(inter, s, c, src, dst),
        chain_fits(c, s, n),
        perms_of(s, n),
        sifts_all(c.drop_first(), inter, n),
        search_ok(ot, y, s, c[0].0 as int, n),
        forall|k: int| 0 <= k < y.len() ==> sift((#[trigger] y[k])@, c.drop_first()).1 == id_seq(n),
    ensures
        sifts_all(c, s, n),
{
    let tail = c.drop_first();
    let b0 = c[0].0 as int;
    let d = dom(c[0].1@);
    lemma_level_gens_zero(s, c);
    lemma_gens_tail(inter, s, c, src, dst, 0);
    lemma_level_gens_zero(inter, tail);
    crate::transversal::lemma_wf_tail(n, c);
    assert forall|g: Seq<usize>| #[trigger] in_group(g, s, n) && is_perm(g) && g.len() == n implies sift(g, c).1 == id_seq(n) by {
        // g keeps the orbit of the first base point
        assert(level_orbit(d, b0, s, c, 0));
        reveal(level_orbit);
        lemma_closed_at_by(d, s, c, 0);
        lemma_group_span(g, s, n);
        assert forall|p: Seq<usize>| #[trigger] gen_set(s).contains(p) implies is_perm(p) && p.len() == n by {
            let k = choose|k: int| 0 <= k < s.len() && s[k]@ == p;
        }
        assert forall|x: int| #[trigger] d.contains(x) implies 0 <= x < n by {}
        lemma_group_keeps(d, gen_set(s), n, g, b0);
        let w = g[b0] as int;
        let u = c[0].1@[w]->Some_0@;
        assert(crate::transversal::rep_ok(c, 0, w));
        // g times the inverse of the representative fixes the base point
        assert(in_span(u, gen_set(s), n));
        lemma_group_span(u, s, n);
        lemma_group_inv(u, s, n);
        lemma_group_comp(g, inv_seq(u), s, n);
        lemma_inv_props(u);
        lemma_comp_perm(g, inv_seq(u));
        let g1 = comp(g, inv_seq(u));
        assert(g1[b0] as int == b0);
        // it lies in the group of the Schreier generators ...
        lemma_schreier(ot, y, s, b0, n, g1);
        // ... each of which lies in the group of the generators fixing the base point
        let gi = gen_set(inter);
        assert forall|p: Seq<usize>| #[trigger] gen_set(y).contains(p) implies in_span(p, gi, n) by {
            let k = choose|k: int| 0 <= k < y.len() && y[k]@ == p;
            assert(sift(y[k]@, tail).1 == id_seq(n));
            lemma_span_id(gi, n);
            assert forall|i: int, w2: int|
                0 <= i < tail.len() && 0 <= w2 < tail[i].1@.len() && (#[trigger] tail[i].1@[w2]) is Some
                    implies in_span(tail[i].1@[w2]->Some_0@, gi, n) by {
                assert(tail[i] == c[i + 1]);
                lemma_level_gens_mono(s, c, 1, i + 1);
                assert forall|q: Seq<usize>| #[trigger] level_gens(s, c, i + 1).contains(q) implies in_span(q, gi, n) by {
                    assert(level_gens(s, c, 1).contains(q));
                    lemma_span_elem(q, gi, n);
                }
                lemma_span_within(tail[i].1@[w2]->Some_0@, level_gens(s, c, i + 1), gi, n);
            }
            lemma_sift_back(p, tail, n, gi);
        }
        lemma_group_span(g1, y, n);
        lemma_span_within(g1, gen_set(y), gi, n);
        lemma_group_span(g1, inter, n);
        assert(sift(g1, tail).1 == id_seq(n));
    }
}

/// With no levels, the generating set must be empty.
proof fn lemma_sifts_empty(c: Seq<(usize, Transversal)>, s: Seq<Perm>, n: nat)
    requires
        c.len() == 0,
        s.len() == 0,
        n <= usize::MAX,
    ensures
        sifts_all(c, s, n),
{
    assert forall|g: Seq<usize>| #[trigger] in_group(g, s, n) && is_perm(g) && g.len() == n implies sift(g, c).1 == id_seq(n) by {
        lemma_group_span(g, s, n);
        assert(gen_set(s) =~= Set::empty());
        lemma_span_empty(g, n);
    }
}

/// The verification procedure on the levels from `lvl` on (see
/// `schreier_sims`).
fn sims_from(
    n: usize,
    chain: &[(usize, Transversal)],
    lvl: usize,
    s: &[Perm],
    top: Ghost<Seq<Perm>>,
) -> (r: Result<(), (Vec<Perm>, Perm)>)
    requires
        lvl <= chain@.len(),
        chain_wf(n as nat, chain@.skip(lvl as int)),
        perms_of(s@, n as nat),
    ensures
        chain@.len() == lvl ==> (r is Ok <==> s@.len() == 0),
        chain@.len() == lvl && s@.len() > 0 ==> (r matches Err(w) && w.0@.len() == 0 && w.1@ == s@[0]@),
        r is Ok ==> all_move_a_base_point(s@, chain@.skip(lvl as int)),
        r is Ok && chain_fits(chain@.skip(lvl as int), s@, n as nat) ==> sifts_all(
            chain@.skip(lvl as int),
            s@,
            n as nat,
        ),
        r matches Err(w) ==> {
            &&& is_perm(w.1@)
            &&& w.1@.len() == n
            &&& no_identity(s@, n as nat) ==> w.1@ != id_seq(n as nat)
            &&& witness_ok(chain@.skip(lvl as int), w.1@)
            &&& forall|x: int|
                0 <= x < n && all_fix(s@, x) && chain_fixes(chain@.skip(lvl as int), x) ==> #[trigger] w.1@[x] as int == x
            &&& chain_in(chain@.skip(lvl as int), top@, n as nat) && (forall|i: int|
                0 <= i < s@.len() ==> in_group((#[trigger] s@[i])@, top@, n as nat)) ==> in_group(w.1@, top@, n as nat)
            &&& in_group(comp(w.1@, prod_rev(views(w.0@), n as nat)), s@, n as nat)
        },
    decreases chain@.len() - lvl,
{
    let ghost c = chain@.skip(lvl as int);
    if lvl == chain.len() {
        if s.len() == 0 {
            proof {
                lemma_sifts_empty(c, s@, n as nat);
            }
            return Ok(());
        }
        let w0: Vec<Perm> = Vec::new();
        let w1 = s[0].copy();
        proof {
            assert(fixes_bases(s@[0]@, c, 0));
            assert(witness_ok(c, s@[0]@));
            assert(views(w0@) =~= Seq::<Seq<usize>>::empty());
            assert(prod_rev(views(w0@), n as nat) == id_seq(n as nat));
            lemma_comp_id(w1@);
            lemma_group_gen(s@, n as nat, 0);
        }
        return Err((w0, w1));
    }
    let ghost tail = chain@.skip(lvl + 1);
    proof {
        assert(tail =~= c.drop_first());
        assert(c[0] == chain@[lvl as int]);
        crate::transversal::lemma_wf_tail(n as nat, c);
    }
    let beta0 = chain[lvl].0;
    let next = lvl + 1;
    let (intersection, Ghost(src), Ghost(dst)) = fixing(s, beta0, Ghost(n as nat));
    proof {
        if no_identity(s@, n as nat) {
            assert forall|i: int| 0 <= i < intersection@.len() implies (#[trigger] intersection@[i])@ != id_seq(n as nat) by {
                assert(intersection@[i]@ == s@[src[i]]@);
            }
        }
        if forall|i: int| 0 <= i < s@.len() ==> in_group((#[trigger] s@[i])@, top@, n as nat) {
            assert forall|i: int| 0 <= i < intersection@.len() implies in_group((#[trigger] intersection@[i])@, top@, n as nat) by {
                assert(intersection@[i]@ == s@[src[i]]@);
            }
        }
        if chain_in(c, top@, n as nat) {
            assert forall|i2: int, w2: int|
                0 <= i2 < tail.len() && 0 <= w2 < tail[i2].1@.len() && (#[trigger] tail[i2].1@[w2]) is Some
                    implies in_group(tail[i2].1@[w2]->Some_0@, top@, n as nat) by {
                assert(tail[i2] == c[i2 + 1]);
            }
        }
    }
    match sims_from(n, chain, next, intersection.as_slice(), top) {
        Err(w) => {
            proof {
                assert forall|i2: int| 0 <= i2 < intersection@.len() implies #[trigger] intersection@[i2]@[beta0 as int] as int == beta0 as int by {
                    assert(0 <= src[i2] < s@.len());
                }
                assert(all_fix(intersection@, beta0 as int));
                let h = w.1@;
                let i = choose|i: int|
                    0 <= i <= tail.len() && #[trigger] fixes_bases(h, tail, i) && (i < tail.len()
                        ==> tail[i].1@[h[tail[i].0 as int] as int] is None);
                assert(h[beta0 as int] == beta0);
                assert(fixes_bases(h, c, i + 1)) by {
                    assert forall|j: int| 0 <= j < i + 1 implies h[#[trigger] c[j].0 as int] == c[j].0 by {
                        if j > 0 {
                            assert(c[j] == tail[j - 1]);
                        }
                    }
                }
                if i < tail.len() {
                    assert(c[i + 1] == tail[i]);
                }
                assert(witness_ok(c, h));
                assert forall|i2: int| 0 <= i2 < intersection@.len() implies in_group((#[trigger] intersection@[i2])@, s@, n as nat) by {
                    assert(intersection@[i2]@ == s@[src[i2]]@);
                    lemma_group_gen(s@, n as nat, src[i2]);
                }
                lemma_group_within(comp(w.1@, prod_rev(views(w.0@), n as nat)), intersection@, s@, n as nat);
                assert forall|x: int|
                    0 <= x < n && all_fix(s@, x) && chain_fixes(c, x) implies #[trigger] h[x] as int == x by {
                    assert forall|i2: int| 0 <= i2 < intersection@.len() implies #[trigger] intersection@[i2]@[x] as int == x by {
                        assert(intersection@[i2]@ == s@[src[i2]]@);
                    }
                    assert forall|i2: int, w2: int|
                        0 <= i2 < tail.len() && 0 <= w2 < tail[i2].1@.len() && (#[trigger] tail[i2].1@[w2]) is Some
                            implies tail[i2].1@[w2]->Some_0@[x] as int == x by {
                        assert(tail[i2] == c[i2 + 1]);
                    }
                }
            }
            return Err(w);
        },
        Ok(()) => {},
    }
    let (ot, y) = orbit_transversal_stabilizer(n, s, beta0);
    let mut k: usize = 0;
    while k < y.len()
        invariant
            k <= y@.len(),
            forall|k2: int| 0 <= k2 < k ==> sift((#[trigger] y@[k2])@, tail).1 == id_seq(n as nat),
            lvl < chain@.len(),
            next == lvl + 1,
            c == chain@.skip(lvl as int),
            tail == chain@.skip(lvl + 1),
            tail == c.drop_first(),
            c[0].0 == beta0,
            chain_wf(n as nat, c),
            chain_wf(n as nat, tail),
            chain_fixes(tail, beta0 as int),
            chain_in(c, top@, n as nat) ==> chain_in(tail, top@, n as nat),
            forall|i: int| 0 <= i < y@.len() ==> in_group((#[trigger] y@[i])@, s@, n as nat),
            forall|i: int|
                0 <= i < y@.len() ==> {
                    &&& crate::transversal::keeps_fixed(#[trigger] y@[i]@, s@, n as nat)
                    &&& y@[i]@[beta0 as int] == beta0
                },
        decreases y@.len() - k,
    {
        let (us, rest) = strip_from(&y[k], chain, next);
        let e = Perm::e(n);
        if rest != e {
            proof {
                let g = y@[k as int]@;
                crate::transversal::lemma_strip_round_trip(g, tail, n as nat);
                assert(in_group(g, s@, n as nat));
                if chain_in(c, top@, n as nat) && (forall|i: int|
                    0 <= i < s@.len() ==> in_group((#[trigger] s@[i])@, top@, n as nat)) {
                    lemma_group_within(g, s@, top@, n as nat);
                    lemma_sift_in_group(g, tail, n as nat, top@);
                }
                lemma_sift_perm(g, tail, n as nat);
                lemma_sift_stop(g, tail, n as nat);
                lemma_sift_fixes(g, tail, n as nat, beta0 as int);
                let h = rest@;
                let i = sift(g, tail).0.len() as int;
                assert(fixes_bases(h, c, i + 1)) by {
                    assert forall|j: int| 0 <= j < i + 1 implies h[#[trigger] c[j].0 as int] == c[j].0 by {
                        if j > 0 {
                            assert(c[j] == tail[j - 1]);
                        }
                    }
                }
                if i < tail.len() {
                    assert(c[i + 1] == tail[i]);
                }
                assert(witness_ok(c, h));
                assert forall|x: int|
                    0 <= x < n && all_fix(s@, x) && chain_fixes(c, x) implies #[trigger] h[x] as int == x by {
                    assert forall|i2: int, w2: int|
                        0 <= i2 < tail.len() && 0 <= w2 < tail[i2].1@.len() && (#[trigger] tail[i2].1@[w2]) is Some
                            implies tail[i2].1@[w2]->Some_0@[x] as int == x by {
                        assert(tail[i2] == c[i2 + 1]);
                    }
                    lemma_sift_fixes(g, tail, n as nat, x);
                }
            }
            return Err((us, rest));
        }
        proof {
            assert(rest@ == id_seq(n as nat));
            assert(sift(y@[k as int]@, tail).1 == id_seq(n as nat));
        }
        k = k + 1;
    }
    proof {
        assert forall|k2: int| 0 <= k2 < s@.len() implies exists|j: int|
            0 <= j < c.len() && (#[trigger] s@[k2])@[c[j].0 as int] != c[j].0 by {
            if s@[k2]@[beta0 as int] == beta0 {
                let i = dst[k2];
                assert(intersection@[i]@ == s@[k2]@);
                let j = choose|j: int|
                    0 <= j < tail.len() && (#[trigger] intersection@[i])@[tail[j].0 as int] != tail[j].0;
                assert(c[j + 1] == tail[j]);
            } else {
                assert(s@[k2]@[c[0].0 as int] != c[0].0);
            }
        }
        if chain_fits(c, s@, n as nat) {
            assert(first_fixers(intersection@, s@, c, src, dst));
            lemma_fits_tail(n as nat, c, s@, intersection@, src, dst);
            assert(sifts_all(tail, intersection@, n as nat));
            assert(search_ok(ot@, y@, s@, beta0 as int, n as nat)) by {
                assert forall|i: int| 0 <= i < y@.len() implies is_perm(#[trigger] y@[i]@) && y@[i]@.len() == n by {
                    assert(crate::transversal::keeps_fixed(y@[i]@, s@, n as nat));
                }
                assert forall|kk: int| 0 <= kk < ot@.len() implies (#[trigger] ot@[kk].0 as int) < n && is_perm(
                    ot@[kk].1@,
                ) && ot@[kk].1@.len() == n && ot@[kk].1@[beta0 as int] == ot@[kk].0 by {
                    let pt = ot@[kk].0;
                    assert((pt as int) < n);
                    assert(crate::transversal::keeps_fixed(ot@[kk].1@, s@, n as nat));
                }
            }
            lemma_sifts_step(n as nat, c, s@, intersection@, src, dst, ot@, y@);
        }
    }
    Ok(())
}

proof fn lemma_push_level(
    n: nat,
    r0: Seq<(usize, Transversal)>,
    lvl: (usize, Transversal),
    otv: Seq<(usize, Perm)>,
    cur: Seq<Perm>,
)
    requires
        chain_wf(n, r0),
        (lvl.0 as int) < n,
        lvl.1@.len() == n,
        forall|k: int|
            0 <= k < otv.len() ==> {
                &&& keeps_fixed((#[trigger] otv[k]).1@, cur, n)
                &&& otv[k].1@[lvl.0 as int] == otv[k].0
            },
        forall|w: int|
            0 <= w < n && (#[trigger] lvl.1@[w]) is Some ==> exists|k: int|
                0 <= k < otv.len() && otv[k].0 as int == w && otv[k].1@ == lvl.1@[w]->Some_0@,
        forall|j: int| 0 <= j < r0.len() ==> all_fix(cur, #[trigger] r0[j].0 as int),
    ensures
        chain_wf(n, r0.push(lvl)),
{
    let r = r0.push(lvl);
    let i = r0.len() as int;
    assert forall|l: int| 0 <= l < r.len() implies (#[trigger] r[l].0 as int) < n && r[l].1@.len() == n by {
        if l < i {
            assert(r[l] == r0[l]);
        }
    }
    assert forall|l: int, w: int|
        0 <= l < r.len() && 0 <= w < n && (#[trigger] r[l].1@[w]) is Some implies is_perm(
        r[l].1@[w]->Some_0@,
    ) && r[l].1@[w]->Some_0@.len() == n && rep_ok(r, l, w) by {
        let u = r[l].1@[w]->Some_0@;
        if l < i {
            assert(r[l] == r0[l]);
            assert(rep_ok(r0, l, w));
            assert forall|j: int| 0 <= j < l implies u[#[trigger] r[j].0 as int] == r[j].0 by {
                assert(r[j] == r0[j]);
            }
        } else {
            let k = choose|k: int| 0 <= k < otv.len() && otv[k].0 as int == w && otv[k].1@ == lvl.1@[w]->Some_0@;
            assert(keeps_fixed(otv[k].1@, cur, n));
            assert forall|j: int| 0 <= j < l implies u[#[trigger] r[j].0 as int] == r[j].0 by {
                assert(r[j] == r0[j]);
                assert(all_fix(cur, r0[j].0 as int));
            }
        }
    }
}

/// The points used as base points.
pub open spec fn base_set(chain: Seq<(usize, Transversal)>) -> Set<int> {
    Set::new(|x: int| exists|i: int| 0 <= i < chain.len() && chain[i].0 as int == x)
}

/// `xs` is closed under the generators that fix the base points of the
/// first `i` levels.
pub open spec fn closed_at(xs: Set<int>, s: Seq<Perm>, chain: Seq<(usize, Transversal)>, i: int) -> bool {
    forall|x: int, k: int|
        #![trigger xs.contains(x), s[k]]
        xs.contains(x) && 0 <= k < s.len() && fixes_bases(s[k]@, chain, i) ==> xs.contains(
            s[k]@[x] as int,
        )
}

/// `d` is the orbit of `v` under the generators that fix the base points of
/// the first `i` levels.
#[verifier::opaque]
pub open spec fn level_orbit(d: Set<int>, v: int, s: Seq<Perm>, chain: Seq<(usize, Transversal)>, i: int) -> bool {
    &&& d.contains(v)
    &&& closed_at(d, s, chain, i)
    &&& forall|xs: Set<int>| #[trigger] closed_at(xs, s, chain, i) && xs.contains(v) ==> d.subset_of(xs)
}

/// Every level's table holds the orbit of its base point under the
/// generators that fix all earlier base points.
pub open spec fn levels_are_orbits(s: Seq<Perm>, chain: Seq<(usize, Transversal)>) -> bool {
    forall|i: int|
        0 <= i < chain.len() ==> level_orbit(dom(#[trigger] chain[i].1@), chain[i].0 as int, s, chain, i)
}

/// How far the orbits of the levels are from covering all `n` points.
pub open spec fn deficit(n: nat, chain: Seq<(usize, Transversal)>) -> int
    decreases chain.len(),
{
    if chain.len() == 0 {
        0
    } else {
        (n - dom(chain[0].1@).len()) + deficit(n, chain.drop_first())
    }
}

pub proof fn lemma_dom_bound(t: Seq<Option<Perm>>, n: nat)
    requires
        t.len() == n,
    ensures
        dom(t).finite(),
        dom(t).len() <= n,
{
    lemma_int_range(0, n as int);
    assert(dom(t).subset_of(set_int_range(0, n as int)));
    lemma_len_subset(dom(t), set_int_range(0, n as int));
}

proof fn lemma_deficit_nonneg(n: nat, c: Seq<(usize, Transversal)>)
    requires
        forall|l: int| 0 <= l < c.len() ==> (#[trigger] c[l]).1@.len() == n,
    ensures
        deficit(n, c) >= 0,
    decreases c.len(),
{
    if c.len() > 0 {
        lemma_dom_bound(c[0].1@, n);
        assert forall|l: int| 0 <= l < c.drop_first().len() implies (#[trigger] c.drop_first()[l]).1@.len() == n by {
            assert(c.drop_first()[l] == c[l + 1]);
        }
        lemma_deficit_nonneg(n, c.drop_first());
    }
}

/// Orbits that only grow, one of them strictly, lower the deficit.
proof fn lemma_deficit_decreases(n: nat, c1: Seq<(usize, Transversal)>, c2: Seq<(usize, Transversal)>, i: int)
    requires
        c1.len() == c2.len(),
        0 <= i < c1.len(),
        forall|l: int| 0 <= l < c1.len() ==> (#[trigger] c1[l]).1@.len() == n && c2[l].1@.len() == n,
        forall|l: int| 0 <= l < c1.len() ==> dom((#[trigger] c1[l]).1@).subset_of(dom(c2[l].1@)),
        dom(c1[i].1@) != dom(c2[i].1@),
    ensures
        deficit(n, c2) < deficit(n, c1),
    decreases c1.len(),
{
    lemma_dom_bound(c1[0].1@, n);
    lemma_dom_bound(c2[0].1@, n);
    lemma_len_subset(dom(c1[0].1@), dom(c2[0].1@));
    let t1 = c1.drop_first();
    let t2 = c2.drop_first();
    assert forall|l: int| 0 <= l < t1.len() implies (#[trigger] t1[l]).1@.len() == n && t2[l].1@.len() == n by {
        assert(t1[l] == c1[l + 1]);
        assert(t2[l] == c2[l + 1]);
    }
    assert forall|l: int| 0 <= l < t1.len() implies dom((#[trigger] t1[l]).1@).subset_of(dom(t2[l].1@)) by {
        assert(t1[l] == c1[l + 1]);
        assert(t2[l] == c2[l + 1]);
    }
    if i == 0 {
        if !(exists|x: int| dom(c2[0].1@).contains(x) && !dom(c1[0].1@).contains(x)) {
            assert(dom(c1[0].1@) =~= dom(c2[0].1@));
        }
        let x = choose|x: int| dom(c2[0].1@).contains(x) && !dom(c1[0].1@).contains(x);
        assert(dom(c1[0].1@).subset_of(dom(c2[0].1@).remove(x)));
        lemma_len_subset(dom(c1[0].1@), dom(c2[0].1@).remove(x));
        lemma_deficit_le(n, t1, t2);
    } else {
        assert(t1[i - 1] == c1[i]);
        assert(t2[i - 1] == c2[i]);
        lemma_deficit_decreases(n, t1, t2, i - 1);
    }
}

proof fn lemma_deficit_le(n: nat, c1: Seq<(usize, Transversal)>, c2: Seq<(usize, Transversal)>)
    requires
        c1.len() == c2.len(),
        forall|l: int| 0 <= l < c1.len() ==> (#[trigger] c1[l]).1@.len() == n && c2[l].1@.len() == n,
        forall|l: int| 0 <= l < c1.len() ==> dom((#[trigger] c1[l]).1@).subset_of(dom(c2[l].1@)),
    ensures
        deficit(n, c2) <= deficit(n, c1),
    decreases c1.len(),
{
    if c1.len() > 0 {
        lemma_dom_bound(c1[0].1@, n);
        lemma_dom_bound(c2[0].1@, n);
        lemma_len_subset(dom(c1[0].1@), dom(c2[0].1@));
        let t1 = c1.drop_first();
        let t2 = c2.drop_first();
        assert forall|l: int| 0 <= l < t1.len() implies (#[trigger] t1[l]).1@.len() == n && t2[l].1@.len() == n by {
            assert(t1[l] == c1[l + 1]);
            assert(t2[l] == c2[l + 1]);
        }
        assert forall|l: int| 0 <= l < t1.len() implies dom((#[trigger] t1[l]).1@).subset_of(dom(t2[l].1@)) by {
            assert(t1[l] == c1[l + 1]);
            assert(t2[l] == c2[l + 1]);
        }
        lemma_deficit_le(n, t1, t2);
    }
}

proof fn lemma_base_set_bound(chain: Seq<(usize, Transversal)>, n: nat)
    requires
        forall|i: int| 0 <= i < chain.len() ==> (#[trigger] chain[i].0 as int) < n,
    ensures
        base_set(chain).finite(),
        base_set(chain).len() <= n,
{
    lemma_int_range(0, n as int);
    assert(base_set(chain).subset_of(set_int_range(0, n as int)));
    lemma_len_subset(base_set(chain), set_int_range(0, n as int));
}

/// `cur` holds exactly the elements of `s` (up to copies) that fix the base
/// points of the first `i` levels.
proof fn lemma_same_bases(s: Seq<Perm>, c1: Seq<(usize, Transversal)>, c2: Seq<(usize, Transversal)>)
    requires
        c1.len() == c2.len(),
        forall|i: int| 0 <= i < c1.len() ==> (#[trigger] c1[i]).0 == c2[i].0,
        forall|j: int|
            0 <= j < c2.len() ==> level_orbit(dom(#[trigger] c2[j].1@), c2[j].0 as int, s, c1, j),
    ensures
        levels_are_orbits(s, c2),
{
    reveal(level_orbit);
    assert forall|j: int| 0 <= j < c2.len() implies level_orbit(dom(#[trigger] c2[j].1@), c2[j].0 as int, s, c2, j) by {
        assert forall|k: int| 0 <= k < s.len() implies fixes_bases(s[k]@, c2, j) == fixes_bases(s[k]@, c1, j) by {
            assert forall|jj: int| 0 <= jj < j implies c2[jj].0 == c1[jj].0 by {}
        }
        assert forall|xs: Set<int>| closed_at(xs, s, c2, j) == closed_at(xs, s, c1, j) by {}
    }
}

proof fn lemma_base_set_same(c1: Seq<(usize, Transversal)>, c2: Seq<(usize, Transversal)>)
    requires
        c1.len() == c2.len(),
        forall|i: int| 0 <= i < c1.len() ==> (#[trigger] c1[i]).0 == c2[i].0,
    ensures
        base_set(c1) == base_set(c2),
{
    assert forall|x: int| base_set(c1).contains(x) implies base_set(c2).contains(x) by {
        let i = choose|i: int| 0 <= i < c1.len() && c1[i].0 as int == x;
        assert(c2[i].0 as int == x);
    }
    assert forall|x: int| base_set(c2).contains(x) implies base_set(c1).contains(x) by {
        let i = choose|i: int| 0 <= i < c2.len() && c2[i].0 as int == x;
        assert(c1[i].0 as int == x);
    }
    assert(base_set(c1) =~= base_set(c2));
}

proof fn lemma_base_set_push(c: Seq<(usize, Transversal)>, l: (usize, Transversal))
    ensures
        base_set(c.push(l)) == base_set(c).insert(l.0 as int),
{
    let c2 = c.push(l);
    assert forall|x: int| base_set(c2).contains(x) implies base_set(c).insert(l.0 as int).contains(x) by {
        let i = choose|i: int| 0 <= i < c2.len() && c2[i].0 as int == x;
        if i < c.len() {
            assert(c[i] == c2[i]);
        }
    }
    assert forall|x: int| base_set(c).insert(l.0 as int).contains(x) implies base_set(c2).contains(x) by {
        if x == l.0 as int {
            assert(c2[c.len() as int] == l);
        } else {
            let i = choose|i: int| 0 <= i < c.len() && c[i].0 as int == x;
            assert(c2[i] == c[i]);
        }
    }
    assert(base_set(c2) =~= base_set(c).insert(l.0 as int));
}

/// With more generators and the same earlier base points, an orbit only
/// grows.
proof fn lemma_orbit_grows(
    d_old: Set<int>,
    d_new: Set<int>,
    v: int,
    s_old: Seq<Perm>,
    s_new: Seq<Perm>,
    c_old: Seq<(usize, Transversal)>,
    c_new: Seq<(usize, Transversal)>,
    l: int,
)
    requires
        level_orbit(d_old, v, s_old, c_old, l),
        level_orbit(d_new, v, s_new, c_new, l),
        s_old.len() <= s_new.len(),
        forall|k: int| 0 <= k < s_old.len() ==> s_new[k] == s_old[k],
        0 <= l <= c_old.len(),
        l <= c_new.len(),
        forall|j: int| 0 <= j < l ==> (#[trigger] c_old[j]).0 == c_new[j].0,
    ensures
        d_old.subset_of(d_new),
{
    reveal(level_orbit);
    assert forall|x: int, k: int| #![trigger d_new.contains(x), s_old[k]]
        d_new.contains(x) && 0 <= k < s_old.len() && fixes_bases(s_old[k]@, c_old, l) implies d_new.contains(
        s_old[k]@[x] as int,
    ) by {
        assert(s_new[k] == s_old[k]);
        let p = s_old[k]@;
        assert forall|j: int| 0 <= j < l implies p[#[trigger] c_new[j].0 as int] == c_new[j].0 by {
            assert(c_old[j].0 == c_new[j].0);
            assert(p[c_old[j].0 as int] == c_old[j].0);
        }
        assert(fixes_bases(s_new[k]@, c_new, l));
    }
    assert(closed_at(d_new, s_old, c_old, l));
}

/// An orbit holds the image of its point under any generator fixing the
/// earlier base points.
proof fn lemma_orbit_gains(d: Set<int>, v: int, s: Seq<Perm>, c: Seq<(usize, Transversal)>, l: int, k: int)
    requires
        level_orbit(d, v, s, c, l),
        0 <= k < s.len(),
        fixes_bases(s[k]@, c, l),
    ensures
        d.contains(s[k]@[v] as int),
        d.contains(v),
{
    reveal(level_orbit);
    assert(d.contains(v));
}

/// `cur` holds exactly the elements of `s` that fix the base points of the
/// first `i` levels: `src` tells where each came from, `dst` where each such
/// element of `s` went.
spec fn narrowed(
    cur: Seq<Perm>,
    s: Seq<Perm>,
    chain: Seq<(usize, Transversal)>,
    i: int,
    src: Seq<int>,
    dst: Seq<int>,
) -> bool {
    &&& src.len() == cur.len()
    &&& forall|a: int|
        0 <= a < cur.len() ==> 0 <= #[trigger] src[a] < s.len() && cur[a]@ == s[src[a]]@
            && fixes_bases(cur[a]@, chain, i)
    &&& dst.len() == s.len()
    &&& forall|k: int|
        0 <= k < s.len() && fixes_bases((#[trigger] s[k])@, chain, i) ==> 0 <= dst[k] < cur.len()
            && cur[dst[k]]@ == s[k]@
}

proof fn lemma_level_orbit_from(
    d: Set<int>,
    beta: int,
    cur: Seq<Perm>,
    s: Seq<Perm>,
    chain: Seq<(usize, Transversal)>,
    i: int,
    src: Seq<int>,
    dst: Seq<int>,
)
    requires
        is_orbit(d, beta, cur),
        narrowed(cur, s, chain, i, src, dst),
    ensures
        level_orbit(d, beta, s, chain, i),
{
    reveal(level_orbit);
    assert forall|xs: Set<int>| closed_at(xs, s, chain, i) implies closed_under(xs, cur) by {
        assert forall|x: int, a: int| #![trigger xs.contains(x), cur[a]]
            xs.contains(x) && 0 <= a < cur.len() implies xs.contains(cur[a]@[x] as int) by {
            let k = src[a];
            assert(s[k]@ == cur[a]@);
        }
    }
    assert forall|xs: Set<int>| closed_under(xs, cur) implies closed_at(xs, s, chain, i) by {
        assert forall|x: int, k: int| #![trigger xs.contains(x), s[k]]
            xs.contains(x) && 0 <= k < s.len() && fixes_bases(s[k]@, chain, i) implies xs.contains(
            s[k]@[x] as int,
        ) by {
            let a = dst[k];
            assert(cur[a]@ == s[k]@);
        }
    }
    assert forall|xs: Set<int>| #[trigger] closed_at(xs, s, chain, i) && xs.contains(beta) implies d.subset_of(xs) by {
        assert(closed_under(xs, cur));
        assert(closed_from(xs, beta, cur));
    }
}

proof fn lemma_narrowed_gens(
    cur: Seq<Perm>,
    s: Seq<Perm>,
    chain: Seq<(usize, Transversal)>,
    i: int,
    src: Seq<int>,
    dst: Seq<int>,
)
    requires
        narrowed(cur, s, chain, i, src, dst),
    ensures
        gen_set(cur) == level_gens(s, chain, i),
{
    assert forall|p: Seq<usize>| gen_set(cur).contains(p) implies level_gens(s, chain, i).contains(p) by {
        let a = choose|a: int| 0 <= a < cur.len() && cur[a]@ == p;
        assert(0 <= src[a] < s.len());
    }
    assert forall|p: Seq<usize>| level_gens(s, chain, i).contains(p) implies gen_set(cur).contains(p) by {
        let k = choose|k: int| 0 <= k < s.len() && s[k]@ == p && fixes_bases(p, chain, i);
        assert(cur[dst[k]]@ == s[k]@);
    }
    assert(gen_set(cur) =~= level_gens(s, chain, i));
}

proof fn lemma_level_gens_same_bases(s: Seq<Perm>, c1: Seq<(usize, Transversal)>, c2: Seq<(usize, Transversal)>, i: int)
    requires
        0 <= i <= c1.len(),
        c1.len() == c2.len(),
        forall|j: int| 0 <= j < c1.len() ==> (#[trigger] c1[j]).0 == c2[j].0,
    ensures
        level_gens(s, c1, i) == level_gens(s, c2, i),
{
    assert forall|p: Seq<usize>| fixes_bases(p, c1, i) == fixes_bases(p, c2, i) by {
        assert forall|j: int| 0 <= j < i implies c1[j].0 == c2[j].0 by {}
    }
    assert(level_gens(s, c1, i) =~= level_gens(s, c2, i));
}

/// Recomputes every level's transversal from the generating set, narrowing
/// it level by level to the generators that fix the base points before.
fn recompute(n: usize, chain: &Vec<(usize, Transversal)>, s: &[Perm]) -> (r: Vec<(usize, Transversal)>)
    requires
        forall|i: int| 0 <= i < chain@.len() ==> (#[trigger] chain@[i].0 as int) < n,
        perms_of(s@, n as nat),
    ensures
        r@.len() == chain@.len(),
        forall|i: int| 0 <= i < chain@.len() ==> (#[trigger] r@[i]).0 == chain@[i].0,
        chain_wf(n as nat, r@),
        levels_are_orbits(s@, r@),
        chain_in(r@, s@, n as nat),
        chain_fits(r@, s@, n as nat),
        bases_have_identity(r@, n as nat),
{
    let mut r: Vec<(usize, Transversal)> = Vec::new();
    let mut cur: Vec<Perm> = copy_all(s);
    let ghost mut src: Seq<int> = Seq::new(s@.len(), |k: int| k);
    let ghost mut dst: Seq<int> = Seq::new(s@.len(), |k: int| k);
    let mut i: usize = 0;
    proof {
        assert forall|k: int| 0 <= k < s@.len() implies fixes_bases((#[trigger] cur@[k])@, chain@, 0) by {}
    }
    while i < chain.len()
        invariant
            i <= chain@.len(),
            r@.len() == i,
            forall|j: int| 0 <= j < chain@.len() ==> (#[trigger] chain@[j].0 as int) < n,
            forall|j: int| 0 <= j < i ==> (#[trigger] r@[j]).0 == chain@[j].0,
            perms_of(s@, n as nat),
            perms_of(cur@, n as nat),
            narrowed(cur@, s@, chain@, i as int, src, dst),
            chain_wf(n as nat, r@),
            chain_in(r@, s@, n as nat),
            bases_have_identity(r@, n as nat),
            forall|l: int, w: int|
                0 <= l < r@.len() && 0 <= w < r@[l].1@.len() && (#[trigger] r@[l].1@[w]) is Some
                    ==> in_span(r@[l].1@[w]->Some_0@, level_gens(s@, chain@, l), n as nat),
            forall|j: int|
                0 <= j < i ==> level_orbit(dom(#[trigger] r@[j].1@), r@[j].0 as int, s@, chain@, j),
        decreases chain@.len() - i,
    {
        let beta = chain[i].0;
        let (ot, _) = orbit_transversal_stabilizer(n, cur.as_slice(), beta);
        let ghost otv = ot@;
        let t = get_transversal(n, ot);
        let ghost r0 = r@;
        proof {
            assert forall|j: int| 0 <= j < r0.len() implies all_fix(cur@, #[trigger] r0[j].0 as int) by {
                assert forall|a: int| 0 <= a < cur@.len() implies #[trigger] cur@[a]@[r0[j].0 as int] as int == r0[j].0 as int by {
                    assert(0 <= src[a] < s@.len());
                    assert(fixes_bases(cur@[a]@, chain@, i as int));
                    assert(r0[j].0 == chain@[j].0);
                }
            }
            assert forall|k: int| 0 <= k < otv.len() implies {
                &&& keeps_fixed((#[trigger] otv[k]).1@, cur@, n as nat)
                &&& otv[k].1@[beta as int] == otv[k].0
            } by {
                assert((otv[k].0 as int) < n);
            }
            lemma_push_level(n as nat, r0, (beta, t), otv, cur@);
            lemma_level_orbit_from(dom(t@), beta as int, cur@, s@, chain@, i as int, src, dst);
            assert forall|a: int| 0 <= a < cur@.len() implies in_group((#[trigger] cur@[a])@, s@, n as nat) by {
                assert(0 <= src[a] < s@.len());
                lemma_group_gen(s@, n as nat, src[a]);
            }
        }
        r.push((beta, t));
        proof {
            assert forall|l: int, w: int|
                0 <= l < r@.len() && 0 <= w < r@[l].1@.len() && (#[trigger] r@[l].1@[w]) is Some
                    implies in_group(r@[l].1@[w]->Some_0@, s@, n as nat) by {
                if l < i {
                    assert(r@[l] == r0[l]);
                } else {
                    let k = choose|k: int| 0 <= k < otv.len() && otv[k].0 as int == w && otv[k].1@ == t@[w]->Some_0@;
                    assert(in_group(otv[k].1@, cur@, n as nat));
                    lemma_group_within(otv[k].1@, cur@, s@, n as nat);
                }
            }
            assert(r@[i as int] == (beta, t));
            assert(ot_points(otv).contains(beta as int)) by {
                assert(otv[0].0 == beta);
            }
            assert(dom(t@).contains(beta as int));
            let kb = choose|kb: int| 0 <= kb < otv.len() && otv[kb].0 as int == beta as int && otv[kb].1@ == t@[beta as int]->Some_0@;
            if kb != 0 {
                assert(otv[kb].0 != otv[0].0);
            }
            assert forall|l: int| 0 <= l < r@.len() implies (#[trigger] r@[l]).1@[r@[l].0 as int] is Some
                && r@[l].1@[r@[l].0 as int]->Some_0@ == id_seq(n as nat) by {
                if l < i {
                    assert(r@[l] == r0[l]);
                }
            }
            assert forall|l: int, w: int|
                0 <= l < r@.len() && 0 <= w < r@[l].1@.len() && (#[trigger] r@[l].1@[w]) is Some
                    implies in_span(r@[l].1@[w]->Some_0@, level_gens(s@, chain@, l), n as nat) by {
                if l < i {
                    assert(r@[l] == r0[l]);
                } else {
                    let k = choose|k: int| 0 <= k < otv.len() && otv[k].0 as int == w && otv[k].1@ == t@[w]->Some_0@;
                    assert(in_group(otv[k].1@, cur@, n as nat));
                    lemma_group_span(otv[k].1@, cur@, n as nat);
                    lemma_narrowed_gens(cur@, s@, chain@, i as int, src, dst);
                }
            }
            assert forall|j: int| 0 <= j < i + 1 implies level_orbit(dom(#[trigger] r@[j].1@), r@[j].0 as int, s@, chain@, j) by {
                if j < i {
                    assert(r@[j] == r0[j]);
                }
            }
        }
        let ghost cur0 = cur@;
        let ghost src0 = src;
        let ghost dst0 = dst;
        let (next, Ghost(fsrc), Ghost(fdst)) = fixing(cur.as_slice(), beta, Ghost(n as nat));
        cur = next;
        proof {
            src = Seq::new(cur@.len(), |a: int| src0[fsrc[a]]);
            dst = Seq::new(s@.len(), |k: int| fdst[dst0[k]]);
            assert forall|a: int| 0 <= a < cur@.len() implies 0 <= #[trigger] src[a] < s@.len()
                && cur@[a]@ == s@[src[a]]@ && fixes_bases(cur@[a]@, chain@, i + 1) by {
                let b = fsrc[a];
                assert(cur@[a]@ == cur0[b]@);
                assert(cur0[b]@ == s@[src0[b]]@);
                let p = cur@[a]@;
                assert(fixes_bases(cur0[b]@, chain@, i as int));
                assert forall|j: int| 0 <= j < i + 1 implies p[#[trigger] chain@[j].0 as int] == chain@[j].0 by {
                    if j < i {
                        assert(cur0[b]@[chain@[j].0 as int] == chain@[j].0);
                    }
                }
            }
            assert forall|k: int| 0 <= k < s@.len() && fixes_bases((#[trigger] s@[k])@, chain@, i + 1) implies 0
                <= dst[k] < cur@.len() && cur@[dst[k]]@ == s@[k]@ by {
                let p = s@[k]@;
                assert forall|j: int| 0 <= j < i implies p[#[trigger] chain@[j].0 as int] == chain@[j].0 by {
                    assert(fixes_bases(p, chain@, i + 1));
                }
                assert(fixes_bases(p, chain@, i as int));
                let b = dst0[k];
                assert(cur0[b]@ == p);
                assert(p[chain@[i as int].0 as int] == chain@[i as int].0);
                assert(cur0[b]@[beta as int] == beta);
            }
        }
        i = i + 1;
    }
    proof {
        lemma_same_bases(s@, chain@, r@);
        assert forall|l: int, w: int|
            0 <= l < r@.len() && 0 <= w < r@[l].1@.len() && (#[trigger] r@[l].1@[w]) is Some
                implies in_span(r@[l].1@[w]->Some_0@, level_gens(s@, r@, l), n as nat) by {
            lemma_level_gens_same_bases(s@, chain@, r@, l);
        }
    }
    r
}

/// Checks whether the chain, with generating set `s`, is a base and strong
/// generating set. Level by level from the deepest: the generators fixing
/// the first base point must pass on the rest of the chain, and every
/// Schreier generator of the first base point must sift to the identity
/// through the rest. On failure returns a witness: the representatives
/// taken and an element that is not the identity, fixes the base points of
/// some first levels and, unless those are all of them, sends the next base
/// point outside that level's orbit.
pub fn schreier_sims(n: usize, beta_transversals: &[(usize, Transversal)], s: &[Perm]) -> (r: Result<
    (),
    (Vec<Perm>, Perm),
>)
    requires
        chain_wf(n as nat, beta_transversals@),
        perms_of(s@, n as nat),
    ensures
        beta_transversals@.len() == 0 ==> (r is Ok <==> s@.len() == 0),
        r is Ok ==> all_move_a_base_point(s@, beta_transversals@),
        r is Ok && chain_fits(beta_transversals@, s@, n as nat) ==> sifts_all(
            beta_transversals@,
            s@,
            n as nat,
        ) && chain_size(beta_transversals@) == group_size(s@, n as nat),
        beta_transversals@.len() == 0 && s@.len() > 0 ==> (r matches Err(w) && w.0@.len() == 0 && w.1@
            == s@[0]@),
        r matches Err(w) ==> {
            &&& is_perm(w.1@)
            &&& w.1@.len() == n
            &&& no_identity(s@, n as nat) ==> w.1@ != id_seq(n as nat)
            &&& witness_ok(beta_transversals@, w.1@)
            &&& forall|x: int|
                0 <= x < n && all_fix(s@, x) && chain_fixes(beta_transversals@, x) ==> #[trigger] w.1@[x] as int == x
            &&& chain_in(beta_transversals@, s@, n as nat) ==> in_group(w.1@, s@, n as nat)
            &&& in_group(comp(w.1@, prod_rev(views(w.0@), n as nat)), s@, n as nat)
        },
{
    proof {
        assert(beta_transversals@.skip(0) =~= beta_transversals@);
        assert forall|i: int| 0 <= i < s@.len() implies in_group((#[trigger] s@[i])@, s@, n as nat) by {
            lemma_group_gen(s@, n as nat, i);
        }
    }
    let r = sims_from(n, beta_transversals, 0, s, Ghost(s@));
    proof {
        let c = beta_transversals@;
        if r is Ok && chain_fits(c, s@, n as nat) {
            assert forall|i: int, w: int|
                0 <= i < c.len() && 0 <= w < c[i].1@.len() && (#[trigger] c[i].1@[w]) is Some
                    implies in_group(c[i].1@[w]->Some_0@, s@, n as nat) by {
                let u = c[i].1@[w]->Some_0@;
                lemma_level_gens_mono(s@, c, 0, i);
                lemma_level_gens_zero(s@, c);
                assert forall|q: Seq<usize>| #[trigger] level_gens(s@, c, i).contains(q) implies in_span(q, gen_set(s@), n as nat) by {
                    lemma_span_elem(q, gen_set(s@), n as nat);
                }
                lemma_span_within(u, level_gens(s@, c, i), gen_set(s@), n as nat);
                lemma_group_span(u, s@, n as nat);
            }
            lemma_order_is_chain_size(n as nat, s@, c, s@);
        }
    }
    r
}

/// A copy of each permutation, in order.
pub fn copy_all(s: &[Perm]) -> (r: Vec<Perm>)
    ensures
        r@.len() == s@.len(),
        forall|i: int| 0 <= i < s@.len() ==> (#[trigger] r@[i])@ == s@[i]@,
{
    let mut r: Vec<Perm> = Vec::new();
    let mut i: usize = 0;
    while i < s.len()
        invariant
            i <= s@.len(),
            r@.len() == i,
            forall|j: int| 0 <= j < i ==> (#[trigger] r@[j])@ == s@[j]@,
        decreases s@.len() - i,
    {
        r.push(s[i].copy());
        i = i + 1;
    }
    r
}

/// What the builder hands back for the generators `gens`: a base and strong
/// generating set, that is a well-formed stabilizer chain through which every
/// element of the group generated by `gens` sifts to the identity, whose
/// every level holds the orbit of its base point
/// under the generators fixing the earlier base points, and a generating set
/// of permutations of degree `n`, none the identity, each moving some base
/// point, holding every generator other than the identity and lying in the
/// group the generators generate (so generating that same group); every
/// representative lies in that group too.
pub open spec fn built(n: nat, gens: Seq<Perm>, chain: Seq<(usize, Transversal)>, s: Seq<Perm>) -> bool {
    &&& chain_wf(n, chain)
    &&& levels_are_orbits(s, chain)
    &&& chain_fits(chain, s, n)
    &&& sifts_all(chain, gens, n)
    &&& bases_have_identity(chain, n)
    &&& distinct_bases(chain)
    &&& chain.len() <= n
    &&& all_move_a_base_point(s, chain)
    &&& chain_in(chain, gens, n)
    &&& perms_of(s, n)
    &&& no_identity(s, n)
    &&& forall|j: int| 0 <= j < s.len() ==> in_group((#[trigger] s[j])@, gens, n)
    &&& forall|k: int|
        0 <= k < gens.len() && (#[trigger] gens[k])@ != id_seq(n) ==> exists|j: int|
            0 <= j < s.len() && s[j]@ == gens[k]@
}

/// The product of the orbit sizes of the levels.
pub open spec fn chain_size(chain: Seq<(usize, Transversal)>) -> int
    decreases chain.len(),
{
    if chain.len() == 0 {
        1
    } else {
        chain_size(chain.drop_last()) * dom(chain.last().1@).len()
    }
}

/// Flags the points used as base points.
fn base_flags(n: usize, chain: &Vec<(usize, Transversal)>) -> (r: Vec<bool>)
    requires
        forall|i: int| 0 <= i < chain@.len() ==> (#[trigger] chain@[i].0 as int) < n,
    ensures
        r@.len() == n,
        forall|x: int|
            0 <= x < n ==> (r@[x] <==> exists|i: int| 0 <= i < chain@.len() && chain@[i].0 as int == x),
{
    let mut r: Vec<bool> = vec![false; n];
    let mut i: usize = 0;
    while i < chain.len()
        invariant
            i <= chain@.len(),
            r@.len() == n,
            forall|j: int| 0 <= j < chain@.len() ==> (#[trigger] chain@[j].0 as int) < n,
            forall|x: int|
                0 <= x < n ==> (r@[x] <==> exists|j: int| 0 <= j < i && chain@[j].0 as int == x),
        decreases chain@.len() - i,
    {
        let b = chain[i].0;
        r.set(b, true);
        proof {
            assert forall|x: int| 0 <= x < n implies (r@[x] <==> exists|j: int|
                0 <= j < i + 1 && chain@[j].0 as int == x) by {
                if x == b as int {
                    assert(chain@[i as int].0 as int == x);
                }
            }
        }
        i = i + 1;
    }
    r
}

/// Builds a base and strong generating set for the group generated by
/// `initial_s`, starting from the base points `initial_beta`. Each round
/// recomputes the transversals and runs `schreier_sims`; on a witness it adds
/// the witness to the generating set and, when the witness moves no base
/// point, a base point picked at random among the points it moves. Stops
/// when the check passes; every other round adds a base point or makes the
/// orbit of some level larger, so it does stop. Generators equal to the
/// identity are left out of the working set.
pub fn incrementally_build_bsgs(
    n: usize,
    initial_beta: &[usize],
    initial_s: &[Perm],
    rnd: &mut ThreadRng,
) -> (r: (Vec<(usize, Transversal)>, Vec<Perm>))
    requires
        forall|i: int| 0 <= i < initial_beta@.len() ==> (#[trigger] initial_beta@[i] as int) < n,
        forall|i: int, j: int|
            0 <= i < initial_beta@.len() && 0 <= j < initial_beta@.len() && i != j ==> #[trigger] initial_beta@[i]
                != #[trigger] initial_beta@[j],
        perms_of(initial_s@, n as nat),
    ensures
        built(n as nat, initial_s@, r.0@, r.1@),
        chain_size(r.0@) == group_size(initial_s@, n as nat),
        forall|l: int| initial_beta@.len() <= l < r.0@.len() ==> dom((#[trigger] r.0@[l]).1@).len() >= 2,
        r.0@.len() >= initial_beta@.len(),
        forall|i: int| 0 <= i < initial_beta@.len() ==> (#[trigger] r.0@[i]).0 == initial_beta@[i],
        initial_beta@.len() == 0 && (forall|k: int|
            0 <= k < initial_s@.len() ==> (#[trigger] initial_s@[k])@ == id_seq(n as nat)) ==> r.0@.len()
            == 0 && r.1@.len() == 0,
{
    let ghost trivial = initial_beta@.len() == 0 && (forall|k: int|
        0 <= k < initial_s@.len() ==> (#[trigger] initial_s@[k])@ == id_seq(n as nat));
    let e = Perm::e(n);
    let mut s: Vec<Perm> = Vec::new();
    let mut k: usize = 0;
    while k < initial_s.len()
        invariant
            k <= initial_s@.len(),
            e@ == id_seq(n as nat),
            perms_of(initial_s@, n as nat),
            perms_of(s@, n as nat),
            no_identity(s@, n as nat),
            forall|j: int| 0 <= j < s@.len() ==> in_group((#[trigger] s@[j])@, initial_s@, n as nat),
            forall|kk: int|
                0 <= kk < k && (#[trigger] initial_s@[kk])@ != id_seq(n as nat) ==> exists|j: int|
                    0 <= j < s@.len() && s@[j]@ == initial_s@[kk]@,
            trivial ==> s@.len() == 0,
            trivial ==> forall|kk: int|
                0 <= kk < initial_s@.len() ==> (#[trigger] initial_s@[kk])@ == id_seq(n as nat),
        decreases initial_s@.len() - k,
    {
        if initial_s[k] != e {
            proof {
                if trivial {
                    assert((initial_s@[k as int])@ == id_seq(n as nat));
                }
            }
            let ghost s0 = s@;
            s.push(initial_s[k].copy());
            proof {
                lemma_group_gen(initial_s@, n as nat, k as int);
                assert forall|j: int| 0 <= j < s@.len() implies in_group((#[trigger] s@[j])@, initial_s@, n as nat) by {
                    if j < s0.len() {
                        assert(s@[j] == s0[j]);
                    }
                }
                assert(s@[s@.len() - 1]@ == initial_s@[k as int]@);
                assert forall|kk: int|
                    0 <= kk < k + 1 && (#[trigger] initial_s@[kk])@ != id_seq(n as nat) implies exists|j: int|
                    0 <= j < s@.len() && s@[j]@ == initial_s@[kk]@ by {
                    if kk < k {
                        let j = choose|j: int| 0 <= j < s0.len() && s0[j]@ == initial_s@[kk]@;
                        assert(s@[j] == s0[j]);
                    }
                }
            }
        }
        k = k + 1;
    }
    let mut chain: Vec<(usize, Transversal)> = Vec::new();
    let mut i: usize = 0;
    proof {
        assert(base_set(chain@) =~= Set::empty());
    }
    while i < initial_beta.len()
        invariant
            i <= initial_beta@.len(),
            chain@.len() == i,
            forall|j: int| 0 <= j < initial_beta@.len() ==> (#[trigger] initial_beta@[j] as int) < n,
            forall|j: int| 0 <= j < i ==> (#[trigger] chain@[j]).0 == initial_beta@[j],
            forall|a: int, b: int|
                0 <= a < initial_beta@.len() && 0 <= b < initial_beta@.len() && a != b ==> #[trigger] initial_beta@[a]
                    != #[trigger] initial_beta@[b],
            distinct_bases(chain@),
            base_set(chain@).finite(),
            base_set(chain@).len() == chain@.len(),
        decreases initial_beta@.len() - i,
    {
        let ghost c0 = chain@;
        proof {
            if base_set(c0).contains(initial_beta@[i as int] as int) {
                let j = choose|j: int| 0 <= j < c0.len() && c0[j].0 as int == initial_beta@[i as int] as int;
            }
        }
        chain.push((initial_beta[i], Vec::new()));
        proof {
            let l = chain@[i as int];
            assert(chain@ == c0.push(l));
            lemma_base_set_push(c0, l);
            assert forall|a: int, b: int| 0 <= a < chain@.len() && 0 <= b < chain@.len() && a != b implies #[trigger] chain@[a].0
                != #[trigger] chain@[b].0 by {
                if a < i && b < i {
                    assert(chain@[a] == c0[a]);
                    assert(chain@[b] == c0[b]);
                }
            }
        }
        i = i + 1;
    }
    let ghost cb = chain@;
    chain = recompute(n, &chain, s.as_slice());
    proof {
        lemma_base_set_same(chain@, cb);
        assert forall|a: int, b: int| 0 <= a < chain@.len() && 0 <= b < chain@.len() && a != b implies #[trigger] chain@[a].0
            != #[trigger] chain@[b].0 by {
            assert(chain@[a].0 == cb[a].0);
            assert(chain@[b].0 == cb[b].0);
        }
    }
    let mut used = base_flags(n, &chain);
    loop
        invariant
            chain_wf(n as nat, chain@),
            levels_are_orbits(s@, chain@),
            chain_in(chain@, s@, n as nat),
            chain_fits(chain@, s@, n as nat),
            bases_have_identity(chain@, n as nat),
            distinct_bases(chain@),
            base_set(chain@).finite(),
            base_set(chain@).len() == chain@.len(),
            forall|l: int| initial_beta@.len() <= l < chain@.len() ==> dom((#[trigger] chain@[l]).1@).len() >= 2,
            forall|j: int| 0 <= j < s@.len() ==> in_group((#[trigger] s@[j])@, initial_s@, n as nat),
            perms_of(s@, n as nat),
            no_identity(s@, n as nat),
            used@.len() == n,
            forall|x: int| 0 <= x < n ==> (used@[x] <==> base_set(chain@).contains(x)),
            chain@.len() >= initial_beta@.len(),
            forall|j: int| 0 <= j < initial_beta@.len() ==> (#[trigger] chain@[j]).0 == initial_beta@[j],
            forall|kk: int|
                0 <= kk < initial_s@.len() && (#[trigger] initial_s@[kk])@ != id_seq(n as nat) ==> exists|j: int|
                    0 <= j < s@.len() && s@[j]@ == initial_s@[kk]@,
            trivial ==> chain@.len() == 0 && s@.len() == 0,
        ensures
            all_move_a_base_point(s@, chain@),
            sifts_all(chain@, s@, n as nat),
        decreases n - base_set(chain@).len(), deficit(n as nat, chain@),
    {
        match schreier_sims(n, chain.as_slice(), s.as_slice()) {
            Ok(()) => {
                break;
            },
            Err((_, h)) => {
                let ghost c0 = chain@;
                let ghost s0 = s@;
                let ghost hv = h@;
                proof {
                    lemma_base_set_bound(c0, n as nat);
                    lemma_deficit_nonneg(n as nat, c0);
                }
                let mut moved: Vec<usize> = Vec::new();
                let mut hit = false;
                let mut x: usize = 0;
                while x < n && !hit
                    invariant
                        x <= n,
                        used@.len() == n,
                        h@ == hv,
                        hv.len() == n,
                        forall|j: int|
                            0 <= j < moved@.len() ==> (#[trigger] moved@[j] as int) < n && hv[moved@[j] as int]
                                != moved@[j] && !used@[moved@[j] as int],
                        hit ==> exists|y: int| 0 <= y < n && hv[y] as int != y && used@[y],
                        !hit ==> forall|y: int| 0 <= y < x && used@[y] ==> hv[y] as int == y,
                        !hit && moved@.len() == 0 ==> forall|y: int| 0 <= y < x ==> hv[y] as int == y,
                    decreases n - x,
                {
                    if h.at(x) != x {
                        if used[x] {
                            hit = true;
                        } else {
                            moved.push(x);
                        }
                    }
                    x = x + 1;
                }
                s.push(h);
                proof {
                    lemma_group_within(hv, s0, initial_s@, n as nat);
                    assert forall|j: int| 0 <= j < s@.len() implies in_group((#[trigger] s@[j])@, initial_s@, n as nat) by {
                        if j < s0.len() {
                            assert(s@[j] == s0[j]);
                        }
                    }
                    assert forall|kk: int|
                        0 <= kk < initial_s@.len() && (#[trigger] initial_s@[kk])@ != id_seq(n as nat) implies exists|j: int|
                        0 <= j < s@.len() && s@[j]@ == initial_s@[kk]@ by {
                        let j = choose|j: int| 0 <= j < s0.len() && s0[j]@ == initial_s@[kk]@;
                        assert(s@[j] == s0[j]);
                    }
                    assert forall|j: int| 0 <= j < s@.len() implies is_perm(#[trigger] s@[j]@) && s@[j]@.len() == n by {
                        if j < s0.len() {
                            assert(s@[j] == s0[j]);
                        }
                    }
                    assert forall|j: int| 0 <= j < s@.len() implies (#[trigger] s@[j])@ != id_seq(n as nat) by {
                        if j < s0.len() {
                            assert(s@[j] == s0[j]);
                        }
                    }
                }
                let pushed = !hit && moved.len() > 0;
                let ghost used0 = used@;
                let ghost mut pt: int = 0;
                if pushed {
                    let idx = random_index(rnd, moved.len());
                    chain.push((moved[idx], Vec::new()));
                    proof {
                        pt = moved@[idx as int] as int;
                        assert(!used0[pt]);
                    }
                }
                let ghost c1 = chain@;
                chain = recompute(n, &chain, s.as_slice());
                used = base_flags(n, &chain);
                proof {
                    lemma_base_set_bound(chain@, n as nat);
                    lemma_deficit_nonneg(n as nat, chain@);
                    lemma_base_set_same(chain@, c1);
                    if pushed {
                        let l = c1[c1.len() - 1];
                        assert(c1 == c0.push(l));
                        assert(l.0 as int == pt);
                        lemma_base_set_push(c0, l);
                        assert(!base_set(c0).contains(l.0 as int));
                        let c2 = chain@;
                        let big = c0.len() as int;
                        assert forall|q: int| initial_beta@.len() <= q < c2.len() implies dom((#[trigger] c2[q]).1@).len() >= 2 by {
                            lemma_dom_bound(c2[q].1@, n as nat);
                            if q < big {
                                assert(c1[q] == c0[q]);
                                assert forall|j: int| 0 <= j < q implies (#[trigger] c0[j]).0 == c2[j].0 by {
                                    assert(c1[j] == c0[j]);
                                }
                                assert(level_orbit(dom(c0[q].1@), c0[q].0 as int, s0, c0, q));
                                assert(level_orbit(dom(c2[q].1@), c2[q].0 as int, s@, c2, q));
                                lemma_orbit_grows(dom(c0[q].1@), dom(c2[q].1@), c0[q].0 as int, s0, s@, c0, c2, q);
                                lemma_dom_bound(c0[q].1@, n as nat);
                                lemma_len_subset(dom(c0[q].1@), dom(c2[q].1@));
                                assert(dom(c0[q].1@).len() >= 2);
                                assert(dom(c0[q].1@).len() <= dom(c2[q].1@).len());
                            } else {
                                let p = c2[q].0 as int;
                                assert(p == pt);
                                let last = s@.len() - 1;
                                assert(s@[last]@ == hv);
                                assert forall|j: int| 0 <= j < q implies hv[#[trigger] c2[j].0 as int] == c2[j].0 by {
                                    assert(c1[j] == c0[j]);
                                    assert(base_set(c0).contains(c0[j].0 as int));
                                    assert(used0[c0[j].0 as int]);
                                }
                                assert(level_orbit(dom(c2[q].1@), p, s@, c2, q));
                                lemma_orbit_gains(dom(c2[q].1@), p, s@, c2, q, last);
                                assert(hv[p] as int != p);
                                let two = Set::empty().insert(p).insert(hv[p] as int);
                                assert(two.subset_of(dom(c2[q].1@)));
                                assert(two.len() == 2);
                                lemma_len_subset(two, dom(c2[q].1@));
                                assert(dom(c2[q].1@).len() >= 2);
                            }
                        }
                        assert forall|a: int, b: int| 0 <= a < chain@.len() && 0 <= b < chain@.len() && a != b implies #[trigger] chain@[a].0
                            != #[trigger] chain@[b].0 by {
                            assert(chain@[a].0 == c1[a].0);
                            assert(chain@[b].0 == c1[b].0);
                            if a < c0.len() && b < c0.len() {
                                assert(c1[a] == c0[a]);
                                assert(c1[b] == c0[b]);
                            } else if a < c0.len() {
                                assert(c1[a] == c0[a]);
                                assert(base_set(c0).contains(c0[a].0 as int));
                            } else {
                                assert(c1[b] == c0[b]);
                                assert(base_set(c0).contains(c0[b].0 as int));
                            }
                        }
                    } else {
                        assert(c1 == c0);
                        assert forall|a: int, b: int| 0 <= a < chain@.len() && 0 <= b < chain@.len() && a != b implies #[trigger] chain@[a].0
                            != #[trigger] chain@[b].0 by {
                            assert(chain@[a].0 == c1[a].0);
                            assert(chain@[b].0 == c1[b].0);
                        }
                        if !hit {
                            assert(hv =~= id_seq(n as nat));
                        }
                        let y = choose|y: int| 0 <= y < n && hv[y] as int != y && used@[y];
                        let jy = choose|jy: int| 0 <= jy < c0.len() && c0[jy].0 as int == y;
                        let i = choose|i: int|
                            0 <= i <= c0.len() && #[trigger] fixes_bases(hv, c0, i) && (i < c0.len()
                                ==> c0[i].1@[hv[c0[i].0 as int] as int] is None);
                        if i == c0.len() {
                            assert(hv[c0[jy].0 as int] == c0[jy].0);
                        }
                        assert(i < c0.len());
                        let c2 = chain@;
                        assert forall|l: int| 0 <= l < c0.len() implies dom((#[trigger] c0[l]).1@).subset_of(dom(c2[l].1@)) by {
                            assert(level_orbit(dom(c0[l].1@), c0[l].0 as int, s0, c0, l));
                            assert(level_orbit(dom(c2[l].1@), c2[l].0 as int, s@, c2, l));
                            lemma_orbit_grows(dom(c0[l].1@), dom(c2[l].1@), c0[l].0 as int, s0, s@, c0, c2, l);
                        }
                        let bi = c0[i].0 as int;
                        let last = s@.len() - 1;
                        assert(s@[last]@ == hv);
                        assert forall|j: int| 0 <= j < i implies hv[#[trigger] c2[j].0 as int] == c2[j].0 by {
                            assert(hv[c0[j].0 as int] == c0[j].0);
                        }
                        assert(level_orbit(dom(c2[i].1@), c2[i].0 as int, s@, c2, i));
                        lemma_orbit_gains(dom(c2[i].1@), bi, s@, c2, i, last);
                        assert(dom(c2[i].1@).contains(hv[bi] as int));
                        assert(!dom(c0[i].1@).contains(hv[bi] as int));
                        assert forall|l: int| 0 <= l < c0.len() implies (#[trigger] c0[l]).1@.len() == n && c2[l].1@.len() == n by {}
                        lemma_deficit_decreases(n as nat, c0, c2, i);
                        assert forall|q: int| initial_beta@.len() <= q < c2.len() implies dom((#[trigger] c2[q]).1@).len() >= 2 by {
                            lemma_dom_bound(c2[q].1@, n as nat);
                            lemma_dom_bound(c0[q].1@, n as nat);
                            assert(dom(c0[q].1@).subset_of(dom(c2[q].1@)));
                            lemma_len_subset(dom(c0[q].1@), dom(c2[q].1@));
                            assert(dom(c0[q].1@).len() >= 2);
                        }
                    }
                }
            },
        }
    }
    proof {
        assert forall|l: int, w: int|
            0 <= l < chain@.len() && 0 <= w < chain@[l].1@.len() && (#[trigger] chain@[l].1@[w]) is Some
                implies in_group(chain@[l].1@[w]->Some_0@, initial_s@, n as nat) by {
            lemma_group_within(chain@[l].1@[w]->Some_0@, s@, initial_s@, n as nat);
        }
        assert forall|g: Seq<usize>| #[trigger] in_group(g, initial_s@, n as nat) && is_perm(g) && g.len() == n
            implies sift(g, chain@).1 == id_seq(n as nat) by {
            assert forall|k: int| 0 <= k < initial_s@.len() implies in_group((#[trigger] initial_s@[k])@, s@, n as nat) by {
                if initial_s@[k]@ == id_seq(n as nat) {
                    lemma_group_id(s@, n as nat);
                } else {
                    let j = choose|j: int| 0 <= j < s@.len() && s@[j]@ == initial_s@[k]@;
                    lemma_group_gen(s@, n as nat, j);
                }
            }
            lemma_group_within(g, initial_s@, s@, n as nat);
        }
        lemma_order_is_chain_size(n as nat, initial_s@, chain@, s@);
        lemma_base_set_bound(chain@, n as nat);
    }
    (chain, s)
}

/// The number of points at which the transversal holds a representative.
pub fn orbit_size(t: &Transversal) -> (r: usize)
    ensures
        r == dom(t@).len(),
        dom(t@).finite(),
{
    let mut c: usize = 0;
    let mut i: usize = 0;
    let ghost mut seen: Set<int> = Set::empty();
    while i < t.len()
        invariant
            i <= t@.len(),
            seen == Set::new(|w: int| 0 <= w < i && t@[w] is Some),
            seen.finite(),
            c == seen.len(),
            c <= i,
        decreases t@.len() - i,
    {
        if t[i].is_some() {
            proof {
                assert(!seen.contains(i as int));
                seen = seen.insert(i as int);
            }
            c = c + 1;
        }
        i = i + 1;
        proof {
            assert(seen =~= Set::new(|w: int| 0 <= w < i && t@[w] is Some));
        }
    }
    proof {
        assert(seen =~= dom(t@));
    }
    c
}

/// The product of the orbit sizes of the levels, as an exact integer.
pub fn chain_order(beta_transversals: &[(usize, Transversal)]) -> (r: BigInt)
    ensures
        r == big_of(chain_size(beta_transversals@)),
{
    let mut acc = big_from_u64(1);
    let mut i: usize = 0;
    proof {
        assert(beta_transversals@.subrange(0, 0) =~= Seq::<(usize, Transversal)>::empty());
    }
    while i < beta_transversals.len()
        invariant
            i <= beta_transversals@.len(),
            acc == big_of(chain_size(beta_transversals@.subrange(0, i as int))),
        decreases beta_transversals@.len() - i,
    {
        let u = orbit_size(&beta_transversals[i].1);
        let ghost before = chain_size(beta_transversals@.subrange(0, i as int));
        acc = big_mul_u64(acc, u as u64);
        proof {
            let c1 = beta_transversals@.subrange(0, i + 1);
            assert(c1.drop_last() =~= beta_transversals@.subrange(0, i as int));
            assert(c1.last() == beta_transversals@[i as int]);
            assert(u as u64 as int == u as int);
        }
        i = i + 1;
    }
    proof {
        assert(beta_transversals@.subrange(0, i as int) =~= beta_transversals@);
    }
    acc
}

/// The order of the group generated by `gen`, computed as the product of the
/// orbit sizes of a base and strong generating set built from no initial
/// base point.
pub fn order(n: usize, gen: &[Perm]) -> (r: BigInt)
    requires
        perms_of(gen@, n as nat),
    ensures
        r == big_of(group_size(gen@, n as nat)),
        exists|c: Seq<(usize, Transversal)>, s: Seq<Perm>|
            #[trigger] built(n as nat, gen@, c, s) && r == big_of(chain_size(c)),
        (forall|k: int| 0 <= k < gen@.len() ==> (#[trigger] gen@[k])@ == id_seq(n as nat)) ==> r
            == big_of(1),
{
    let mut rnd = new_rng();
    let no_points: Vec<usize> = Vec::new();
    let (beta_transversals, s) = incrementally_build_bsgs(n, no_points.as_slice(), gen, &mut rnd);
    let r = chain_order(beta_transversals.as_slice());
    proof {
        if forall|k: int| 0 <= k < gen@.len() ==> (#[trigger] gen@[k])@ == id_seq(n as nat) {
            assert(beta_transversals@.len() == 0);
            assert(chain_size(beta_transversals@) == 1);
        }
        assert(built(n as nat, gen@, beta_transversals@, s@) && r == big_of(chain_size(beta_transversals@)));
    }
    r
}

} // verus!
