//! Counting a group through a base and strong generating set: its elements
//! match the choices of one orbit point per level, so the order of the group
//! is the product of the orbit sizes.
use crate::group::{
    gen_set, in_group, in_span, lemma_group_comp, lemma_group_id, lemma_group_span, lemma_group_within,
    lemma_span_id,
};
use crate::perm::{
    comp, id_seq, inv_seq, is_perm, lemma_comp_assoc, lemma_comp_id, lemma_comp_inv, lemma_comp_perm,
    lemma_inv_props, Perm,
};
use crate::schreier::{built, chain_size, level_orbit, levels_are_orbits, lemma_dom_bound, sifts_all};
use crate::transversal::{chain_fixes, chain_in, chain_wf, dom, lemma_wf_tail, sift, Transversal};
use vstd::prelude::*;
use vstd::set_lib::{lemma_map_size, lemma_set_disjoint_lens};

verus! {

/// The permutations of degree `n` in the group generated by `gens`.
pub open spec fn group_set(gens: Seq<Perm>, n: nat) -> Set<Seq<usize>> {
    Set::new(|g: Seq<usize>| is_perm(g) && g.len() == n && in_group(g, gens, n))
}

/// The order of the group generated by `gens`.
pub open spec fn group_size(gens: Seq<Perm>, n: nat) -> int {
    group_set(gens, n).len() as int
}

/// The choices of one orbit point at each level.
pub open spec fn tuples(c: Seq<(usize, Transversal)>) -> Set<Seq<int>> {
    Set::new(|ws: Seq<int>| ws.len() == c.len() && forall|i: int| 0 <= i < c.len() ==> dom(c[i].1@).contains(#[trigger] ws[i]))
}

/// The element with those choices: the representatives applied from the last
/// level to the first.
pub open spec fn build(ws: Seq<int>, c: Seq<(usize, Transversal)>, n: nat) -> Seq<usize>
    decreases c.len(),
{
    if c.len() == 0 {
        id_seq(n)
    } else {
        comp(build(ws.drop_first(), c.drop_first(), n), c[0].1@[ws[0]]->Some_0@)
    }
}

/// `x` followed by every sequence of `a`, for `x` in `d`.
spec fn prepend_all(d: Set<int>, a: Set<Seq<int>>) -> Set<Seq<int>> {
    Set::new(|ws: Seq<int>| ws.len() > 0 && d.contains(ws[0]) && a.contains(ws.drop_first()))
}

proof fn lemma_prepend_card(d: Set<int>, a: Set<Seq<int>>)
    requires
        d.finite(),
        a.finite(),
    ensures
        prepend_all(d, a).finite(),
        prepend_all(d, a).len() == d.len() * a.len(),
    decreases d.len(),
{
    if d.len() == 0 {
        assert(d =~= Set::empty());
        assert(prepend_all(d, a) =~= Set::empty());
    } else {
        let x = d.choose();
        let d1 = d.remove(x);
        lemma_prepend_card(d1, a);
        let f = |ws: Seq<int>| seq![x] + ws;
        let b = a.map(f);
        assert(vstd::relations::injective_on(f, a)) by {
            assert forall|u: Seq<int>, v: Seq<int>| a.contains(u) && a.contains(v) && #[trigger] f(u) == #[trigger] f(v) implies u == v by {
                assert(u =~= f(u).drop_first());
                assert(v =~= f(v).drop_first());
            }
        }
        lemma_map_size(a, b, f);
        assert(prepend_all(d, a) =~= prepend_all(d1, a) + b) by {
            assert forall|ws: Seq<int>| prepend_all(d, a).contains(ws) implies (prepend_all(d1, a) + b).contains(ws) by {
                if ws[0] == x {
                    assert(ws =~= f(ws.drop_first()));
                }
            }
            assert forall|ws: Seq<int>| b.contains(ws) implies prepend_all(d, a).contains(ws) by {
                let u = choose|u: Seq<int>| a.contains(u) && f(u) == ws;
                assert(ws.drop_first() =~= u);
            }
        }
        assert(prepend_all(d1, a).disjoint(b)) by {
            assert forall|ws: Seq<int>| prepend_all(d1, a).contains(ws) implies !b.contains(ws) by {
                if b.contains(ws) {
                    let u = choose|u: Seq<int>| a.contains(u) && f(u) == ws;
                    assert(ws[0] == x);
                }
            }
        }
        lemma_set_disjoint_lens(prepend_all(d1, a), b);
        assert(d.len() * a.len() == d1.len() * a.len() + a.len()) by (nonlinear_arith)
            requires
                d.len() == d1.len() + 1,
        ;
    }
}

proof fn lemma_chain_size_front(c: Seq<(usize, Transversal)>)
    requires
        c.len() > 0,
    ensures
        chain_size(c) == dom(c[0].1@).len() * chain_size(c.drop_first()),
    decreases c.len(),
{
    if c.len() == 1 {
        assert(c.drop_last().len() == 0);
        assert(c.drop_first().len() == 0);
        assert(c.last() == c[0]);
        assert(chain_size(c) == chain_size(c.drop_last()) * dom(c.last().1@).len());
        assert(chain_size(c.drop_first()) == 1);
    } else {
        let c1 = c.drop_last();
        lemma_chain_size_front(c1);
        assert(c1.drop_first() =~= c.drop_first().drop_last());
        assert(c1[0] == c[0]);
        assert(c.drop_first().last() == c.last());
        let a = dom(c[0].1@).len() as int;
        let b = chain_size(c.drop_first().drop_last());
        let l = dom(c.last().1@).len() as int;
        assert(chain_size(c) == chain_size(c1) * l);
        assert(chain_size(c1) == a * chain_size(c1.drop_first()));
        assert(chain_size(c1.drop_first()) == b);
        assert(chain_size(c.drop_first()) == b * l);
        assert((a * b) * l == a * (b * l)) by (nonlinear_arith);
    }
}

proof fn lemma_tuples_card(c: Seq<(usize, Transversal)>, n: nat)
    requires
        forall|i: int| 0 <= i < c.len() ==> (#[trigger] c[i]).1@.len() == n,
    ensures
        tuples(c).finite(),
        tuples(c).len() == chain_size(c),
    decreases c.len(),
{
    if c.len() == 0 {
        assert(tuples(c) =~= Set::empty().insert(Seq::<int>::empty())) by {
            assert forall|ws: Seq<int>| tuples(c).contains(ws) implies ws =~= Seq::<int>::empty() by {}
        }
    } else {
        let t = c.drop_first();
        assert forall|i: int| 0 <= i < t.len() implies (#[trigger] t[i]).1@.len() == n by {
            assert(t[i] == c[i + 1]);
        }
        lemma_tuples_card(t, n);
        lemma_dom_bound(c[0].1@, n);
        lemma_prepend_card(dom(c[0].1@), tuples(t));
        assert(tuples(c) =~= prepend_all(dom(c[0].1@), tuples(t))) by {
            assert forall|ws: Seq<int>| tuples(c).contains(ws) implies prepend_all(dom(c[0].1@), tuples(t)).contains(ws) by {
                assert forall|i: int| 0 <= i < t.len() implies dom(t[i].1@).contains(#[trigger] ws.drop_first()[i]) by {
                    assert(t[i] == c[i + 1]);
                    assert(dom(c[i + 1].1@).contains(ws[i + 1]));
                }
            }
            assert forall|ws: Seq<int>| prepend_all(dom(c[0].1@), tuples(t)).contains(ws) implies tuples(c).contains(ws) by {
                assert forall|i: int| 0 <= i < c.len() implies dom(c[i].1@).contains(#[trigger] ws[i]) by {
                    if i > 0 {
                        assert(t[i - 1] == c[i]);
                        assert(dom(t[i - 1].1@).contains(ws.drop_first()[i - 1]));
                    }
                }
            }
        }
        lemma_chain_size_front(c);
    }
}

proof fn lemma_tuple_tail(ws: Seq<int>, c: Seq<(usize, Transversal)>)
    requires
        c.len() > 0,
        tuples(c).contains(ws),
    ensures
        tuples(c.drop_first()).contains(ws.drop_first()),
        dom(c[0].1@).contains(ws[0]),
{
    let t = c.drop_first();
    assert forall|i: int| 0 <= i < t.len() implies dom(t[i].1@).contains(#[trigger] ws.drop_first()[i]) by {
        assert(t[i] == c[i + 1]);
        assert(dom(c[i + 1].1@).contains(ws[i + 1]));
    }
}

/// The element built from a choice sifts back to exactly those choices.
proof fn lemma_build(ws: Seq<int>, c: Seq<(usize, Transversal)>, n: nat)
    requires
        n <= usize::MAX,
        chain_wf(n, c),
        tuples(c).contains(ws),
    ensures
        is_perm(build(ws, c, n)),
        build(ws, c, n).len() == n,
        sift(build(ws, c, n), c).1 == id_seq(n),
        sift(build(ws, c, n), c).0.len() == c.len(),
        forall|i: int| 0 <= i < c.len() ==> #[trigger] sift(build(ws, c, n), c).0[i][c[i].0 as int] as int == ws[i],
        forall|x: int| 0 <= x < n && chain_fixes(c, x) ==> build(ws, c, n)[x] as int == x,
    decreases c.len(),
{
    if c.len() == 0 {
        assert(is_perm(id_seq(n)));
    } else {
        let t = c.drop_first();
        let ws1 = ws.drop_first();
        lemma_tuple_tail(ws, c);
        lemma_wf_tail(n, c);
        lemma_build(ws1, t, n);
        let b1 = build(ws1, t, n);
        let w = ws[0];
        assert(dom(c[0].1@).contains(w));
        let u = c[0].1@[w]->Some_0@;
        assert(crate::transversal::rep_ok(c, 0, w));
        lemma_comp_perm(b1, u);
        let b = build(ws, c, n);
        assert(b == comp(b1, u));
        let b0 = c[0].0 as int;
        assert(b1[b0] as int == b0);
        assert(b[b0] as int == w);
        lemma_inv_props(u);
        lemma_comp_assoc(b1, u, inv_seq(u));
        lemma_comp_inv(u);
        lemma_comp_id(b1);
        assert(comp(b, inv_seq(u)) == b1);
        let r = sift(b, c);
        let r1 = sift(b1, t);
        assert(r == (seq![u] + r1.0, r1.1));
        assert forall|i: int| 0 <= i < c.len() implies #[trigger] r.0[i][c[i].0 as int] as int == ws[i] by {
            if i > 0 {
                assert(r.0[i] == r1.0[i - 1]);
                assert(t[i - 1] == c[i]);
            }
        }
        assert forall|x: int| 0 <= x < n && chain_fixes(c, x) implies b[x] as int == x by {
            assert forall|i: int, w2: int|
                0 <= i < t.len() && 0 <= w2 < t[i].1@.len() && (#[trigger] t[i].1@[w2]) is Some
                    implies t[i].1@[w2]->Some_0@[x] as int == x by {
                assert(t[i] == c[i + 1]);
            }
            assert(chain_fixes(t, x));
            assert(b1[x] as int == x);
            assert(0 <= w < c[0].1@.len());
            assert(u[x] as int == x);
        }
    }
}

proof fn lemma_build_in_group(ws: Seq<int>, c: Seq<(usize, Transversal)>, n: nat, gens: Seq<Perm>)
    requires
        tuples(c).contains(ws),
        chain_in(c, gens, n),
        crate::transversal::chain_shape(n, c),
    ensures
        in_group(build(ws, c, n), gens, n),
    decreases c.len(),
{
    if c.len() == 0 {
        lemma_group_id(gens, n);
    } else {
        let t = c.drop_first();
        lemma_tuple_tail(ws, c);
        crate::transversal::lemma_shape_tail(n, c);
        assert forall|i: int, w: int|
            0 <= i < t.len() && 0 <= w < t[i].1@.len() && (#[trigger] t[i].1@[w]) is Some
                implies in_group(t[i].1@[w]->Some_0@, gens, n) by {
            assert(t[i] == c[i + 1]);
        }
        lemma_build_in_group(ws.drop_first(), t, n, gens);
        lemma_group_comp(build(ws.drop_first(), t, n), c[0].1@[ws[0]]->Some_0@, gens, n);
    }
}

/// What sifts to the identity is built from the choices it passes.
proof fn lemma_unbuild(g: Seq<usize>, c: Seq<(usize, Transversal)>, n: nat)
    requires
        n <= usize::MAX,
        is_perm(g),
        g.len() == n,
        chain_wf(n, c),
        forall|i: int| 0 <= i < c.len() ==> dom((#[trigger] c[i]).1@).contains(c[i].0 as int),
        sift(g, c).1 == id_seq(n),
    ensures
        exists|ws: Seq<int>| #[trigger] tuples(c).contains(ws) && build(ws, c, n) == g,
    decreases c.len(),
{
    if c.len() == 0 {
        let ws = Seq::<int>::empty();
        assert(tuples(c).contains(ws));
        assert(build(ws, c, n) == g);
    } else {
        let t = c.drop_first();
        let b0 = c[0].0 as int;
        let w = g[b0] as int;
        if !(c[0].1@[w] is Some) {
            assert(g == id_seq(n));
            assert(dom(c[0].1@).contains(b0));
        }
        let u = c[0].1@[w]->Some_0@;
        lemma_inv_props(u);
        lemma_comp_perm(g, inv_seq(u));
        let g1 = comp(g, inv_seq(u));
        lemma_wf_tail(n, c);
        assert forall|i: int| 0 <= i < t.len() implies dom((#[trigger] t[i]).1@).contains(t[i].0 as int) by {
            assert(t[i] == c[i + 1]);
        }
        lemma_unbuild(g1, t, n);
        let ws1 = choose|ws: Seq<int>| #[trigger] tuples(t).contains(ws) && build(ws, t, n) == g1;
        let ws = seq![w] + ws1;
        assert(ws.drop_first() =~= ws1);
        assert(tuples(c).contains(ws)) by {
            assert forall|i: int| 0 <= i < c.len() implies dom(c[i].1@).contains(#[trigger] ws[i]) by {
                if i > 0 {
                    assert(t[i - 1] == c[i]);
                    assert(dom(t[i - 1].1@).contains(ws1[i - 1]));
                }
            }
        }
        lemma_comp_assoc(g, inv_seq(u), u);
        lemma_comp_inv(u);
        lemma_comp_id(g);
        assert(build(ws, c, n) == comp(g1, u));
    }
}

/// Lagrange's theorem for a base and strong generating set: when every
/// element of the group sifts to the identity through a well-formed chain of
/// orbits with representatives in the group, the order of the group is the
/// product of the orbit sizes.
pub proof fn lemma_order_is_chain_size(n: nat, gens: Seq<Perm>, c: Seq<(usize, Transversal)>, s: Seq<Perm>)
    requires
        n <= usize::MAX,
        chain_wf(n, c),
        levels_are_orbits(s, c),
        sifts_all(c, gens, n),
        chain_in(c, gens, n),
    ensures
        group_set(gens, n).finite(),
        group_size(gens, n) == chain_size(c),
{
    let t = tuples(c);
    let g = group_set(gens, n);
    let f = |ws: Seq<int>| build(ws, c, n);
    assert forall|i: int| 0 <= i < c.len() implies (#[trigger] c[i]).1@.len() == n by {}
    lemma_tuples_card(c, n);
    assert forall|i: int| 0 <= i < c.len() implies dom((#[trigger] c[i]).1@).contains(c[i].0 as int) by {
        assert(levels_are_orbits(s, c));
        assert(level_orbit(dom(c[i].1@), c[i].0 as int, s, c, i));
        reveal(level_orbit);
    }
    assert(t.map(f) =~= g) by {
        assert forall|x: Seq<usize>| t.map(f).contains(x) implies g.contains(x) by {
            let ws = choose|ws: Seq<int>| t.contains(ws) && f(ws) == x;
            lemma_build(ws, c, n);
            lemma_build_in_group(ws, c, n, gens);
        }
        assert forall|x: Seq<usize>| g.contains(x) implies t.map(f).contains(x) by {
            assert(sifts_all(c, gens, n));
            assert(in_group(x, gens, n));
            lemma_unbuild(x, c, n);
            let ws = choose|ws: Seq<int>| #[trigger] tuples(c).contains(ws) && build(ws, c, n) == x;
            assert(f(ws) == x);
        }
    }
    assert(vstd::relations::injective_on(f, t)) by {
        assert forall|w1: Seq<int>, w2: Seq<int>| t.contains(w1) && t.contains(w2) && #[trigger] f(w1) == #[trigger] f(w2) implies w1 == w2 by {
            lemma_build(w1, c, n);
            lemma_build(w2, c, n);
            assert forall|i: int| 0 <= i < c.len() implies w1[i] == w2[i] by {
                assert(sift(build(w1, c, n), c).0[i][c[i].0 as int] as int == w1[i]);
                assert(sift(build(w2, c, n), c).0[i][c[i].0 as int] as int == w2[i]);
            }
            assert(w1 =~= w2);
        }
    }
    lemma_map_size(t, g, f);
}

/// The orbit-size product of a chain the builder hands back does not depend
/// on the random choices: any two such chains for one generating set have
/// the same product, the order of the group.
pub proof fn lemma_chain_size_unique(
    n: nat,
    gens: Seq<Perm>,
    c1: Seq<(usize, Transversal)>,
    s1: Seq<Perm>,
    c2: Seq<(usize, Transversal)>,
    s2: Seq<Perm>,
)
    requires
        n <= usize::MAX,
        built(n, gens, c1, s1),
        built(n, gens, c2, s2),
    ensures
        chain_size(c1) == chain_size(c2),
        chain_size(c1) == group_size(gens, n),
{
    lemma_order_is_chain_size(n, gens, c1, s1);
    lemma_order_is_chain_size(n, gens, c2, s2);
}

/// Sifting through a chain the builder hands back decides membership: a
/// permutation of degree `n` lies in the group exactly when it sifts to the
/// identity.
pub proof fn lemma_sift_decides(
    n: nat,
    gens: Seq<Perm>,
    c: Seq<(usize, Transversal)>,
    s: Seq<Perm>,
    g: Seq<usize>,
)
    requires
        n <= usize::MAX,
        built(n, gens, c, s),
        is_perm(g),
        g.len() == n,
    ensures
        in_group(g, gens, n) <==> sift(g, c).1 == id_seq(n),
{
    if sift(g, c).1 == id_seq(n) {
        lemma_span_id(gen_set(gens), n);
        assert forall|i: int, w: int|
            0 <= i < c.len() && 0 <= w < c[i].1@.len() && (#[trigger] c[i].1@[w]) is Some
                implies in_span(c[i].1@[w]->Some_0@, gen_set(gens), n) by {
            lemma_group_span(c[i].1@[w]->Some_0@, gens, n);
        }
        crate::schreier::lemma_sift_back(g, c, n, gen_set(gens));
        lemma_group_span(g, gens, n);
    }
}

/// Two generating sets of one group give the same order.
pub proof fn lemma_same_group_same_size(g1: Seq<Perm>, g2: Seq<Perm>, n: nat)
    requires
        forall|i: int| 0 <= i < g1.len() ==> in_group((#[trigger] g1[i])@, g2, n),
        forall|i: int| 0 <= i < g2.len() ==> in_group((#[trigger] g2[i])@, g1, n),
    ensures
        group_size(g1, n) == group_size(g2, n),
{
    assert(group_set(g1, n) =~= group_set(g2, n)) by {
        assert forall|x: Seq<usize>| group_set(g1, n).contains(x) implies group_set(g2, n).contains(x) by {
            lemma_group_within(x, g1, g2, n);
        }
        assert forall|x: Seq<usize>| group_set(g2, n).contains(x) implies group_set(g1, n).contains(x) by {
            lemma_group_within(x, g2, g1, n);
        }
    }
}

} // verus!
