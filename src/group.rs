//! Membership in the group generated by a list of permutations: lying in
//! every subgroup that holds the generators.
use crate::perm::{
    comp, id_seq, inv_seq, is_perm, lemma_comp_id, lemma_inv_unique, Perm,
};
use vstd::prelude::*;

verus! {

/// `h` holds the identity of degree `n` and is closed under composition and
/// inverses.
#[verifier::opaque]
pub open spec fn is_subgroup(h: Set<Seq<usize>>, n: nat) -> bool {
    &&& h.contains(id_seq(n))
    &&& forall|a: Seq<usize>, b: Seq<usize>|
        #![trigger h.contains(a), h.contains(b)]
        h.contains(a) && h.contains(b) ==> h.contains(comp(a, b))
    &&& forall|a: Seq<usize>| #[trigger] h.contains(a) ==> h.contains(inv_seq(a))
}

/// `g` lies in the group of degree `n` generated by `gens`.
#[verifier::opaque]
pub open spec fn in_group(g: Seq<usize>, gens: Seq<Perm>, n: nat) -> bool {
    forall|h: Set<Seq<usize>>|
        #[trigger] is_subgroup(h, n) && (forall|i: int| 0 <= i < gens.len() ==> h.contains(#[trigger] gens[i]@))
            ==> h.contains(g)
}

pub proof fn lemma_group_id(gens: Seq<Perm>, n: nat)
    ensures
        in_group(id_seq(n), gens, n),
{
    reveal(in_group);
    reveal(is_subgroup);
}

pub proof fn lemma_group_gen(gens: Seq<Perm>, n: nat, i: int)
    requires
        0 <= i < gens.len(),
    ensures
        in_group(gens[i]@, gens, n),
{
    reveal(in_group);
}

pub proof fn lemma_group_comp(a: Seq<usize>, b: Seq<usize>, gens: Seq<Perm>, n: nat)
    requires
        in_group(a, gens, n),
        in_group(b, gens, n),
    ensures
        in_group(comp(a, b), gens, n),
{
    reveal(in_group);
    assert forall|h: Set<Seq<usize>>|
        #[trigger] is_subgroup(h, n) && (forall|i: int| 0 <= i < gens.len() ==> h.contains(#[trigger] gens[i]@))
            implies h.contains(comp(a, b)) by {
        reveal(is_subgroup);
        assert(h.contains(a));
        assert(h.contains(b));
    }
}

pub proof fn lemma_group_inv(a: Seq<usize>, gens: Seq<Perm>, n: nat)
    requires
        in_group(a, gens, n),
    ensures
        in_group(inv_seq(a), gens, n),
{
    reveal(in_group);
    assert forall|h: Set<Seq<usize>>|
        #[trigger] is_subgroup(h, n) && (forall|i: int| 0 <= i < gens.len() ==> h.contains(#[trigger] gens[i]@))
            implies h.contains(inv_seq(a)) by {
        reveal(is_subgroup);
        assert(h.contains(a));
    }
}

/// If every generator of `g1` lies in the group generated by `g2`, so does
/// everything in the group generated by `g1`.
pub proof fn lemma_group_within(a: Seq<usize>, g1: Seq<Perm>, g2: Seq<Perm>, n: nat)
    requires
        in_group(a, g1, n),
        forall|i: int| 0 <= i < g1.len() ==> in_group(#[trigger] g1[i]@, g2, n),
    ensures
        in_group(a, g2, n),
{
    reveal(in_group);
    assert forall|h: Set<Seq<usize>>|
        #[trigger] is_subgroup(h, n) && (forall|i: int| 0 <= i < g2.len() ==> h.contains(#[trigger] g2[i]@))
            implies h.contains(a) by {
        assert forall|i: int| 0 <= i < g1.len() implies h.contains(#[trigger] g1[i]@) by {
            assert(in_group(g1[i]@, g2, n));
        }
    }
}

/// The views of the generators.
pub open spec fn gen_set(gens: Seq<Perm>) -> Set<Seq<usize>> {
    Set::new(|p: Seq<usize>| exists|i: int| 0 <= i < gens.len() && gens[i]@ == p)
}

/// `g` lies in the group of degree `n` generated by the set `gs`.
#[verifier::opaque]
pub open spec fn in_span(g: Seq<usize>, gs: Set<Seq<usize>>, n: nat) -> bool {
    forall|h: Set<Seq<usize>>| #[trigger] is_subgroup(h, n) && gs.subset_of(h) ==> h.contains(g)
}

pub proof fn lemma_group_span(g: Seq<usize>, gens: Seq<Perm>, n: nat)
    ensures
        in_group(g, gens, n) == in_span(g, gen_set(gens), n),
{
    reveal(in_group);
    reveal(in_span);
    if in_group(g, gens, n) {
        assert forall|h: Set<Seq<usize>>| #[trigger] is_subgroup(h, n) && gen_set(gens).subset_of(h) implies h.contains(g) by {
            assert forall|i: int| 0 <= i < gens.len() implies h.contains(#[trigger] gens[i]@) by {
                assert(gen_set(gens).contains(gens[i]@));
            }
        }
    }
    if in_span(g, gen_set(gens), n) {
        assert forall|h: Set<Seq<usize>>|
            #[trigger] is_subgroup(h, n) && (forall|i: int| 0 <= i < gens.len() ==> h.contains(#[trigger] gens[i]@))
                implies h.contains(g) by {
            assert forall|p: Seq<usize>| gen_set(gens).contains(p) implies h.contains(p) by {
                let i = choose|i: int| 0 <= i < gens.len() && gens[i]@ == p;
            }
        }
    }
}

pub proof fn lemma_span_elem(g: Seq<usize>, gs: Set<Seq<usize>>, n: nat)
    requires
        gs.contains(g),
    ensures
        in_span(g, gs, n),
{
    reveal(in_span);
}

pub proof fn lemma_span_id(gs: Set<Seq<usize>>, n: nat)
    ensures
        in_span(id_seq(n), gs, n),
{
    reveal(in_span);
    reveal(is_subgroup);
}

pub proof fn lemma_span_comp(a: Seq<usize>, b: Seq<usize>, gs: Set<Seq<usize>>, n: nat)
    requires
        in_span(a, gs, n),
        in_span(b, gs, n),
    ensures
        in_span(comp(a, b), gs, n),
{
    reveal(in_span);
    assert forall|h: Set<Seq<usize>>| #[trigger] is_subgroup(h, n) && gs.subset_of(h) implies h.contains(comp(a, b)) by {
        reveal(is_subgroup);
        assert(h.contains(a));
        assert(h.contains(b));
    }
}

/// If every element of `gs1` lies in the group generated by `gs2`, so does
/// everything in the group generated by `gs1`.
pub proof fn lemma_span_within(a: Seq<usize>, gs1: Set<Seq<usize>>, gs2: Set<Seq<usize>>, n: nat)
    requires
        in_span(a, gs1, n),
        forall|p: Seq<usize>| #[trigger] gs1.contains(p) ==> in_span(p, gs2, n),
    ensures
        in_span(a, gs2, n),
{
    reveal(in_span);
    assert forall|h: Set<Seq<usize>>| #[trigger] is_subgroup(h, n) && gs2.subset_of(h) implies h.contains(a) by {
        assert forall|p: Seq<usize>| gs1.contains(p) implies h.contains(p) by {
            assert(in_span(p, gs2, n));
        }
    }
}

/// The group generated by no generators is trivial.
pub proof fn lemma_span_empty(g: Seq<usize>, n: nat)
    requires
        in_span(g, Set::empty(), n),
        n <= usize::MAX,
    ensures
        g == id_seq(n),
{
    reveal(in_span);
    let e = id_seq(n);
    let h = Set::empty().insert(e);
    assert(is_perm(e));
    lemma_comp_id(e);
    lemma_inv_unique(e, e);
    assert(is_subgroup(h, n)) by {
        reveal(is_subgroup);
    }
    assert(Set::<Seq<usize>>::empty().subset_of(h));
}

} // verus!
