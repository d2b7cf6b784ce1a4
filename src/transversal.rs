//! Orbits, transversals and stabilizer generators (Schreier's lemma), and
//! sifting an element through a stabilizer chain.
use crate::group::{in_group, lemma_group_comp, lemma_group_gen, lemma_group_id, lemma_group_inv};
use crate::perm::{comp, id_seq, inv_seq, is_perm, lemma_comp_assoc, lemma_comp_id, lemma_comp_inv, lemma_comp_perm, lemma_inv_props, Perm};
use vstd::prelude::*;
use vstd::set_lib::{lemma_int_range, lemma_len_subset, set_int_range};

verus! {

/// Pairs `(w, p)` with `p` carrying the base point to `w`.
pub type OrbitTransversal = Vec<(usize, Perm)>;

/// Indexed by point: a representative carrying the base point there, or
/// `None` outside the orbit.
pub type Transversal = Vec<Option<Perm>>;

/// Every generator is a permutation of degree `n`.
pub open spec fn perms_of(gens: Seq<Perm>, n: nat) -> bool {
    forall|i: int| 0 <= i < gens.len() ==> is_perm(#[trigger] gens[i]@) && gens[i]@.len() == n
}

/// Every generator fixes `x`.
pub open spec fn all_fix(gens: Seq<Perm>, x: int) -> bool {
    forall|i: int| 0 <= i < gens.len() ==> #[trigger] gens[i]@[x] as int == x
}

/// `X` is closed under every generator.
pub open spec fn closed_under(xs: Set<int>, gens: Seq<Perm>) -> bool {
    forall|x: int, i: int|
        #![trigger xs.contains(x), gens[i]]
        xs.contains(x) && 0 <= i < gens.len() ==> xs.contains(gens[i]@[x] as int)
}

/// `X` holds `v` and is closed under the generators.
pub open spec fn closed_from(xs: Set<int>, v: int, gens: Seq<Perm>) -> bool {
    xs.contains(v) && closed_under(xs, gens)
}

/// `orb` is the orbit of `v`: the least set that holds `v` and is closed
/// under the generators.
pub open spec fn is_orbit(orb: Set<int>, v: int, gens: Seq<Perm>) -> bool {
    &&& closed_from(orb, v, gens)
    &&& forall|xs: Set<int>| #[trigger] closed_from(xs, v, gens) ==> orb.subset_of(xs)
}

/// The points listed in an orbit transversal.
pub open spec fn ot_points(ot: Seq<(usize, Perm)>) -> Set<int> {
    Set::new(|w: int| exists|k: int| 0 <= k < ot.len() && ot[k].0 as int == w)
}

/// `p` is a permutation of degree `n` that fixes every point below `n`
/// fixed by all of `gens`.
pub open spec fn keeps_fixed(p: Seq<usize>, gens: Seq<Perm>, n: nat) -> bool {
    &&& is_perm(p)
    &&& p.len() == n
    &&& forall|x: int| 0 <= x < n && #[trigger] all_fix(gens, x) ==> p[x] as int == x
}

/// Strict lexicographic order on image arrays of equal length.
pub open spec fn lex_lt(a: Seq<usize>, b: Seq<usize>) -> bool {
    &&& a.len() == b.len()
    &&& exists|i: int|
        0 <= i < a.len() && a[i] < b[i] && forall|j: int| 0 <= j < i ==> a[j] == b[j]
}

/// Each element lies strictly below every later one.
pub open spec fn strictly_sorted(s: Seq<Perm>) -> bool {
    forall|i: int, j: int| 0 <= i < j < s.len() ==> lex_lt(#[trigger] s[i]@, #[trigger] s[j]@)
}

pub proof fn lemma_lex_trans(a: Seq<usize>, b: Seq<usize>, c: Seq<usize>)
    requires
        lex_lt(a, b),
        lex_lt(b, c),
    ensures
        lex_lt(a, c),
{
    let i = choose|i: int|
        0 <= i < a.len() && a[i] < b[i] && forall|j: int| 0 <= j < i ==> a[j] == b[j];
    let k = choose|k: int|
        0 <= k < b.len() && b[k] < c[k] && forall|j: int| 0 <= j < k ==> b[j] == c[j];
    let m = if i < k {
        i
    } else {
        k
    };
    assert(a[m] < c[m]);
    assert(forall|j: int| 0 <= j < m ==> a[j] == c[j]);
}

proof fn lemma_lex_asym(a: Seq<usize>, b: Seq<usize>)
    requires
        lex_lt(a, b),
    ensures
        !lex_lt(b, a),
        a != b,
{
    let i = choose|i: int|
        0 <= i < a.len() && a[i] < b[i] && forall|j: int| 0 <= j < i ==> a[j] == b[j];
    if lex_lt(b, a) {
        let k = choose|k: int|
            0 <= k < b.len() && b[k] < a[k] && forall|j: int| 0 <= j < k ==> b[j] == a[j];
        if i < k {
            assert(b[i] == a[i]);
        } else if k < i {
            assert(a[k] == b[k]);
        }
    }
}

/// Compares two permutations of one degree: `-1`, `0` or `1`.
fn lex_cmp(a: &Perm, b: &Perm) -> (r: i8)
    requires
        a@.len() == b@.len(),
    ensures
        r == 0 <==> a@ == b@,
        r < 0 <==> lex_lt(a@, b@),
        r > 0 <==> lex_lt(b@, a@),
{
    let n = a.size();
    let mut i: usize = 0;
    while i < n
        invariant
            n == a@.len(),
            n == b@.len(),
            i <= n,
            forall|j: int| 0 <= j < i ==> a@[j] == b@[j],
        decreases n - i,
    {
        let x = a.at(i);
        let y = b.at(i);
        if x < y {
            proof {
                lemma_lex_asym(a@, b@);
            }
            return -1;
        }
        if x > y {
            proof {
                assert(forall|j: int| 0 <= j < i ==> b@[j] == a@[j]);
                lemma_lex_asym(b@, a@);
            }
            return 1;
        }
        i = i + 1;
    }
    proof {
        assert(a@ =~= b@);
        if lex_lt(a@, b@) {
            lemma_lex_asym(a@, b@);
        }
        if lex_lt(b@, a@) {
            lemma_lex_asym(b@, a@);
        }
    }
    0
}

/// Adds `r` to a strictly sorted list unless an equal element is there.
fn insert_sorted(s: &mut Vec<Perm>, r: Perm)
    requires
        strictly_sorted(old(s)@),
        forall|i: int| 0 <= i < old(s)@.len() ==> (#[trigger] old(s)@[i])@.len() == r@.len(),
    ensures
        strictly_sorted(final(s)@),
        forall|i: int| 0 <= i < final(s)@.len() ==> #[trigger] final(s)@[i]@ == r@ || exists|j: int|
            0 <= j < old(s)@.len() && old(s)@[j]@ == final(s)@[i]@,
        forall|j: int|
            0 <= j < old(s)@.len() ==> exists|i: int|
                0 <= i < final(s)@.len() && final(s)@[i]@ == #[trigger] old(s)@[j]@,
        exists|i: int| 0 <= i < final(s)@.len() && final(s)@[i]@ == r@,
{
    let mut lo: usize = 0;
    let mut hi: usize = s.len();
    while lo < hi
        invariant
            s@ == old(s)@,
            strictly_sorted(s@),
            forall|i: int| 0 <= i < s@.len() ==> (#[trigger] s@[i])@.len() == r@.len(),
            0 <= lo <= hi <= s@.len(),
            forall|i: int| 0 <= i < lo ==> lex_lt((#[trigger] s@[i])@, r@),
            forall|i: int| hi <= i < s@.len() ==> lex_lt(r@, (#[trigger] s@[i])@),
        decreases hi - lo,
    {
        let mid = lo + (hi - lo) / 2;
        let c = lex_cmp(&s[mid], &r);
        if c == 0 {
            proof {
                assert(s@[mid as int]@ == r@);
                assert forall|j: int| 0 <= j < old(s)@.len() implies exists|i: int|
                    0 <= i < s@.len() && s@[i]@ == #[trigger] old(s)@[j]@ by {
                    assert(s@[j]@ == old(s)@[j]@);
                }
            }
            return;
        } else if c < 0 {
            proof {
                assert forall|i: int| 0 <= i <= mid implies lex_lt((#[trigger] s@[i])@, r@) by {
                    if i < mid {
                        lemma_lex_trans(s@[i]@, s@[mid as int]@, r@);
                    }
                }
            }
            lo = mid + 1;
        } else {
            proof {
                assert forall|i: int| mid <= i < s@.len() implies lex_lt(r@, (#[trigger] s@[i])@) by {
                    if i > mid {
                        lemma_lex_trans(r@, s@[mid as int]@, s@[i]@);
                    }
                }
            }
            hi = mid;
        }
    }
    let ghost before = s@;
    s.insert(lo, r);
    proof {
        assert(s@ == before.insert(lo as int, r));
        assert forall|i: int, j: int| 0 <= i < j < s@.len() implies lex_lt(
            #[trigger] s@[i]@,
            #[trigger] s@[j]@,
        ) by {
            if j < lo {
            } else if j == lo {
                assert(s@[i] == before[i]);
            } else if i < lo {
                assert(s@[i] == before[i]);
                assert(s@[j] == before[j - 1]);
                lemma_lex_trans(before[i]@, r@, before[j - 1]@);
            } else if i == lo {
                assert(s@[j] == before[j - 1]);
            } else {
                assert(s@[i] == before[i - 1]);
                assert(s@[j] == before[j - 1]);
            }
        }
        assert forall|i: int| 0 <= i < s@.len() implies #[trigger] s@[i]@ == r@ || exists|j: int|
            0 <= j < old(s)@.len() && old(s)@[j]@ == s@[i]@ by {
            if i < lo {
                assert(old(s)@[i]@ == s@[i]@);
            } else if i > lo {
                assert(old(s)@[i - 1]@ == s@[i]@);
            }
        }
        assert forall|j: int| 0 <= j < old(s)@.len() implies exists|i: int|
            0 <= i < s@.len() && s@[i]@ == #[trigger] old(s)@[j]@ by {
            if j < lo {
                assert(s@[j]@ == old(s)@[j]@);
            } else {
                assert(s@[j + 1]@ == old(s)@[j]@);
            }
        }
        assert(s@[lo as int]@ == r@);
    }
}

/// The Schreier generator of the `k`-th listed point `w` and the `j`-th
/// generator `x`: the representative of `x(w)`, then the inverse of the
/// representative of `w` followed by `x`. It is the identity or in `stab`.
pub open spec fn schreier_covered(
    ot: Seq<(usize, Perm)>,
    stab: Seq<Perm>,
    gens: Seq<Perm>,
    k: int,
    j: int,
    n: nat,
) -> bool {
    forall|k2: int|
        0 <= k2 < ot.len() && (#[trigger] ot[k2]).0 == gens[j]@[ot[k].0 as int] ==> {
            let r = comp(ot[k2].1@, inv_seq(comp(ot[k].1@, gens[j]@)));
            r == id_seq(n) || exists|i: int| 0 <= i < stab.len() && stab[i]@ == r
        }
}

proof fn lemma_covered_stab_grows(
    ot: Seq<(usize, Perm)>,
    stab0: Seq<Perm>,
    stab1: Seq<Perm>,
    gens: Seq<Perm>,
    k: int,
    j: int,
    n: nat,
)
    requires
        schreier_covered(ot, stab0, gens, k, j, n),
        forall|i0: int|
            0 <= i0 < stab0.len() ==> exists|i1: int|
                0 <= i1 < stab1.len() && stab1[i1]@ == #[trigger] stab0[i0]@,
    ensures
        schreier_covered(ot, stab1, gens, k, j, n),
{
    assert forall|k2: int|
        0 <= k2 < ot.len() && (#[trigger] ot[k2]).0 == gens[j]@[ot[k].0 as int] implies {
            let r = comp(ot[k2].1@, inv_seq(comp(ot[k].1@, gens[j]@)));
            r == id_seq(n) || exists|i: int| 0 <= i < stab1.len() && stab1[i]@ == r
        } by {
        let r = comp(ot[k2].1@, inv_seq(comp(ot[k].1@, gens[j]@)));
        if r != id_seq(n) {
            let i0 = choose|i: int| 0 <= i < stab0.len() && stab0[i]@ == r;
            let i1 = choose|i1: int| 0 <= i1 < stab1.len() && stab1[i1]@ == stab0[i0]@;
        }
    }
}

proof fn lemma_covered_ot_grows(
    ot0: Seq<(usize, Perm)>,
    e: (usize, Perm),
    stab: Seq<Perm>,
    gens: Seq<Perm>,
    k: int,
    j: int,
    n: nat,
)
    requires
        schreier_covered(ot0, stab, gens, k, j, n),
        0 <= k < ot0.len(),
        e.0 != gens[j]@[ot0[k].0 as int],
    ensures
        schreier_covered(ot0.push(e), stab, gens, k, j, n),
{
    let ot1 = ot0.push(e);
    assert forall|k2: int|
        0 <= k2 < ot1.len() && (#[trigger] ot1[k2]).0 == gens[j]@[ot1[k].0 as int] implies {
            let r = comp(ot1[k2].1@, inv_seq(comp(ot1[k].1@, gens[j]@)));
            r == id_seq(n) || exists|i: int| 0 <= i < stab.len() && stab[i]@ == r
        } by {
        assert(ot1[k] == ot0[k]);
        assert(k2 < ot0.len());
        assert(ot1[k2] == ot0[k2]);
    }
}

/// Queue slot of the `j`-th successor of the `k`-th point visited.
spec fn child(k: int, m: int, j: int) -> int {
    1 + k * m + j
}

proof fn lemma_child_bound(k: int, m: int, j: int, len: int)
    requires
        0 <= k < len,
        0 <= j < m,
    ensures
        1 <= child(k, m, j) < 1 + len * m,
        child(k, m, j) + 0 == 1 + k * m + j,
{
    assert(k * m + j < len * m) by (nonlinear_arith)
        requires
            0 <= k < len,
            0 <= j < m,
    ;
    assert(0 <= k * m) by (nonlinear_arith)
        requires
            0 <= k,
            0 <= m,
    ;
}

proof fn lemma_child_inj(k1: int, j1: int, k2: int, j2: int, m: int)
    requires
        0 <= k1,
        0 <= k2,
        0 <= j1 < m,
        0 <= j2 < m,
        child(k1, m, j1) == child(k2, m, j2),
    ensures
        k1 == k2,
        j1 == j2,
{
    if k1 < k2 {
        assert(k1 * m + m <= k2 * m) by (nonlinear_arith)
            requires
                k1 < k2,
                0 <= m,
        ;
    } else if k2 < k1 {
        assert(k2 * m + m <= k1 * m) by (nonlinear_arith)
            requires
                k2 < k1,
                0 <= m,
        ;
    }
}

proof fn lemma_next_child(ck: int, cj: int, m: int, len: int, head: int)
    requires
        0 <= ck,
        0 <= cj < m,
        head == child(ck, m, cj),
    ensures
        ({
            let nk = if cj + 1 < m {
                ck
            } else {
                ck + 1
            };
            let nj = if cj + 1 < m {
                cj + 1
            } else {
                0
            };
            &&& head + 1 == child(nk, m, nj)
            &&& (head + 1 < 1 + len * m ==> nk < len)
        }),
{
    if cj + 1 >= m {
        assert((ck + 1) * m == ck * m + m) by (nonlinear_arith);
    }
    let nk = if cj + 1 < m {
        ck
    } else {
        ck + 1
    };
    if nk >= len {
        assert(len * m <= nk * m) by (nonlinear_arith)
            requires
                len <= nk,
                0 <= m,
        ;
    }
}

proof fn lemma_points_bound(ot: Seq<(usize, Perm)>, n: nat)
    requires
        ot_points(ot).finite(),
        ot_points(ot).len() == ot.len(),
        forall|k: int| 0 <= k < ot.len() ==> (#[trigger] ot[k].0 as int) < n,
    ensures
        ot.len() <= n,
{
    lemma_int_range(0, n as int);
    assert(ot_points(ot).subset_of(set_int_range(0, n as int)));
    lemma_len_subset(ot_points(ot), set_int_range(0, n as int));
}

/// Breadth-first search from `v` over the generators. Returns the orbit of
/// `v` with one representative per point (the first reached), and the
/// stabilizer elements `q * p^-1` met whenever a point is reached again,
/// without the identity, sorted and without repeats.
pub fn orbit_transversal_stabilizer(n: usize, gen: &[Perm], v: usize) -> (r: (
    OrbitTransversal,
    Vec<Perm>,
))
    requires
        v < n,
        perms_of(gen@, n as nat),
    ensures
        r.0@.len() >= 1,
        r.0@[0].0 == v,
        r.0@[0].1@ == id_seq(n as nat),
        forall|k: int|
            0 <= k < r.0@.len() ==> {
                &&& (#[trigger] r.0@[k].0 as int) < n
                &&& keeps_fixed(r.0@[k].1@, gen@, n as nat)
                &&& r.0@[k].1@[v as int] == r.0@[k].0
            },
        forall|k1: int, k2: int|
            0 <= k1 < r.0@.len() && 0 <= k2 < r.0@.len() && k1 != k2 ==> #[trigger] r.0@[k1].0
                != #[trigger] r.0@[k2].0,
        is_orbit(ot_points(r.0@), v as int, gen@),
        ot_points(r.0@).finite(),
        ot_points(r.0@).len() == r.0@.len(),
        forall|k: int| 0 <= k < r.0@.len() ==> in_group((#[trigger] r.0@[k]).1@, gen@, n as nat),
        forall|k: int, j: int|
            0 <= k < r.0@.len() && 0 <= j < gen@.len() ==> #[trigger] schreier_covered(
                r.0@,
                r.1@,
                gen@,
                k,
                j,
                n as nat,
            ),
        strictly_sorted(r.1@),
        forall|i: int|
            0 <= i < r.1@.len() ==> {
                &&& keeps_fixed(#[trigger] r.1@[i]@, gen@, n as nat)
                &&& r.1@[i]@[v as int] == v
                &&& r.1@[i]@ != id_seq(n as nat)
                &&& in_group(r.1@[i]@, gen@, n as nat)
            },
{
    let m = gen.len();
    let mut stab: Vec<Perm> = Vec::new();
    let mut que: Vec<(usize, Perm)> = Vec::new();
    que.push((v, Perm::e(n)));
    let mut table: Vec<Option<Perm>> = Vec::new();
    let mut t: usize = 0;
    while t < n
        invariant
            t <= n,
            table@.len() == t,
            forall|w: int| 0 <= w < t ==> table@[w] is None,
        decreases n - t,
    {
        table.push(None);
        t = t + 1;
    }
    let mut ot: OrbitTransversal = Vec::new();
    let mut head: usize = 0;
    let ghost mut ck: int = 0;
    let ghost mut cj: int = 0;
    proof {
        assert(ot_points(ot@) =~= Set::empty());
        lemma_comp_id(id_seq(n as nat));
        lemma_group_id(gen@, n as nat);
        assert forall|xs: Set<int>| #[trigger] closed_from(xs, v as int, gen@) implies (forall|
            i: int,
        | 0 <= i < que@.len() ==> xs.contains(que@[i].0 as int)) by {}
    }
    while head < que.len()
        invariant
            v < n,
            m == gen@.len(),
            perms_of(gen@, n as nat),
            table@.len() == n,
            que@.len() == 1 + ot@.len() * m,
            head <= que@.len(),
            que@[0].0 == v,
            que@[0].1@ == id_seq(n as nat),
            head == 0 ==> ot@.len() == 0,
            head == 0 ==> forall|w: int| 0 <= w < n ==> table@[w] is None,
            ot@.len() > 0 ==> ot@[0].0 == v && ot@[0].1@ == id_seq(n as nat),
            forall|k: int, j: int|
                0 <= k < ot@.len() && 0 <= j < m ==> #[trigger] que@[child(k, m as int, j)].0
                    == gen@[j]@[#[trigger] ot@[k].0 as int],
            forall|i: int|
                0 <= i < que@.len() ==> {
                    &&& (#[trigger] que@[i].0 as int) < n
                    &&& keeps_fixed(que@[i].1@, gen@, n as nat)
                    &&& que@[i].1@[v as int] == que@[i].0
                },
            forall|i: int| 0 <= i < head ==> table@[#[trigger] que@[i].0 as int] is Some,
            forall|i: int| 0 <= i < que@.len() ==> in_group((#[trigger] que@[i]).1@, gen@, n as nat),
            forall|w: int|
                0 <= w < n && #[trigger] table@[w] is Some ==> in_group(table@[w]->Some_0@, gen@, n as nat),
            forall|k: int, j: int|
                0 <= k < ot@.len() && 0 <= j < m ==> (#[trigger] que@[child(k, m as int, j)]).1@ == comp(
                    ot@[k].1@,
                    gen@[j]@,
                ),
            forall|k: int|
                0 <= k < ot@.len() ==> table@[(#[trigger] ot@[k]).0 as int] is Some && table@[ot@[k].0 as int]->Some_0@
                    == ot@[k].1@,
            1 <= head < que@.len() ==> 0 <= ck < ot@.len() && 0 <= cj < m && head == child(ck, m as int, cj),
            forall|k: int, j: int|
                0 <= k < ot@.len() && 0 <= j < m && child(k, m as int, j) < head ==> #[trigger] schreier_covered(
                    ot@,
                    stab@,
                    gen@,
                    k,
                    j,
                    n as nat,
                ),
            forall|k: int| 0 <= k < ot@.len() ==> in_group((#[trigger] ot@[k]).1@, gen@, n as nat),
            forall|w: int| 0 <= w < n ==> (#[trigger] table@[w] is Some <==> ot_points(ot@).contains(w)),
            forall|w: int|
                0 <= w < n && #[trigger] table@[w] is Some ==> {
                    &&& keeps_fixed(table@[w]->Some_0@, gen@, n as nat)
                    &&& table@[w]->Some_0@[v as int] as int == w
                },
            forall|k: int|
                0 <= k < ot@.len() ==> {
                    &&& (#[trigger] ot@[k].0 as int) < n
                    &&& keeps_fixed(ot@[k].1@, gen@, n as nat)
                    &&& ot@[k].1@[v as int] == ot@[k].0
                },
            forall|k1: int, k2: int|
                0 <= k1 < ot@.len() && 0 <= k2 < ot@.len() && k1 != k2 ==> #[trigger] ot@[k1].0
                    != #[trigger] ot@[k2].0,
            ot_points(ot@).finite(),
            ot_points(ot@).len() == ot@.len(),
            forall|xs: Set<int>|
                #[trigger] closed_from(xs, v as int, gen@) ==> (forall|i: int|
                    0 <= i < que@.len() ==> xs.contains(que@[i].0 as int)),
            forall|xs: Set<int>|
                #[trigger] closed_from(xs, v as int, gen@) ==> ot_points(ot@).subset_of(xs),
            strictly_sorted(stab@),
            forall|i: int|
                0 <= i < stab@.len() ==> {
                    &&& keeps_fixed(#[trigger] stab@[i]@, gen@, n as nat)
                    &&& stab@[i]@[v as int] == v
                    &&& stab@[i]@ != id_seq(n as nat)
                    &&& in_group(stab@[i]@, gen@, n as nat)
                },
        decreases 1 + n * m - head,
    {
        proof {
            lemma_points_bound(ot@, n as nat);
            assert(ot@.len() * m <= n * m) by (nonlinear_arith)
                requires
                    ot@.len() <= n,
            ;
        }
        let ghost stab_in = stab@;
        proof {
            if head >= 1 {
                lemma_child_bound(ck, m as int, cj, ot@.len() as int);
            }
        }
        let w = que[head].0;
        let p = que[head].1.copy();
        let found: Option<Perm> = match &table[w] {
            Some(q) => Some(q.compose(&p.inv())),
            None => None,
        };
        match found {
            Some(r) => {
                proof {
                    let q = table@[w as int]->Some_0@;
                    lemma_group_inv(p@, gen@, n as nat);
                    lemma_group_comp(q, inv_seq(p@), gen@, n as nat);
                    lemma_inv_props(p@);
                    assert(r@[v as int] == inv_seq(p@)[q[v as int] as int]);
                    assert forall|x: int| 0 <= x < n && #[trigger] all_fix(gen@, x) implies r@[x]
                        as int == x by {
                        assert(p@[x] as int == x);
                        assert(inv_seq(p@)[p@[x] as int] as int == x);
                    }
                }
                let e = Perm::e(n);
                if r != e {
                    proof {
                        assert forall|i: int| 0 <= i < stab@.len() implies (#[trigger] stab@[i])@.len()
                            == r@.len() by {}
                    }
                    let ghost before = stab@;
                    insert_sorted(&mut stab, r);
                    proof {
                        assert forall|i: int| 0 <= i < stab@.len() implies {
                            &&& keeps_fixed(#[trigger] stab@[i]@, gen@, n as nat)
                            &&& stab@[i]@[v as int] == v
                            &&& stab@[i]@ != id_seq(n as nat)
                            &&& in_group(stab@[i]@, gen@, n as nat)
                        } by {
                            if stab@[i]@ != r@ {
                                let j = choose|j: int| 0 <= j < before.len() && before[j]@ == stab@[i]@;
                                assert(keeps_fixed(before[j]@, gen@, n as nat));
                                assert(in_group(before[j]@, gen@, n as nat));
                            }
                        }
                        assert forall|kk: int, jj: int|
                            0 <= kk < ot@.len() && 0 <= jj < m && child(kk, m as int, jj) < head implies #[trigger] schreier_covered(
                            ot@,
                            stab@,
                            gen@,
                            kk,
                            jj,
                            n as nat,
                        ) by {
                            lemma_covered_stab_grows(ot@, before, stab@, gen@, kk, jj, n as nat);
                        }
                    }
                }
                proof {
                    // the Schreier generator of the slot just taken
                    if head >= 1 {
                        let q = table@[w as int]->Some_0@;
                        assert(p@ == comp(ot@[ck].1@, gen@[cj]@));
                        assert(w == gen@[cj]@[ot@[ck].0 as int]);
                        assert(r@ == comp(q, inv_seq(p@)));
                        assert forall|k2: int|
                            0 <= k2 < ot@.len() && (#[trigger] ot@[k2]).0 == gen@[cj]@[ot@[ck].0 as int] implies {
                                let rr = comp(ot@[k2].1@, inv_seq(comp(ot@[ck].1@, gen@[cj]@)));
                                rr == id_seq(n as nat) || exists|i: int| 0 <= i < stab@.len() && stab@[i]@ == rr
                            } by {
                            assert(table@[ot@[k2].0 as int]->Some_0@ == ot@[k2].1@);
                        }
                        assert(schreier_covered(ot@, stab@, gen@, ck, cj, n as nat));
                    }
                }
            },
            None => {
                let ghost k = ot@.len() as int;
                let ghost q0 = que@;
                let mut j: usize = 0;
                while j < m
                    invariant
                        v < n,
                        (w as int) < n,
                        m == gen@.len(),
                        perms_of(gen@, n as nat),
                        keeps_fixed(p@, gen@, n as nat),
                        in_group(p@, gen@, n as nat),
                        p@[v as int] == w,
                        head < q0.len(),
                        q0[head as int].0 == w,
                        j <= m,
                        k == ot@.len(),
                        que@.len() == q0.len() + j,
                        q0.len() == 1 + k * m,
                        forall|i: int| 0 <= i < q0.len() ==> que@[i] == q0[i],
                        forall|jj: int|
                            0 <= jj < j ==> #[trigger] que@[q0.len() + jj].0 == gen@[jj]@[w as int],
                        forall|jj: int|
                            0 <= jj < j ==> (#[trigger] que@[q0.len() + jj]).1@ == comp(p@, gen@[jj]@),
                        forall|i: int|
                            0 <= i < que@.len() ==> {
                                &&& (#[trigger] que@[i].0 as int) < n
                                &&& keeps_fixed(que@[i].1@, gen@, n as nat)
                                &&& que@[i].1@[v as int] == que@[i].0
                            },
                        forall|i: int| 0 <= i < que@.len() ==> in_group((#[trigger] que@[i]).1@, gen@, n as nat),
                        forall|xs: Set<int>|
                            #[trigger] closed_from(xs, v as int, gen@) ==> (forall|i: int|
                                0 <= i < que@.len() ==> xs.contains(que@[i].0 as int)),
                    decreases m - j,
                {
                    let x = &gen[j];
                    let c = p.compose(x);
                    let target = x.at(w);
                    proof {
                        lemma_group_gen(gen@, n as nat, j as int);
                        lemma_group_comp(p@, gen@[j as int]@, gen@, n as nat);
                        assert(is_perm(gen@[j as int]@));
                        assert forall|y: int| 0 <= y < n && #[trigger] all_fix(gen@, y) implies c@[y]
                            as int == y by {
                            assert(p@[y] as int == y);
                            assert(gen@[j as int]@[y] as int == y);
                        }
                    }
                    let ghost qb = que@;
                    que.push((target, c));
                    proof {
                        assert forall|i: int| 0 <= i < que@.len() implies in_group((#[trigger] que@[i]).1@, gen@, n as nat) by {
                            if i < qb.len() {
                                assert(que@[i] == qb[i]);
                            }
                        }
                        assert forall|xs: Set<int>| #[trigger] closed_from(xs, v as int, gen@) implies (forall|
                            i: int,
                        | 0 <= i < que@.len() ==> xs.contains(que@[i].0 as int)) by {
                            assert(xs.contains(qb[head as int].0 as int));
                            assert(xs.contains(w as int));
                            assert(xs.contains(gen@[j as int]@[w as int] as int));
                            assert forall|i: int| 0 <= i < que@.len() implies xs.contains(
                                que@[i].0 as int,
                            ) by {
                                if i < qb.len() {
                                    assert(que@[i] == qb[i]);
                                }
                            }
                        }
                    }
                    j = j + 1;
                }
                let ghost ot0 = ot@;
                let ghost tb0 = table@;
                ot.push((w, p.copy()));
                table.set(w, Some(p));
                proof {
                    assert(!ot_points(ot0).contains(w as int));
                    assert(ot_points(ot@) =~= ot_points(ot0).insert(w as int)) by {
                        assert(ot@[k].0 == w);
                        assert forall|y: int| ot_points(ot0).contains(y) implies ot_points(
                            ot@,
                        ).contains(y) by {
                            let kk = choose|kk: int| 0 <= kk < ot0.len() && ot0[kk].0 as int == y;
                            assert(ot@[kk] == ot0[kk]);
                        }
                        assert forall|y: int| ot_points(ot@).contains(y) implies ot_points(
                            ot0,
                        ).insert(w as int).contains(y) by {
                            let kk = choose|kk: int| 0 <= kk < ot@.len() && ot@[kk].0 as int == y;
                            if kk < k {
                                assert(ot@[kk] == ot0[kk]);
                            }
                        }
                    }
                    assert(que@.len() == 1 + ot@.len() * m) by (nonlinear_arith)
                        requires
                            que@.len() == q0.len() + m,
                            q0.len() == 1 + k * m,
                            ot@.len() == k + 1,
                    ;
                    assert forall|kk: int, jj: int|
                        0 <= kk < ot@.len() && 0 <= jj < m implies #[trigger] que@[child(
                        kk,
                        m as int,
                        jj,
                    )].0 == gen@[jj]@[#[trigger] ot@[kk].0 as int] by {
                        lemma_child_bound(kk, m as int, jj, ot@.len() as int);
                        if kk < k {
                            lemma_child_bound(kk, m as int, jj, k);
                            assert(ot@[kk] == ot0[kk]);
                            assert(que@[child(kk, m as int, jj)] == q0[child(kk, m as int, jj)]);
                        } else {
                            assert(child(kk, m as int, jj) == q0.len() + jj) by (nonlinear_arith)
                                requires
                                    kk == k,
                                    q0.len() == 1 + k * m,
                            ;
                        }
                    }
                    assert forall|xs: Set<int>| #[trigger] closed_from(xs, v as int, gen@) implies ot_points(
                        ot@,
                    ).subset_of(xs) by {
                        assert(xs.contains(q0[head as int].0 as int));
                    }
                    assert forall|i: int| 0 <= i < head + 1 implies table@[#[trigger] que@[i].0 as int] is Some by {
                        assert(que@[i] == q0[i]);
                    }
                    assert forall|kk: int| 0 <= kk < ot@.len() implies in_group((#[trigger] ot@[kk]).1@, gen@, n as nat) by {
                        if kk < k {
                            assert(ot@[kk] == ot0[kk]);
                        }
                    }
                    assert forall|kk: int, jj: int|
                        0 <= kk < ot@.len() && 0 <= jj < m implies (#[trigger] que@[child(kk, m as int, jj)]).1@
                        == comp(ot@[kk].1@, gen@[jj]@) by {
                        lemma_child_bound(kk, m as int, jj, ot@.len() as int);
                        if kk < k {
                            lemma_child_bound(kk, m as int, jj, k);
                            assert(ot@[kk] == ot0[kk]);
                            assert(que@[child(kk, m as int, jj)] == q0[child(kk, m as int, jj)]);
                        } else {
                            assert(child(kk, m as int, jj) == q0.len() + jj) by (nonlinear_arith)
                                requires
                                    kk == k,
                                    q0.len() == 1 + k * m,
                            ;
                        }
                    }
                    assert forall|kk: int| 0 <= kk < ot@.len() implies table@[(#[trigger] ot@[kk]).0 as int] is Some
                        && table@[ot@[kk].0 as int]->Some_0@ == ot@[kk].1@ by {
                        if kk < k {
                            assert(ot@[kk] == ot0[kk]);
                        }
                    }
                    assert forall|kk: int, jj: int|
                        0 <= kk < ot@.len() && 0 <= jj < m && child(kk, m as int, jj) < head implies #[trigger] schreier_covered(
                        ot@,
                        stab@,
                        gen@,
                        kk,
                        jj,
                        n as nat,
                    ) by {
                        if kk < k {
                            let c = child(kk, m as int, jj);
                            assert(table@[que@[c].0 as int] is Some);
                            assert(que@[c] == q0[c]);
                            assert(tb0[que@[c].0 as int] is Some);
                            lemma_covered_ot_grows(ot0, (w, ot@[k].1), stab@, gen@, kk, jj, n as nat);
                            assert(ot@ == ot0.push((w, ot@[k].1)));
                        } else {
                            lemma_child_bound(kk, m as int, jj, ot@.len() as int);
                            assert(child(kk, m as int, jj) >= 1 + k * m) by (nonlinear_arith)
                                requires
                                    kk == k,
                                    0 <= jj,
                            ;
                        }
                    }
                    if head >= 1 {
                        assert(ot@[ck] == ot0[ck]);
                        assert(p@ == comp(ot@[ck].1@, gen@[cj]@));
                        lemma_comp_inv(p@);
                        assert forall|k2: int|
                            0 <= k2 < ot@.len() && (#[trigger] ot@[k2]).0 == gen@[cj]@[ot@[ck].0 as int] implies {
                                let rr = comp(ot@[k2].1@, inv_seq(comp(ot@[ck].1@, gen@[cj]@)));
                                rr == id_seq(n as nat) || exists|i: int| 0 <= i < stab@.len() && stab@[i]@ == rr
                            } by {
                            if k2 < k {
                                assert(ot@[k2] == ot0[k2]);
                                assert(ot_points(ot0).contains(w as int));
                            }
                        }
                        assert(schreier_covered(ot@, stab@, gen@, ck, cj, n as nat));
                    }
                }
            },
        }
        proof {
            assert forall|kk: int, jj: int|
                0 <= kk < ot@.len() && 0 <= jj < m && child(kk, m as int, jj) < head + 1 implies #[trigger] schreier_covered(
                ot@,
                stab@,
                gen@,
                kk,
                jj,
                n as nat,
            ) by {
                if child(kk, m as int, jj) == head {
                    lemma_child_bound(kk, m as int, jj, ot@.len() as int);
                    lemma_child_inj(kk, jj, ck, cj, m as int);
                }
            }
            if head == 0 {
                ck = 0;
                cj = 0;
            } else if head < que@.len() {
                lemma_next_child(ck, cj, m as int, ot@.len() as int, head as int);
                if cj + 1 < m {
                    cj = cj + 1;
                } else {
                    ck = ck + 1;
                    cj = 0;
                }
            }
        }
        head = head + 1;
    }
    proof {
        assert forall|kk: int, jj: int|
            0 <= kk < ot@.len() && 0 <= jj < gen@.len() implies #[trigger] schreier_covered(
            ot@,
            stab@,
            gen@,
            kk,
            jj,
            n as nat,
        ) by {
            lemma_child_bound(kk, m as int, jj, ot@.len() as int);
        }
        let pts = ot_points(ot@);
        assert(pts.contains(v as int)) by {
            assert(table@[que@[0].0 as int] is Some);
        }
        assert forall|x: int, i: int| #![trigger pts.contains(x), gen@[i]]
            pts.contains(x) && 0 <= i < gen@.len() implies pts.contains(gen@[i]@[x] as int) by {
            let kk = choose|kk: int| 0 <= kk < ot@.len() && ot@[kk].0 as int == x;
            lemma_child_bound(kk, m as int, i, ot@.len() as int);
            let c = child(kk, m as int, i);
            assert(que@[c].0 == gen@[i]@[ot@[kk].0 as int]);
            assert(table@[que@[c].0 as int] is Some);
        }
    }
    (ot, stab)
}

/// The points at which a transversal holds a representative.
pub open spec fn dom(t: Seq<Option<Perm>>) -> Set<int> {
    Set::new(|w: int| 0 <= w < t.len() && t[w] is Some)
}

/// Every base point is below `n`, every table has `n` slots, and every
/// representative is a permutation of degree `n`.
pub open spec fn chain_shape(n: nat, chain: Seq<(usize, Transversal)>) -> bool {
    &&& forall|i: int|
        0 <= i < chain.len() ==> (#[trigger] chain[i].0 as int) < n && chain[i].1@.len() == n
    &&& forall|i: int, w: int|
        0 <= i < chain.len() && 0 <= w < n && (#[trigger] chain[i].1@[w]) is Some ==> is_perm(
            chain[i].1@[w]->Some_0@,
        ) && chain[i].1@[w]->Some_0@.len() == n
}

/// The representative at level `i` for point `w` carries the level's base
/// point to `w` and fixes the base points of all earlier levels.
pub open spec fn rep_ok(chain: Seq<(usize, Transversal)>, i: int, w: int) -> bool {
    let u = chain[i].1@[w]->Some_0@;
    &&& u[chain[i].0 as int] as int == w
    &&& forall|j: int| 0 <= j < i ==> u[#[trigger] chain[j].0 as int] == chain[j].0
}

/// A stabilizer chain whose representatives do what they stand for.
pub open spec fn chain_wf(n: nat, chain: Seq<(usize, Transversal)>) -> bool {
    &&& chain_shape(n, chain)
    &&& forall|i: int, w: int|
        0 <= i < chain.len() && 0 <= w < n && (#[trigger] chain[i].1@[w]) is Some ==> rep_ok(
            chain,
            i,
            w,
        )
}

/// Every representative of the chain fixes `x`.
pub open spec fn chain_fixes(chain: Seq<(usize, Transversal)>, x: int) -> bool {
    forall|i: int, w: int|
        0 <= i < chain.len() && 0 <= w < chain[i].1@.len() && (#[trigger] chain[i].1@[w]) is Some
            ==> chain[i].1@[w]->Some_0@[x] as int == x
}

/// The views of a list of permutations.
pub open spec fn views(s: Seq<Perm>) -> Seq<Seq<usize>> {
    s.map_values(|p: Perm| p@)
}

/// Sifting `g` through the chain: at each level take the representative for
/// the image of the base point and divide it off on the right; stop at the
/// first level with no representative. Returns the representatives taken
/// and what is left.
pub open spec fn sift(g: Seq<usize>, chain: Seq<(usize, Transversal)>) -> (Seq<Seq<usize>>, Seq<usize>)
    decreases chain.len(),
{
    if chain.len() == 0 {
        (Seq::empty(), g)
    } else {
        let t = chain[0].1@;
        let w = g[chain[0].0 as int] as int;
        if 0 <= w < t.len() && t[w] is Some {
            let u = t[w]->Some_0@;
            let rest = sift(comp(g, inv_seq(u)), chain.drop_first());
            (seq![u] + rest.0, rest.1)
        } else {
            (Seq::empty(), g)
        }
    }
}

/// The product that applies `us` from last to first.
pub open spec fn prod_rev(us: Seq<Seq<usize>>, n: nat) -> Seq<usize>
    decreases us.len(),
{
    if us.len() == 0 {
        id_seq(n)
    } else {
        comp(prod_rev(us.drop_first(), n), us[0])
    }
}

pub proof fn lemma_shape_tail(n: nat, chain: Seq<(usize, Transversal)>)
    requires
        chain_shape(n, chain),
        chain.len() > 0,
    ensures
        chain_shape(n, chain.drop_first()),
{
    let tail = chain.drop_first();
    assert forall|i: int, w: int|
        0 <= i < tail.len() && 0 <= w < n && (#[trigger] tail[i].1@[w]) is Some implies is_perm(
        tail[i].1@[w]->Some_0@,
    ) && tail[i].1@[w]->Some_0@.len() == n by {
        assert(tail[i] == chain[i + 1]);
    }
}

/// What sifting leaves is a permutation of degree `n`, and so is every
/// representative taken.
pub proof fn lemma_sift_perm(g: Seq<usize>, chain: Seq<(usize, Transversal)>, n: nat)
    requires
        is_perm(g),
        g.len() == n,
        chain_shape(n, chain),
    ensures
        is_perm(sift(g, chain).1),
        sift(g, chain).1.len() == n,
        sift(g, chain).0.len() <= chain.len(),
        forall|i: int|
            0 <= i < sift(g, chain).0.len() ==> is_perm(#[trigger] sift(g, chain).0[i]) && sift(
                g,
                chain,
            ).0[i].len() == n,
    decreases chain.len(),
{
    if chain.len() > 0 {
        let t = chain[0].1@;
        let w = g[chain[0].0 as int] as int;
        if 0 <= w < t.len() && t[w] is Some {
            let u = t[w]->Some_0@;
            lemma_inv_props(u);
            lemma_comp_perm(g, inv_seq(u));
            lemma_shape_tail(n, chain);
            lemma_sift_perm(comp(g, inv_seq(u)), chain.drop_first(), n);
            let rest = sift(comp(g, inv_seq(u)), chain.drop_first());
            assert forall|i: int| 0 <= i < sift(g, chain).0.len() implies is_perm(
                #[trigger] sift(g, chain).0[i],
            ) && sift(g, chain).0[i].len() == n by {
                if i > 0 {
                    assert(sift(g, chain).0[i] == rest.0[i - 1]);
                }
            }
        }
    }
}

/// Sifting loses nothing: what is left, followed by the representatives
/// taken from the last back to the first, is the element sifted.
pub proof fn lemma_strip_round_trip(g: Seq<usize>, chain: Seq<(usize, Transversal)>, n: nat)
    requires
        is_perm(g),
        g.len() == n,
        chain_shape(n, chain),
    ensures
        comp(sift(g, chain).1, prod_rev(sift(g, chain).0, n)) == g,
    decreases chain.len(),
{
    let res = sift(g, chain);
    if chain.len() == 0 {
        lemma_comp_id(g);
    } else {
        let t = chain[0].1@;
        let w = g[chain[0].0 as int] as int;
        if 0 <= w < t.len() && t[w] is Some {
            let u = t[w]->Some_0@;
            let g1 = comp(g, inv_seq(u));
            lemma_inv_props(u);
            lemma_comp_perm(g, inv_seq(u));
            lemma_shape_tail(n, chain);
            lemma_strip_round_trip(g1, chain.drop_first(), n);
            lemma_sift_perm(g1, chain.drop_first(), n);
            let rest = sift(g1, chain.drop_first());
            assert(res.0.drop_first() =~= rest.0);
            lemma_prod_rev_perm(rest.0, n);
            // res.1 * (P * u) == (res.1 * P) * u == g1 * u == g
            lemma_comp_assoc(rest.1, prod_rev(rest.0, n), u);
            lemma_comp_assoc(g, inv_seq(u), u);
            lemma_comp_inv(u);
            lemma_comp_id(g);
        } else {
            lemma_comp_id(g);
        }
    }
}

proof fn lemma_prod_rev_perm(us: Seq<Seq<usize>>, n: nat)
    requires
        n <= usize::MAX,
        forall|i: int| 0 <= i < us.len() ==> is_perm(#[trigger] us[i]) && us[i].len() == n,
    ensures
        is_perm(prod_rev(us, n)),
        prod_rev(us, n).len() == n,
    decreases us.len(),
{
    if us.len() == 0 {
        assert(is_perm(id_seq(n)));
    } else {
        assert forall|i: int| 0 <= i < us.drop_first().len() implies is_perm(
            #[trigger] us.drop_first()[i],
        ) && us.drop_first()[i].len() == n by {
            assert(us.drop_first()[i] == us[i + 1]);
        }
        lemma_prod_rev_perm(us.drop_first(), n);
        lemma_comp_perm(prod_rev(us.drop_first(), n), us[0]);
    }
}

/// A point fixed by `g` and by every representative is fixed by what
/// sifting leaves.
pub proof fn lemma_sift_fixes(g: Seq<usize>, chain: Seq<(usize, Transversal)>, n: nat, x: int)
    requires
        is_perm(g),
        g.len() == n,
        chain_shape(n, chain),
        0 <= x < n,
        g[x] as int == x,
        chain_fixes(chain, x),
    ensures
        sift(g, chain).1[x] as int == x,
    decreases chain.len(),
{
    if chain.len() > 0 {
        let t = chain[0].1@;
        let w = g[chain[0].0 as int] as int;
        if 0 <= w < t.len() && t[w] is Some {
            let u = t[w]->Some_0@;
            let g1 = comp(g, inv_seq(u));
            lemma_inv_props(u);
            lemma_comp_perm(g, inv_seq(u));
            assert(u[x] as int == x);
            assert(g1[x] as int == x);
            lemma_shape_tail(n, chain);
            let tail = chain.drop_first();
            assert forall|i: int, w2: int|
                0 <= i < tail.len() && 0 <= w2 < tail[i].1@.len() && (#[trigger] tail[i].1@[w2]) is Some
                    implies tail[i].1@[w2]->Some_0@[x] as int == x by {
                assert(tail[i] == chain[i + 1]);
            }
            lemma_sift_fixes(g1, tail, n, x);
        }
    }
}

/// Every representative of the chain lies in the group generated by `gens`.
pub open spec fn chain_in(chain: Seq<(usize, Transversal)>, gens: Seq<Perm>, n: nat) -> bool {
    forall|i: int, w: int|
        0 <= i < chain.len() && 0 <= w < chain[i].1@.len() && (#[trigger] chain[i].1@[w]) is Some
            ==> in_group(chain[i].1@[w]->Some_0@, gens, n)
}

/// Sifting an element of a group through representatives of that group
/// leaves an element of the group.
pub proof fn lemma_sift_in_group(g: Seq<usize>, chain: Seq<(usize, Transversal)>, n: nat, gens: Seq<Perm>)
    requires
        is_perm(g),
        g.len() == n,
        chain_shape(n, chain),
        in_group(g, gens, n),
        chain_in(chain, gens, n),
    ensures
        in_group(sift(g, chain).1, gens, n),
    decreases chain.len(),
{
    if chain.len() > 0 {
        let t = chain[0].1@;
        let w = g[chain[0].0 as int] as int;
        if 0 <= w < t.len() && t[w] is Some {
            let u = t[w]->Some_0@;
            let g1 = comp(g, inv_seq(u));
            lemma_inv_props(u);
            lemma_comp_perm(g, inv_seq(u));
            lemma_group_inv(u, gens, n);
            lemma_group_comp(g, inv_seq(u), gens, n);
            lemma_shape_tail(n, chain);
            let tail = chain.drop_first();
            assert forall|i: int, w2: int|
                0 <= i < tail.len() && 0 <= w2 < tail[i].1@.len() && (#[trigger] tail[i].1@[w2]) is Some
                    implies in_group(tail[i].1@[w2]->Some_0@, gens, n) by {
                assert(tail[i] == chain[i + 1]);
            }
            lemma_sift_in_group(g1, tail, n, gens);
        }
    }
}

pub proof fn lemma_wf_tail(n: nat, chain: Seq<(usize, Transversal)>)
    requires
        chain_wf(n, chain),
        chain.len() > 0,
    ensures
        chain_wf(n, chain.drop_first()),
        chain_fixes(chain.drop_first(), chain[0].0 as int),
{
    lemma_shape_tail(n, chain);
    let tail = chain.drop_first();
    assert forall|i: int, w: int|
        0 <= i < tail.len() && 0 <= w < n && (#[trigger] tail[i].1@[w]) is Some implies rep_ok(
        tail,
        i,
        w,
    ) by {
        assert(tail[i] == chain[i + 1]);
        assert(rep_ok(chain, i + 1, w));
        let u = tail[i].1@[w]->Some_0@;
        assert forall|j: int| 0 <= j < i implies u[#[trigger] tail[j].0 as int] == tail[j].0 by {
            assert(tail[j] == chain[j + 1]);
        }
    }
    assert forall|i: int, w: int|
        0 <= i < tail.len() && 0 <= w < tail[i].1@.len() && (#[trigger] tail[i].1@[w]) is Some
            implies tail[i].1@[w]->Some_0@[chain[0].0 as int] == chain[0].0 by {
        assert(tail[i] == chain[i + 1]);
        assert(rep_ok(chain, i + 1, w));
    }
}

/// Where sifting stops: what is left fixes the base points of every level
/// passed, and at the level where it stopped (if any) the table has no
/// representative for the image of the base point.
pub proof fn lemma_sift_stop(g: Seq<usize>, chain: Seq<(usize, Transversal)>, n: nat)
    requires
        is_perm(g),
        g.len() == n,
        chain_wf(n, chain),
    ensures
        forall|j: int|
            0 <= j < sift(g, chain).0.len() ==> sift(g, chain).1[#[trigger] chain[j].0 as int]
                == chain[j].0,
        sift(g, chain).0.len() < chain.len() ==> chain[sift(g, chain).0.len() as int].1@[sift(
            g,
            chain,
        ).1[chain[sift(g, chain).0.len() as int].0 as int] as int] is None,
    decreases chain.len(),
{
    lemma_sift_perm(g, chain, n);
    if chain.len() > 0 {
        let b0 = chain[0].0 as int;
        let t = chain[0].1@;
        let w = g[b0] as int;
        assert(0 <= w < t.len());
        if t[w] is Some {
            let u = t[w]->Some_0@;
            let g1 = comp(g, inv_seq(u));
            lemma_inv_props(u);
            lemma_comp_perm(g, inv_seq(u));
            assert(rep_ok(chain, 0, w));
            assert(u[b0] as int == w);
            assert(g1[b0] as int == b0);
            let tail = chain.drop_first();
            lemma_wf_tail(n, chain);
            lemma_sift_stop(g1, tail, n);
            lemma_sift_perm(g1, tail, n);
            lemma_sift_fixes(g1, tail, n, b0);
            let res = sift(g, chain);
            let rest = sift(g1, tail);
            assert forall|j: int| 0 <= j < res.0.len() implies res.1[#[trigger] chain[j].0 as int]
                == chain[j].0 by {
                if j > 0 {
                    assert(chain[j] == tail[j - 1]);
                }
            }
            if res.0.len() < chain.len() {
                assert(chain[res.0.len() as int] == tail[rest.0.len() as int]);
            }
        }
    }
}

/// Fills a point-indexed table from an orbit transversal.
pub fn get_transversal(n: usize, orbit_transversal: OrbitTransversal) -> (t: Transversal)
    requires
        forall|k: int|
            0 <= k < orbit_transversal@.len() ==> (#[trigger] orbit_transversal@[k].0 as int) < n,
    ensures
        t@.len() == n,
        dom(t@) == ot_points(orbit_transversal@),
        forall|w: int|
            0 <= w < n && (#[trigger] t@[w]) is Some ==> exists|k: int|
                0 <= k < orbit_transversal@.len() && orbit_transversal@[k].0 as int == w
                    && orbit_transversal@[k].1@ == t@[w]->Some_0@,
{
    let ot = orbit_transversal;
    let mut t: Transversal = Vec::new();
    let mut i: usize = 0;
    while i < n
        invariant
            i <= n,
            t@.len() == i,
            forall|w: int| 0 <= w < i ==> t@[w] is None,
        decreases n - i,
    {
        t.push(None);
        i = i + 1;
    }
    let mut k: usize = 0;
    while k < ot.len()
        invariant
            k <= ot@.len(),
            t@.len() == n,
            forall|kk: int| 0 <= kk < ot@.len() ==> (#[trigger] ot@[kk].0 as int) < n,
            forall|w: int|
                0 <= w < n ==> (#[trigger] t@[w] is Some <==> exists|kk: int|
                    0 <= kk < k && ot@[kk].0 as int == w),
            forall|w: int|
                0 <= w < n && (#[trigger] t@[w]) is Some ==> exists|kk: int|
                    0 <= kk < k && ot@[kk].0 as int == w && ot@[kk].1@ == t@[w]->Some_0@,
        decreases ot@.len() - k,
    {
        let w = ot[k].0;
        let p = ot[k].1.copy();
        t.set(w, Some(p));
        proof {
            assert forall|y: int| 0 <= y < n implies (#[trigger] t@[y] is Some <==> exists|kk: int|
                0 <= kk < k + 1 && ot@[kk].0 as int == y) by {
                if y == w as int {
                    assert(ot@[k as int].0 as int == y);
                }
            }
            assert forall|y: int| 0 <= y < n && (#[trigger] t@[y]) is Some implies exists|kk: int|
                0 <= kk < k + 1 && ot@[kk].0 as int == y && ot@[kk].1@ == t@[y]->Some_0@ by {
                if y == w as int {
                    assert(ot@[k as int].1@ == t@[y]->Some_0@);
                }
            }
        }
        k = k + 1;
    }
    proof {
        assert forall|y: int| dom(t@).contains(y) <==> ot_points(ot@).contains(y) by {
            if ot_points(ot@).contains(y) {
                let kk = choose|kk: int| 0 <= kk < ot@.len() && ot@[kk].0 as int == y;
                assert((ot@[kk].0 as int) < n);
            }
        }
        assert(dom(t@) =~= ot_points(ot@));
    }
    t
}

/// Sifts `g` through the chain (see `sift`): the representatives taken, and
/// what is left.
pub fn strip(g: &Perm, beta_transversals: &[(usize, Transversal)]) -> (r: (Vec<Perm>, Perm))
    requires
        is_perm(g@),
        chain_shape(g@.len(), beta_transversals@),
    ensures
        views(r.0@) == sift(g@, beta_transversals@).0,
        r.1@ == sift(g@, beta_transversals@).1,
{
    proof {
        assert(beta_transversals@.skip(0) =~= beta_transversals@);
    }
    strip_from(g, beta_transversals, 0)
}

/// Sifts `g` through the levels of the chain from `start` on.
pub fn strip_from(g: &Perm, beta_transversals: &[(usize, Transversal)], start: usize) -> (r: (
    Vec<Perm>,
    Perm,
))
    requires
        is_perm(g@),
        start <= beta_transversals@.len(),
        chain_shape(g@.len(), beta_transversals@.skip(start as int)),
    ensures
        views(r.0@) == sift(g@, beta_transversals@.skip(start as int)).0,
        r.1@ == sift(g@, beta_transversals@.skip(start as int)).1,
{
    let ghost n = g@.len();
    let ghost c0 = beta_transversals@.skip(start as int);
    let mut h = g.copy();
    let mut us: Vec<Perm> = Vec::new();
    let mut i: usize = start;
    proof {
        assert(views(us@) =~= Seq::<Seq<usize>>::empty());
        assert(views(us@) + sift(h@, c0).0 =~= sift(h@, c0).0);
    }
    while i < beta_transversals.len()
        invariant
            n == g@.len(),
            is_perm(h@),
            h@.len() == n,
            chain_shape(n, c0),
            start <= i <= beta_transversals@.len(),
            c0 == beta_transversals@.skip(start as int),
            sift(g@, c0) == (views(us@) + sift(
                h@,
                beta_transversals@.skip(i as int),
            ).0, sift(h@, beta_transversals@.skip(i as int)).1),
        ensures
            sift(g@, c0).0 == views(us@),
            sift(g@, c0).1 == h@,
        decreases beta_transversals@.len() - i,
    {
        let ghost rest = beta_transversals@.skip(i as int);
        proof {
            assert(rest[0] == beta_transversals@[i as int]);
            assert(c0[i - start] == beta_transversals@[i as int]);
        }
        let beta = beta_transversals[i].0;
        let moved_to = h.at(beta);
        let transversal = &beta_transversals[i].1;
        if transversal[moved_to].is_none() {
            proof {
                assert(rest.len() > 0);
                assert(rest[0].1@[moved_to as int] is None);
                assert(h@[rest[0].0 as int] == moved_to);
                assert(sift(h@, rest) == (Seq::<Seq<usize>>::empty(), h@));
                assert(views(us@) + Seq::<Seq<usize>>::empty() =~= views(us@));
            }
            break;
        }
        let repr = transversal[moved_to].as_ref().unwrap();
        let ghost h0 = h@;
        h = h.compose(&repr.inv());
        us.push(repr.copy());
        proof {
            assert(rest.drop_first() =~= beta_transversals@.skip(i + 1));
            lemma_inv_props(repr@);
            assert(views(us@) =~= views(us@.drop_last()).push(repr@));
            assert(us@.drop_last() =~= us@.subrange(0, us@.len() - 1));
            let s1 = sift(h@, beta_transversals@.skip(i + 1));
            assert(sift(h0, rest) == (seq![repr@] + s1.0, s1.1));
            assert(views(us@) + s1.0 =~= views(us@.drop_last()) + (seq![repr@] + s1.0));
        }
        i = i + 1;
        proof {
            if i == beta_transversals.len() {
                assert(beta_transversals@.skip(i as int) =~= Seq::<(usize, Transversal)>::empty());
                assert(views(us@) + Seq::<Seq<usize>>::empty() =~= views(us@));
            }
        }
    }
    (us, h)
}

} // verus!
