//! Permutations written as products of cycles.
use crate::perm::{comp, id_seq, is_perm, Perm};
use vstd::prelude::*;

verus! {

/// The cycle lists distinct points below `n`.
pub open spec fn is_cycle(c: Seq<usize>, n: nat) -> bool {
    &&& forall|i: int| 0 <= i < c.len() ==> (#[trigger] c[i] as int) < n
    &&& forall|i: int, j: int| 0 <= i < c.len() && 0 <= j < c.len() && i != j ==> #[trigger] c[i] != #[trigger] c[j]
}

/// The position after `i` in a cycle of length `len`.
pub open spec fn next_index(i: int, len: int) -> int {
    if i + 1 == len {
        0
    } else {
        i + 1
    }
}

/// The position of `x` in the cycle.
pub open spec fn cycle_pos(c: Seq<usize>, x: int) -> int {
    choose|i: int| 0 <= i < c.len() && c[i] as int == x
}

/// The cycle as a permutation of degree `n`: each listed point goes to the
/// next one (the last to the first), every other point stays.
pub open spec fn cycle_seq(c: Seq<usize>, n: nat) -> Seq<usize> {
    Seq::new(
        n,
        |x: int|
            if exists|i: int| 0 <= i < c.len() && c[i] as int == x {
                c[next_index(cycle_pos(c, x), c.len() as int)]
            } else {
                x as usize
            },
    )
}

/// The cycles applied one after the other, the first one first.
pub open spec fn cycles_product(cs: Seq<Seq<usize>>, n: nat) -> Seq<usize>
    decreases cs.len(),
{
    if cs.len() == 0 {
        id_seq(n)
    } else {
        comp(cycles_product(cs.drop_last(), n), cycle_seq(cs.last(), n))
    }
}

proof fn lemma_cycle_perm(c: Seq<usize>, n: nat)
    requires
        is_cycle(c, n),
        n <= usize::MAX,
    ensures
        is_perm(cycle_seq(c, n)),
{
    let p = cycle_seq(c, n);
    assert forall|x: int| 0 <= x < n implies (#[trigger] p[x] as int) < n by {
        if exists|i: int| 0 <= i < c.len() && c[i] as int == x {
            let i = cycle_pos(c, x);
            assert(0 <= next_index(i, c.len() as int) < c.len());
        }
    }
    assert forall|x: int, y: int| 0 <= x < n && 0 <= y < n && x != y implies #[trigger] p[x] != #[trigger] p[y] by {
        let inx = exists|i: int| 0 <= i < c.len() && c[i] as int == x;
        let iny = exists|i: int| 0 <= i < c.len() && c[i] as int == y;
        if inx && iny {
            let i = cycle_pos(c, x);
            let j = cycle_pos(c, y);
            assert(i != j);
            assert(next_index(i, c.len() as int) != next_index(j, c.len() as int));
        } else if inx {
            let i = cycle_pos(c, x);
            let k = next_index(i, c.len() as int);
            assert(c[k] as int != y);
        } else if iny {
            let j = cycle_pos(c, y);
            let k = next_index(j, c.len() as int);
            assert(c[k] as int != x);
        }
    }
}

/// The cycle `a` as a permutation of degree `n`.
fn cycle_perm(n: usize, a: &Vec<usize>) -> (r: Perm)
    requires
        is_cycle(a@, n as nat),
    ensures
        r@ == cycle_seq(a@, n as nat),
        is_perm(r@),
{
    let mut t: Vec<usize> = Vec::with_capacity(n);
    let mut x: usize = 0;
    while x < n
        invariant
            x <= n,
            t@ == id_seq(x as nat),
        decreases n - x,
    {
        t.push(x);
        x = x + 1;
        proof {
            assert(t@ =~= id_seq(x as nat));
        }
    }
    let len = a.len();
    let mut i: usize = 0;
    while i < len
        invariant
            len == a@.len(),
            is_cycle(a@, n as nat),
            t@.len() == n,
            i <= len,
            forall|k: int| 0 <= k < i ==> t@[#[trigger] a@[k] as int] == a@[next_index(k, len as int)],
            forall|y: int|
                0 <= y < n && (forall|k: int| 0 <= k < i ==> a@[k] as int != y) ==> t@[y] as int == y,
        decreases len - i,
    {
        let nxt = if i + 1 == len {
            0
        } else {
            i + 1
        };
        t.set(a[i], a[nxt]);
        proof {
            assert forall|k: int| 0 <= k < i + 1 implies t@[#[trigger] a@[k] as int] == a@[next_index(k, len as int)] by {
                if k < i {
                    assert(a@[k] != a@[i as int]);
                }
            }
        }
        i = i + 1;
    }
    proof {
        assert forall|y: int| 0 <= y < n implies t@[y] == cycle_seq(a@, n as nat)[y] by {
            if exists|k: int| 0 <= k < len && a@[k] as int == y {
                let k = cycle_pos(a@, y);
                assert(t@[a@[k] as int] == a@[next_index(k, len as int)]);
            }
        }
        assert(t@ =~= cycle_seq(a@, n as nat));
        lemma_cycle_perm(a@, n as nat);
    }
    Perm::new(t)
}

/// The product of the cycles, the first one applied first.
pub fn get_cycle(n: usize, a: &[Vec<usize>]) -> (r: Perm)
    requires
        forall|k: int| 0 <= k < a@.len() ==> is_cycle(#[trigger] a@[k]@, n as nat),
    ensures
        r@ == cycles_product(a@.map_values(|c: Vec<usize>| c@), n as nat),
        is_perm(r@),
        r@.len() == n,
{
    let ghost cs = a@.map_values(|c: Vec<usize>| c@);
    let mut e = Perm::e(n);
    let mut k: usize = 0;
    proof {
        assert(cs.subrange(0, 0) =~= Seq::<Seq<usize>>::empty());
    }
    while k < a.len()
        invariant
            k <= a@.len(),
            cs == a@.map_values(|c: Vec<usize>| c@),
            forall|j: int| 0 <= j < a@.len() ==> is_cycle(#[trigger] a@[j]@, n as nat),
            e@ == cycles_product(cs.subrange(0, k as int), n as nat),
            is_perm(e@),
            e@.len() == n,
        decreases a@.len() - k,
    {
        let c = cycle_perm(n, &a[k]);
        e = e.compose(&c);
        proof {
            let sub = cs.subrange(0, k + 1);
            assert(sub.drop_last() =~= cs.subrange(0, k as int));
            assert(sub.last() == a@[k as int]@);
        }
        k = k + 1;
    }
    proof {
        assert(cs.subrange(0, k as int) =~= cs);
    }
    e
}

} // verus!
