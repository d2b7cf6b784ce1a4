//! Permutations of `{0, ..., n-1}` stored as image arrays.
use vstd::prelude::*;
use vstd::set_lib::{lemma_int_range, lemma_len_subset, set_int_range};

verus! {

/// `s` is a bijection of `{0, ..., s.len()-1}`: every image is in range and
/// no two points share an image.
pub open spec fn is_perm(s: Seq<usize>) -> bool {
    &&& s.len() <= usize::MAX
    &&& forall|i: int| 0 <= i < s.len() ==> (#[trigger] s[i] as int) < s.len()
    &&& forall|i: int, j: int|
        0 <= i < s.len() && 0 <= j < s.len() && i != j ==> #[trigger] s[i] != #[trigger] s[j]
}

/// The identity of degree `n`.
pub open spec fn id_seq(n: nat) -> Seq<usize> {
    Seq::new(n, |i: int| i as usize)
}

/// First `a`, then `b`: the point `i` goes to `b[a[i]]`.
pub open spec fn comp(a: Seq<usize>, b: Seq<usize>) -> Seq<usize> {
    Seq::new(a.len(), |i: int| b[a[i] as int])
}

/// The preimage of `x` under `a`.
pub open spec fn preimage(a: Seq<usize>, x: int) -> usize {
    (choose|j: int| 0 <= j < a.len() && a[j] as int == x) as usize
}

/// The inverse permutation.
pub open spec fn inv_seq(a: Seq<usize>) -> Seq<usize> {
    Seq::new(a.len(), |x: int| preimage(a, x))
}

/// `a` applied `k` times.
pub open spec fn pow_nat(a: Seq<usize>, k: nat) -> Seq<usize>
    decreases k,
{
    if k == 0 {
        id_seq(a.len())
    } else {
        comp(pow_nat(a, (k - 1) as nat), a)
    }
}

/// `a` to the (possibly negative) power `k`.
pub open spec fn pow_int(a: Seq<usize>, k: int) -> Seq<usize> {
    if k >= 0 {
        pow_nat(a, k as nat)
    } else {
        pow_nat(inv_seq(a), (-k) as nat)
    }
}

/// `a` on the first points, `b` shifted past them on the rest.
pub open spec fn concat_seq(a: Seq<usize>, b: Seq<usize>) -> Seq<usize> {
    a + b.map_values(|x: usize| (a.len() + x) as usize)
}

/// Number of `j < i` with `s[j] > s[i]`, counting only `j < upto`.
pub open spec fn inversions_at(s: Seq<usize>, i: int, upto: int) -> nat
    decreases upto,
{
    if upto <= 0 {
        0
    } else {
        inversions_at(s, i, upto - 1) + if s[upto - 1] > s[i] { 1nat } else { 0nat }
    }
}

/// Number of inversions among the first `upto` positions.
pub open spec fn inversions(s: Seq<usize>, upto: int) -> nat
    decreases upto,
{
    if upto <= 0 {
        0
    } else {
        inversions(s, upto - 1) + inversions_at(s, upto - 1, upto - 1)
    }
}

/// `+1` for an even number of inversions, `-1` for an odd one.
pub open spec fn sign_of(count: nat) -> int {
    if count % 2 == 0 {
        1
    } else {
        -1
    }
}

/// The image set of the first `k` points.
spec fn image_prefix(a: Seq<usize>, k: int) -> Set<int> {
    Set::new(|x: int| exists|j: int| 0 <= j < k && a[j] as int == x)
}

proof fn lemma_image_prefix_len(a: Seq<usize>, k: int)
    requires
        is_perm(a),
        0 <= k <= a.len(),
    ensures
        image_prefix(a, k).finite(),
        image_prefix(a, k).len() == k,
    decreases k,
{
    if k == 0 {
        assert(image_prefix(a, 0) =~= Set::empty());
    } else {
        lemma_image_prefix_len(a, k - 1);
        let x = a[k - 1] as int;
        assert(!image_prefix(a, k - 1).contains(x));
        assert(image_prefix(a, k) =~= image_prefix(a, k - 1).insert(x));
    }
}

/// A permutation hits every point: pigeonhole on the image set.
pub proof fn lemma_surjective(a: Seq<usize>, x: int)
    requires
        is_perm(a),
        0 <= x < a.len(),
    ensures
        exists|j: int| 0 <= j < a.len() && a[j] as int == x,
{
    let n = a.len() as int;
    lemma_image_prefix_len(a, n);
    let img = image_prefix(a, n);
    if !img.contains(x) {
        let rest = set_int_range(0, n).remove(x);
        lemma_int_range(0, n);
        assert(img.subset_of(rest));
        lemma_len_subset(img, rest);
    }
}

pub proof fn lemma_inv_props(a: Seq<usize>)
    requires
        is_perm(a),
    ensures
        is_perm(inv_seq(a)),
        inv_seq(a).len() == a.len(),
        forall|i: int| 0 <= i < a.len() ==> #[trigger] inv_seq(a)[a[i] as int] as int == i,
        forall|x: int| 0 <= x < a.len() ==> #[trigger] a[inv_seq(a)[x] as int] as int == x,
{
    assert forall|x: int| 0 <= x < a.len() implies 0 <= #[trigger] inv_seq(a)[x] < a.len()
        && a[inv_seq(a)[x] as int] as int == x by {
        lemma_surjective(a, x);
    }
    assert forall|i: int| 0 <= i < a.len() implies #[trigger] inv_seq(a)[a[i] as int] as int
        == i by {
        let x = a[i] as int;
        let j = inv_seq(a)[x] as int;
        assert(a[j] as int == x);
    }
}

pub proof fn lemma_comp_perm(a: Seq<usize>, b: Seq<usize>)
    requires
        is_perm(a),
        is_perm(b),
        a.len() == b.len(),
    ensures
        is_perm(comp(a, b)),
        comp(a, b).len() == a.len(),
{
    let c = comp(a, b);
    assert forall|i: int, j: int|
        0 <= i < c.len() && 0 <= j < c.len() && i != j implies #[trigger] c[i] != #[trigger] c[j] by {
        assert(a[i] != a[j]);
    }
}

pub proof fn lemma_comp_assoc(a: Seq<usize>, b: Seq<usize>, c: Seq<usize>)
    requires
        is_perm(a),
        is_perm(b),
        is_perm(c),
        a.len() == b.len(),
        b.len() == c.len(),
    ensures
        comp(comp(a, b), c) == comp(a, comp(b, c)),
{
    assert(comp(comp(a, b), c) =~= comp(a, comp(b, c)));
}

pub proof fn lemma_comp_id(a: Seq<usize>)
    requires
        is_perm(a),
    ensures
        comp(a, id_seq(a.len())) == a,
        comp(id_seq(a.len()), a) == a,
        is_perm(id_seq(a.len())),
{
    assert(comp(a, id_seq(a.len())) =~= a);
    assert(comp(id_seq(a.len()), a) =~= a);
}

pub proof fn lemma_comp_inv(a: Seq<usize>)
    requires
        is_perm(a),
    ensures
        comp(a, inv_seq(a)) == id_seq(a.len()),
        comp(inv_seq(a), a) == id_seq(a.len()),
{
    lemma_inv_props(a);
    assert(comp(a, inv_seq(a)) =~= id_seq(a.len()));
    assert(comp(inv_seq(a), a) =~= id_seq(a.len()));
}

pub proof fn lemma_pow_perm(a: Seq<usize>, k: nat)
    requires
        is_perm(a),
    ensures
        is_perm(pow_nat(a, k)),
        pow_nat(a, k).len() == a.len(),
    decreases k,
{
    if k == 0 {
        lemma_comp_id(a);
    } else {
        lemma_pow_perm(a, (k - 1) as nat);
        lemma_comp_perm(pow_nat(a, (k - 1) as nat), a);
    }
}

/// `a^x` followed by `a^y` is `a^(x+y)`.
pub proof fn lemma_pow_add(a: Seq<usize>, x: nat, y: nat)
    requires
        is_perm(a),
    ensures
        comp(pow_nat(a, x), pow_nat(a, y)) == pow_nat(a, x + y),
    decreases y,
{
    lemma_pow_perm(a, x);
    if y == 0 {
        lemma_comp_id(pow_nat(a, x));
    } else {
        let y1 = (y - 1) as nat;
        lemma_pow_add(a, x, y1);
        lemma_pow_perm(a, y1);
        lemma_comp_assoc(pow_nat(a, x), pow_nat(a, y1), a);
        assert(pow_nat(a, x + y) == comp(pow_nat(a, (x + y1) as nat), a));
    }
}

/// A right inverse is the inverse.
pub proof fn lemma_inv_unique(x: Seq<usize>, y: Seq<usize>)
    requires
        is_perm(x),
        is_perm(y),
        x.len() == y.len(),
        comp(x, y) == id_seq(x.len()),
    ensures
        y == inv_seq(x),
{
    lemma_inv_props(x);
    assert forall|j: int| 0 <= j < x.len() implies y[j] == inv_seq(x)[j] by {
        let i = inv_seq(x)[j] as int;
        assert(x[i] as int == j);
        assert(comp(x, y)[i] == id_seq(x.len())[i]);
    }
    assert(y =~= inv_seq(x));
}

pub proof fn lemma_inv_inv(a: Seq<usize>)
    requires
        is_perm(a),
    ensures
        inv_seq(inv_seq(a)) == a,
{
    lemma_inv_props(a);
    lemma_comp_inv(a);
    assert(comp(inv_seq(a), a) == id_seq(a.len()));
    lemma_inv_unique(inv_seq(a), a);
}

/// Composing on the right with one permutation is injective.
pub proof fn lemma_right_cancel(x: Seq<usize>, y: Seq<usize>, p: Seq<usize>)
    requires
        is_perm(x),
        is_perm(y),
        is_perm(p),
        x.len() == p.len(),
        y.len() == p.len(),
        comp(x, p) == comp(y, p),
    ensures
        x == y,
{
    assert forall|i: int| 0 <= i < x.len() implies x[i] == y[i] by {
        let a = x[i] as int;
        let b = y[i] as int;
        assert(comp(x, p)[i] == p[a]);
        assert(comp(y, p)[i] == p[b]);
        assert(0 <= a < p.len() && 0 <= b < p.len());
        if a != b {
            assert(p[a] != p[b]);
        }
    }
    assert(x =~= y);
}

/// The permutation type: `self.0[i]` is the image of `i`.
#[derive(Clone, Debug, Eq)]
pub struct Perm(Vec<usize>);

impl View for Perm {
    type V = Seq<usize>;

    closed spec fn view(&self) -> Seq<usize> {
        self.0@
    }
}

impl PartialEq for Perm {
    fn eq(&self, other: &Perm) -> (r: bool) {
        let n = self.0.len();
        if n != other.0.len() {
            return false;
        }
        let mut i: usize = 0;
        while i < n
            invariant
                n == self.0@.len(),
                n == other.0@.len(),
                i <= n,
                forall|j: int| 0 <= j < i ==> self.0@[j] == other.0@[j],
            decreases n - i,
        {
            if self.0[i] != other.0[i] {
                return false;
            }
            i = i + 1;
        }
        proof {
            assert(self.0@ =~= other.0@);
        }
        true
    }
}

impl vstd::std_specs::cmp::PartialEqSpecImpl for Perm {
    open spec fn obeys_eq_spec() -> bool {
        true
    }

    open spec fn eq_spec(&self, other: &Perm) -> bool {
        self@ == other@
    }
}

/// Whether `v` lists each of `0, ..., v.len()-1` exactly once.
pub fn is_permutation(v: &Vec<usize>) -> (r: bool)
    ensures
        r == is_perm(v@),
{
    let n = v.len();
    let mut appear: Vec<bool> = vec![false; n];
    let mut i: usize = 0;
    while i < n
        invariant
            n == v@.len(),
            appear@.len() == n,
            i <= n,
            forall|j: int| 0 <= j < i ==> (v@[j] as int) < n,
            forall|j: int, k: int| 0 <= j < i && 0 <= k < i && j != k ==> v@[j] != v@[k],
            forall|x: int|
                0 <= x < n ==> (appear@[x] <==> exists|j: int| 0 <= j < i && v@[j] as int == x),
        decreases n - i,
    {
        let p = v[i];
        if p >= n || appear[p] {
            return false;
        }
        appear.set(p, true);
        i = i + 1;
    }
    true
}

impl Perm {
    /// Wraps an image array; it must be a bijection.
    pub fn new(perm: Vec<usize>) -> (r: Perm)
        requires
            is_perm(perm@),
        ensures
            r@ == perm@,
    {
        Perm(perm)
    }

    /// The degree `n`.
    pub fn size(&self) -> (r: usize)
        ensures
            r == self@.len(),
    {
        self.0.len()
    }

    /// The image of `i`.
    pub fn at(&self, i: usize) -> (r: usize)
        requires
            i < self@.len(),
        ensures
            r == self@[i as int],
    {
        self.0[i]
    }

    /// A copy with the same images.
    pub fn copy(&self) -> (r: Perm)
        ensures
            r@ == self@,
    {
        let n = self.0.len();
        let mut v: Vec<usize> = Vec::with_capacity(n);
        let mut i: usize = 0;
        while i < n
            invariant
                n == self@.len(),
                i <= n,
                v@ == self@.subrange(0, i as int),
            decreases n - i,
        {
            v.push(self.0[i]);
            i = i + 1;
            proof {
                assert(v@ =~= self@.subrange(0, i as int));
            }
        }
        proof {
            assert(v@ =~= self@);
        }
        Perm(v)
    }

    /// First `self`, then `other`.
    pub fn compose(&self, other: &Self) -> (r: Self)
        requires
            is_perm(self@),
            is_perm(other@),
            self@.len() == other@.len(),
        ensures
            r@ == comp(self@, other@),
            is_perm(r@),
    {
        let n = self.0.len();
        let mut ans: Vec<usize> = vec![0; n];
        let mut i: usize = 0;
        while i < n
            invariant
                n == self@.len(),
                n == other@.len(),
                is_perm(self@),
                ans@.len() == n,
                i <= n,
                forall|j: int| 0 <= j < i ==> ans@[j] == other@[self@[j] as int],
            decreases n - i,
        {
            ans.set(i, other.0[self.0[i]]);
            i = i + 1;
        }
        proof {
            assert(ans@ =~= comp(self@, other@));
            lemma_comp_perm(self@, other@);
        }
        Perm(ans)
    }

    /// The identity of degree `n`.
    pub fn e(n: usize) -> (r: Self)
        ensures
            r@ == id_seq(n as nat),
            is_perm(r@),
    {
        let mut v: Vec<usize> = Vec::with_capacity(n);
        let mut i: usize = 0;
        while i < n
            invariant
                i <= n,
                v@ == id_seq(i as nat),
            decreases n - i,
        {
            v.push(i);
            i = i + 1;
            proof {
                assert(v@ =~= id_seq(i as nat));
            }
        }
        Perm(v)
    }

    /// The inverse permutation.
    pub fn inv(&self) -> (r: Self)
        requires
            is_perm(self@),
        ensures
            r@ == inv_seq(self@),
            is_perm(r@),
    {
        let n = self.0.len();
        let mut ans: Vec<usize> = vec![0; n];
        let mut i: usize = 0;
        proof {
            lemma_inv_props(self@);
        }
        while i < n
            invariant
                n == self@.len(),
                is_perm(self@),
                is_perm(inv_seq(self@)),
                forall|k: int| 0 <= k < n ==> #[trigger] inv_seq(self@)[self@[k] as int] as int == k,
                ans@.len() == n,
                i <= n,
                forall|j: int| 0 <= j < i ==> ans@[self@[j] as int] as int == j,
                forall|x: int|
                    0 <= x < n && (inv_seq(self@)[x] as int) < i ==> ans@[x] == inv_seq(self@)[x],
            decreases n - i,
        {
            let ghost before = ans@;
            ans.set(self.0[i], i);
            proof {
                assert forall|x: int|
                    0 <= x < n && (inv_seq(self@)[x] as int) < i + 1 implies ans@[x] == inv_seq(
                    self@,
                )[x] by {
                    lemma_inv_props(self@);
                    if x != self@[i as int] as int {
                        let j = inv_seq(self@)[x] as int;
                        assert(self@[j] as int == x);
                        assert(j != i);
                    }
                }
            }
            i = i + 1;
        }
        proof {
            assert(ans@ =~= inv_seq(self@));
        }
        Perm(ans)
    }

    /// `self` to the power `k`; a negative `k` takes powers of the inverse.
    pub fn pow(&self, k: i64) -> (r: Self)
        requires
            is_perm(self@),
        ensures
            r@ == pow_int(self@, k as int),
            is_perm(r@),
    {
        let n = self.size();
        let mut sum = Self::e(n);
        if k == 0 {
            return sum;
        }
        let base = if k < 0 {
            self.inv()
        } else {
            self.copy()
        };
        let mut cur = base.copy();
        let mut rest: u64 = if k < 0 {
            ((-(k + 1)) as u64) + 1
        } else {
            k as u64
        };
        let ghost total: nat = rest as nat;
        let ghost step: nat = 1;
        let ghost done: nat = 0;
        proof {
            lemma_inv_props(self@);
            lemma_comp_id(base@);
            assert(pow_nat(base@, 0) == id_seq(base@.len()));
            assert(pow_nat(base@, 1) == comp(pow_nat(base@, 0), base@));
        }
        while rest > 0
            invariant
                is_perm(base@),
                base@.len() == n,
                sum@ == pow_nat(base@, done),
                cur@ == pow_nat(base@, step),
                done + step * rest == total,
            decreases rest,
        {
            let ghost r0 = rest as int;
            let ghost d0 = done as int;
            let ghost s0 = step as int;
            proof {
                lemma_pow_perm(base@, done);
                lemma_pow_perm(base@, step);
            }
            if rest % 2 == 1 {
                sum = sum.compose(&cur);
                proof {
                    lemma_pow_add(base@, done, step);
                    done = done + step;
                }
            }
            cur = cur.compose(&cur);
            proof {
                lemma_pow_add(base@, step, step);
                step = step + step;
            }
            rest = rest / 2;
            proof {
                if r0 % 2 == 1 {
                    assert(done == d0 + s0);
                    assert(s0 * (r0 % 2) == s0);
                } else {
                    assert(done == d0);
                    assert(r0 % 2 == 0);
                    assert(s0 * (r0 % 2) == 0) by (nonlinear_arith)
                        requires
                            r0 % 2 == 0,
                    ;
                }
                assert(s0 * r0 == s0 * (r0 % 2) + (2 * s0) * (r0 / 2)) by (nonlinear_arith);
            }
        }
        proof {
            assert(done == total);
            lemma_pow_perm(base@, total);
        }
        sum
    }

    /// `self` on the first points, `a` shifted past them on the rest.
    pub fn concat(&self, a: &Perm) -> (r: Perm)
        requires
            is_perm(self@),
            is_perm(a@),
            self@.len() + a@.len() <= usize::MAX,
        ensures
            r@ == concat_seq(self@, a@),
            is_perm(r@),
    {
        let n = self.0.len();
        let m = a.0.len();
        let mut v: Vec<usize> = vec![0; n + m];
        let mut i: usize = 0;
        while i < n
            invariant
                n == self@.len(),
                v@.len() == n + m,
                i <= n,
                forall|j: int| 0 <= j < i ==> v@[j] == self@[j],
            decreases n - i,
        {
            v.set(i, self.0[i]);
            i = i + 1;
        }
        let mut i: usize = 0;
        while i < m
            invariant
                n == self@.len(),
                m == a@.len(),
                is_perm(a@),
                n + m <= usize::MAX,
                v@.len() == n + m,
                i <= m,
                forall|j: int| 0 <= j < n ==> v@[j] == self@[j],
                forall|j: int| 0 <= j < i ==> v@[n + j] == n + a@[j],
            decreases m - i,
        {
            v.set(n + i, n + a.0[i]);
            i = i + 1;
        }
        proof {
            let c = concat_seq(self@, a@);
            assert(v@ =~= c);
            assert forall|i: int, j: int|
                0 <= i < c.len() && 0 <= j < c.len() && i != j implies #[trigger] c[i]
                != #[trigger] c[j] by {
                if i >= n && j >= n {
                    assert(a@[i - n] != a@[j - n]);
                }
            }
        }
        Perm(v)
    }

    /// `1` for an even permutation, `-1` for an odd one, by counting inversions.
    pub fn sgn(&self) -> (r: i8)
        ensures
            r as int == sign_of(inversions(self@, self@.len() as int)),
    {
        let n = self.size();
        let mut ans: i8 = 1;
        let mut i: usize = 0;
        while i < n
            invariant
                n == self@.len(),
                i <= n,
                ans as int == sign_of(inversions(self@, i as int)),
            decreases n - i,
        {
            let mut j: usize = 0;
            while j < i
                invariant
                    n == self@.len(),
                    j <= i < n,
                    ans as int == sign_of(inversions(self@, i as int) + inversions_at(self@, i as int, j as int)),
                decreases i - j,
            {
                if self.0[j] > self.0[i] {
                    ans = -ans;
                }
                j = j + 1;
            }
            i = i + 1;
        }
        ans
    }
}

/// `n!`
pub open spec fn factorial(n: nat) -> nat
    decreases n,
{
    if n == 0 {
        1
    } else {
        n * factorial((n - 1) as nat)
    }
}

/// `f` followed by `q` with every image from `f` on moved up by one: the
/// permutation of one more point that starts with `f` and orders the rest as
/// `q` does.
pub open spec fn lift(q: Seq<usize>, f: usize) -> Seq<usize> {
    seq![f] + q.map_values(|x: usize| if x >= f { (x + 1) as usize } else { x })
}

/// Each entry lies lexicographically below the next.
pub open spec fn lex_increasing(s: Seq<Perm>) -> bool {
    forall|i: int| 0 <= i < s.len() - 1 ==> crate::transversal::lex_lt(#[trigger] s[i]@, s[i + 1]@)
}

proof fn lemma_increasing_sorted(s: Seq<Perm>)
    requires
        lex_increasing(s),
    ensures
        crate::transversal::strictly_sorted(s),
{
    assert forall|i: int, j: int| 0 <= i < j < s.len() implies crate::transversal::lex_lt(
        #[trigger] s[i]@,
        #[trigger] s[j]@,
    ) by {
        lemma_increasing_from(s, i, j);
    }
}

proof fn lemma_increasing_from(s: Seq<Perm>, i: int, j: int)
    requires
        lex_increasing(s),
        0 <= i < j < s.len(),
    ensures
        crate::transversal::lex_lt(s[i]@, s[j]@),
    decreases j - i,
{
    if j > i + 1 {
        lemma_increasing_from(s, i, j - 1);
        assert(crate::transversal::lex_lt(s[j - 1]@, s[j]@));
        crate::transversal::lemma_lex_trans(s[i]@, s[j - 1]@, s[j]@);
    }
}

proof fn lemma_lift_perm(q: Seq<usize>, f: usize)
    requires
        is_perm(q),
        (f as int) <= q.len(),
        q.len() < usize::MAX,
    ensures
        is_perm(lift(q, f)),
        lift(q, f).len() == q.len() + 1,
{
    let l = lift(q, f);
    assert forall|i: int, j: int| 0 <= i < l.len() && 0 <= j < l.len() && i != j implies #[trigger] l[i]
        != #[trigger] l[j] by {
        if i > 0 && j > 0 {
            assert(q[i - 1] != q[j - 1]);
        }
    }
}

proof fn lemma_lift_mono(q1: Seq<usize>, q2: Seq<usize>, f: usize)
    requires
        crate::transversal::lex_lt(q1, q2),
        forall|i: int| 0 <= i < q1.len() ==> (#[trigger] q1[i] as int) < usize::MAX,
        forall|i: int| 0 <= i < q2.len() ==> (#[trigger] q2[i] as int) < usize::MAX,
    ensures
        crate::transversal::lex_lt(lift(q1, f), lift(q2, f)),
{
    let i = choose|i: int|
        0 <= i < q1.len() && q1[i] < q2[i] && forall|j: int| 0 <= j < i ==> q1[j] == q2[j];
    let l1 = lift(q1, f);
    let l2 = lift(q2, f);
    assert(l1[i + 1] < l2[i + 1]);
    assert forall|j: int| 0 <= j < i + 1 implies l1[j] == l2[j] by {
        if j > 0 {
            assert(q1[j - 1] == q2[j - 1]);
        }
    }
}

/// All permutations of degree `n`, in lexicographic order.
pub fn all_permutations(n: usize) -> (r: Vec<Perm>)
    requires
        factorial(n as nat) <= usize::MAX,
    ensures
        r@.len() == factorial(n as nat),
        crate::transversal::perms_of(r@, n as nat),
        crate::transversal::strictly_sorted(r@),
    decreases n,
{
    if n == 0 {
        let mut r: Vec<Perm> = Vec::new();
        r.push(Perm::e(0));
        return r;
    }
    proof {
        assert(factorial((n - 1) as nat) <= factorial(n as nat)) by (nonlinear_arith)
            requires
                factorial(n as nat) == n * factorial((n - 1) as nat),
                n >= 1,
        ;
    }
    let sub = all_permutations(n - 1);
    let ghost fs = sub@.len() as int;
    proof {
        lemma_increasing_sorted_rev(sub@);
    }
    let mut r: Vec<Perm> = Vec::new();
    let mut f: usize = 0;
    while f < n
        invariant
            1 <= n,
            f <= n,
            fs == sub@.len(),
            fs == factorial((n - 1) as nat),
            factorial(n as nat) <= usize::MAX,
            crate::transversal::perms_of(sub@, (n - 1) as nat),
            crate::transversal::strictly_sorted(sub@),
            r@.len() == f * fs,
            crate::transversal::perms_of(r@, n as nat),
            lex_increasing(r@),
            r@.len() > 0 ==> r@.last()@[0] as int == f - 1,
        decreases n - f,
    {
        let mut t: usize = 0;
        while t < sub.len()
            invariant
                1 <= n,
                f < n,
                t <= sub@.len(),
                fs == sub@.len(),
                fs == factorial((n - 1) as nat),
                factorial(n as nat) <= usize::MAX,
                crate::transversal::perms_of(sub@, (n - 1) as nat),
                crate::transversal::strictly_sorted(sub@),
                r@.len() == f * fs + t,
                crate::transversal::perms_of(r@, n as nat),
                lex_increasing(r@),
                t == 0 && r@.len() > 0 ==> r@.last()@[0] as int == f - 1,
                t > 0 ==> r@.last()@ == lift(sub@[t - 1]@, f),
            decreases sub@.len() - t,
        {
            let q = &sub[t];
            let mut v: Vec<usize> = Vec::new();
            v.push(f);
            let mut i: usize = 0;
            while i < q.size()
                invariant
                    i <= q@.len(),
                    q@.len() == n - 1,
                    is_perm(q@),
                    v@ == lift(q@.subrange(0, i as int), f),
                decreases q@.len() - i,
            {
                let x = q.at(i);
                if x >= f {
                    v.push(x + 1);
                } else {
                    v.push(x);
                }
                i = i + 1;
                proof {
                    assert(v@ =~= lift(q@.subrange(0, i as int), f));
                }
            }
            proof {
                assert(q@.subrange(0, q@.len() as int) =~= q@);
                lemma_lift_perm(q@, f);
                assert(f * fs + t < factorial(n as nat)) by (nonlinear_arith)
                    requires
                        factorial(n as nat) == n * fs,
                        f < n,
                        t < fs,
                ;
            }
            let ghost r0 = r@;
            r.push(Perm::new(v));
            proof {
                if r0.len() > 0 {
                    let prev = r0.last()@;
                    if t == 0 {
                        assert(prev[0] < r@.last()@[0]);
                        assert(crate::transversal::lex_lt(prev, r@.last()@));
                    } else {
                        lemma_lift_mono(sub@[t - 1]@, q@, f);
                    }
                }
                assert forall|k: int| 0 <= k < r@.len() - 1 implies crate::transversal::lex_lt(
                    #[trigger] r@[k]@,
                    r@[k + 1]@,
                ) by {
                    if k < r0.len() - 1 {
                        assert(r@[k] == r0[k]);
                        assert(r@[k + 1] == r0[k + 1]);
                    } else {
                        assert(r@[k] == r0.last());
                    }
                }
                assert forall|k: int| 0 <= k < r@.len() implies is_perm(#[trigger] r@[k]@) && r@[k]@.len() == n by {
                    if k < r0.len() {
                        assert(r@[k] == r0[k]);
                    }
                }
            }
            t = t + 1;
        }
        proof {
            assert(f * fs + fs == (f + 1) * fs) by (nonlinear_arith);
            if fs == 0 {
                assert(factorial((n - 1) as nat) > 0) by {
                    lemma_factorial_pos((n - 1) as nat);
                }
            }
            assert(r@.last()@ == lift(sub@[fs - 1]@, f));
        }
        f = f + 1;
    }
    proof {
        lemma_increasing_sorted(r@);
    }
    r
}

proof fn lemma_factorial_pos(n: nat)
    ensures
        factorial(n) > 0,
    decreases n,
{
    if n > 0 {
        lemma_factorial_pos((n - 1) as nat);
        assert(n * factorial((n - 1) as nat) > 0) by (nonlinear_arith)
            requires
                n > 0,
                factorial((n - 1) as nat) > 0,
        ;
    }
}

proof fn lemma_increasing_sorted_rev(s: Seq<Perm>)
    requires
        crate::transversal::strictly_sorted(s),
    ensures
        lex_increasing(s),
{
    assert forall|i: int| 0 <= i < s.len() - 1 implies crate::transversal::lex_lt(#[trigger] s[i]@, s[i + 1]@) by {
        assert(i < i + 1);
    }
}

} // verus!
