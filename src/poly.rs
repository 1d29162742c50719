//! Polynomials over GF(2^32): evaluation and Lagrange interpolation.
use vstd::prelude::*;
use crate::gf::{GfElem, gf_add, gf_mul, gf_inv, lemma_mul_commutative, lemma_mul_associative, lemma_mul_one_left};

verus! {

/// A polynomial c0 + c1 x + ... + c(k-1) x^(k-1), lowest coefficient first.
#[derive(Clone, Debug, PartialEq, Eq)]
pub struct GfPolynomial {
    pub coeffs: Vec<GfElem>,
}

/// The value of the polynomial with coefficients `c` at `x` (Horner's rule).
pub open spec fn poly_eval(c: Seq<GfElem>, x: GfElem) -> GfElem
    decreases c.len(),
{
    if c.len() == 0 {
        GfElem(0)
    } else {
        gf_add(c[0], gf_mul(x, poly_eval(c.drop_first(), x)))
    }
}

/// Product of x_j over the first `n` points, point `i` left out.
pub open spec fn numerator(pts: Seq<(GfElem, GfElem)>, i: int, n: nat) -> GfElem
    decreases n,
{
    if n == 0 {
        GfElem(1)
    } else if n - 1 == i {
        numerator(pts, i, (n - 1) as nat)
    } else {
        gf_mul(numerator(pts, i, (n - 1) as nat), pts[n - 1].0)
    }
}

/// Product of (x_j - x_i) over the first `n` points, point `i` left out.
pub open spec fn denominator(pts: Seq<(GfElem, GfElem)>, i: int, n: nat) -> GfElem
    decreases n,
{
    if n == 0 {
        GfElem(1)
    } else if n - 1 == i {
        denominator(pts, i, (n - 1) as nat)
    } else {
        gf_mul(denominator(pts, i, (n - 1) as nat), gf_add(pts[n - 1].0, pts[i].0))
    }
}

/// y_i times the i-th Lagrange basis polynomial evaluated at zero.
pub open spec fn lagrange_term(pts: Seq<(GfElem, GfElem)>, i: int) -> GfElem {
    gf_mul(pts[i].1, gf_mul(numerator(pts, i, pts.len()), gf_inv(denominator(pts, i, pts.len()))))
}

/// The sum of the Lagrange terms of the first `n` points.
pub open spec fn lagrange_zero(pts: Seq<(GfElem, GfElem)>, n: nat) -> GfElem
    decreases n,
{
    if n == 0 {
        GfElem(0)
    } else {
        gf_add(lagrange_zero(pts, (n - 1) as nat), lagrange_term(pts, n - 1))
    }
}

/// The value at zero of the interpolating polynomial through all of `pts`.
pub open spec fn interpolate_at_zero(pts: Seq<(GfElem, GfElem)>) -> GfElem {
    lagrange_zero(pts, pts.len())
}

/// The product b(X) * (X + c), coefficients lowest first.
pub open spec fn mul_linear(b: Seq<GfElem>, c: GfElem) -> Seq<GfElem> {
    Seq::new(
        b.len() + 1,
        |k: int|
            gf_add(
                if k > 0 { b[k - 1] } else { GfElem(0) },
                if k < b.len() { gf_mul(c, b[k]) } else { GfElem(0) },
            ),
    )
}

/// Product of (X - x_j) over the first `n` points, point `i` left out.
pub open spec fn basis_poly(pts: Seq<(GfElem, GfElem)>, i: int, n: nat) -> Seq<GfElem>
    decreases n,
{
    if n == 0 {
        seq![GfElem(1)]
    } else if n - 1 == i {
        basis_poly(pts, i, (n - 1) as nat)
    } else {
        mul_linear(basis_poly(pts, i, (n - 1) as nat), pts[n - 1].0)
    }
}

/// The sum over the first `n` points of y_i times the i-th Lagrange basis polynomial,
/// as `pts.len()` coefficients.
pub open spec fn lagrange_sum(pts: Seq<(GfElem, GfElem)>, n: nat) -> Seq<GfElem>
    decreases n,
{
    if n == 0 {
        Seq::new(pts.len(), |k: int| GfElem(0))
    } else {
        let i = n - 1;
        let prev = lagrange_sum(pts, (n - 1) as nat);
        let basis = basis_poly(pts, i, pts.len());
        let scale = gf_mul(pts[i].1, gf_inv(denominator(pts, i, pts.len())));
        Seq::new(pts.len(), |k: int| gf_add(prev[k], gf_mul(scale, basis[k])))
    }
}

/// The coefficients of the interpolating polynomial through all of `pts`.
pub open spec fn interpolate(pts: Seq<(GfElem, GfElem)>) -> Seq<GfElem> {
    lagrange_sum(pts, pts.len())
}

pub proof fn lemma_basis_poly_len(pts: Seq<(GfElem, GfElem)>, i: int, n: nat)
    ensures
        basis_poly(pts, i, n).len() == if 0 <= i < n { n } else { n + 1 },
    decreases n,
{
    if n > 0 {
        lemma_basis_poly_len(pts, i, (n - 1) as nat);
    }
}

pub proof fn lemma_lagrange_sum_len(pts: Seq<(GfElem, GfElem)>, n: nat)
    ensures
        lagrange_sum(pts, n).len() == pts.len(),
    decreases n,
{
    if n > 0 {
        lemma_lagrange_sum_len(pts, (n - 1) as nat);
    }
}

/// `perm` lists each of 0, ..., n - 1 exactly once.
pub open spec fn is_permutation(perm: Seq<int>, n: nat) -> bool {
    &&& perm.len() == n
    &&& forall|i: int| 0 <= i < n ==> 0 <= #[trigger] perm[i] < n
    &&& forall|i: int, j: int| 0 <= i < n && 0 <= j < n && i != j ==> perm[i] != perm[j]
    &&& forall|k: int| 0 <= k < n ==> #[trigger] appears(perm, k)
}

/// Some entry of `perm` is `k`.
pub open spec fn appears(perm: Seq<int>, k: int) -> bool {
    exists|i: int| 0 <= i < perm.len() && #[trigger] perm[i] == k
}

/// The elements of `s` in the order that `perm` gives.
pub open spec fn permute<T>(s: Seq<T>, perm: Seq<int>) -> Seq<T> {
    Seq::new(perm.len(), |i: int| s[perm[i]])
}

/// The product (`mul`) or the sum of the elements of `s`, left to right.
pub open spec fn fold(mul: bool, s: Seq<GfElem>) -> GfElem
    decreases s.len(),
{
    if s.len() == 0 {
        if mul { GfElem(1) } else { GfElem(0) }
    } else {
        let acc = fold(mul, s.drop_last());
        if mul { gf_mul(acc, s.last()) } else { gf_add(acc, s.last()) }
    }
}

pub open spec fn combine(mul: bool, a: GfElem, b: GfElem) -> GfElem {
    if mul { gf_mul(a, b) } else { gf_add(a, b) }
}

proof fn lemma_combine_laws(mul: bool, a: GfElem, b: GfElem, c: GfElem)
    ensures
        combine(mul, a, b) == combine(mul, b, a),
        combine(mul, combine(mul, a, b), c) == combine(mul, a, combine(mul, b, c)),
{
    if mul {
        lemma_mul_commutative(a, b);
        lemma_mul_associative(a, b, c);
    } else {
        let (x, y, z) = (a.0, b.0, c.0);
        assert(x ^ y == y ^ x && (x ^ y) ^ z == x ^ (y ^ z)) by (bit_vector);
    }
}

/// Taking out the element at `k` and combining it last leaves the fold unchanged.
proof fn lemma_fold_remove(mul: bool, s: Seq<GfElem>, k: int)
    requires
        0 <= k < s.len(),
    ensures
        fold(mul, s) == combine(mul, fold(mul, s.remove(k)), s[k]),
    decreases s.len(),
{
    let n = s.len() as int;
    if k == n - 1 {
        assert(s.remove(k) =~= s.drop_last());
    } else {
        let init = s.drop_last();
        lemma_fold_remove(mul, init, k);
        assert(s.remove(k).drop_last() =~= init.remove(k));
        assert(s.remove(k).last() == s.last());
        let f = fold(mul, init.remove(k));
        lemma_combine_laws(mul, f, s[k], s.last());
        lemma_combine_laws(mul, f, s.last(), s[k]);
        lemma_combine_laws(mul, s[k], s.last(), f);
    }
}

/// A fold does not depend on the order of the elements.
pub proof fn lemma_fold_permutation(mul: bool, s: Seq<GfElem>, perm: Seq<int>)
    requires
        is_permutation(perm, s.len()),
    ensures
        fold(mul, permute(s, perm)) == fold(mul, s),
    decreases s.len(),
{
    let n = s.len() as int;
    if n > 0 {
        let t = permute(s, perm);
        assert(appears(perm, n - 1));
        let k = choose|i: int| 0 <= i < n && #[trigger] perm[i] == n - 1;
        lemma_fold_remove(mul, t, k);
        let rest_perm = perm.remove(k);
        assert forall|j: int| 0 <= j < n - 1 implies #[trigger] appears(rest_perm, j) by {
            assert(appears(perm, j));
            let i = choose|i: int| 0 <= i < n && #[trigger] perm[i] == j;
            assert(i != k);
            if i < k {
                assert(rest_perm[i] == j);
            } else {
                assert(rest_perm[i - 1] == j);
            }
        }
        assert forall|i: int| 0 <= i < n - 1 implies 0 <= #[trigger] rest_perm[i] < n - 1 by {
            let i0 = if i < k { i } else { i + 1 };
            assert(rest_perm[i] == perm[i0]);
            assert(perm[i0] != perm[k]);
        }
        assert forall|i: int, j: int| 0 <= i < n - 1 && 0 <= j < n - 1 && i != j implies rest_perm[i] != rest_perm[j] by {
            let i0 = if i < k { i } else { i + 1 };
            let j0 = if j < k { j } else { j + 1 };
            assert(rest_perm[i] == perm[i0] && rest_perm[j] == perm[j0]);
        }
        lemma_fold_permutation(mul, s.drop_last(), rest_perm);
        assert(permute(s.drop_last(), rest_perm) =~= t.remove(k));
    }
}

/// The factors of `numerator(pts, i, n)`, one per point, a one in place of point `i`.
pub open spec fn numerator_factors(pts: Seq<(GfElem, GfElem)>, i: int, n: nat) -> Seq<GfElem> {
    Seq::new(n, |j: int| if j == i { GfElem(1) } else { pts[j].0 })
}

/// The factors of `denominator(pts, i, n)`, one per point, a one in place of point `i`.
pub open spec fn denominator_factors(pts: Seq<(GfElem, GfElem)>, i: int, n: nat) -> Seq<GfElem> {
    Seq::new(n, |j: int| if j == i { GfElem(1) } else { gf_add(pts[j].0, pts[i].0) })
}

/// The Lagrange terms of the first `n` points.
pub open spec fn lagrange_terms(pts: Seq<(GfElem, GfElem)>, n: nat) -> Seq<GfElem> {
    Seq::new(n, |i: int| lagrange_term(pts, i))
}

proof fn lemma_numerator_fold(pts: Seq<(GfElem, GfElem)>, i: int, n: nat)
    requires
        n <= pts.len(),
    ensures
        numerator(pts, i, n) == fold(true, numerator_factors(pts, i, n)),
    decreases n,
{
    if n > 0 {
        lemma_numerator_fold(pts, i, (n - 1) as nat);
        let g = numerator_factors(pts, i, n);
        assert(g.drop_last() =~= numerator_factors(pts, i, (n - 1) as nat));
        lemma_mul_one_left(fold(true, g.drop_last()));
    }
}

proof fn lemma_denominator_fold(pts: Seq<(GfElem, GfElem)>, i: int, n: nat)
    requires
        n <= pts.len(),
        0 <= i < pts.len(),
    ensures
        denominator(pts, i, n) == fold(true, denominator_factors(pts, i, n)),
    decreases n,
{
    if n > 0 {
        lemma_denominator_fold(pts, i, (n - 1) as nat);
        let g = denominator_factors(pts, i, n);
        assert(g.drop_last() =~= denominator_factors(pts, i, (n - 1) as nat));
        lemma_mul_one_left(fold(true, g.drop_last()));
    }
}

proof fn lemma_lagrange_zero_fold(pts: Seq<(GfElem, GfElem)>, n: nat)
    requires
        n <= pts.len(),
    ensures
        lagrange_zero(pts, n) == fold(false, lagrange_terms(pts, n)),
    decreases n,
{
    if n > 0 {
        lemma_lagrange_zero_fold(pts, (n - 1) as nat);
        assert(lagrange_terms(pts, n).drop_last() =~= lagrange_terms(pts, (n - 1) as nat));
    }
}

/// The value at zero of the interpolating polynomial does not depend on the order
/// of the points.
pub proof fn lemma_interpolate_at_zero_permutation(pts: Seq<(GfElem, GfElem)>, perm: Seq<int>)
    requires
        is_permutation(perm, pts.len()),
    ensures
        interpolate_at_zero(permute(pts, perm)) == interpolate_at_zero(pts),
{
    let n = pts.len();
    let t = permute(pts, perm);
    assert forall|i: int| 0 <= i < n implies #[trigger] lagrange_term(t, i) == lagrange_term(pts, perm[i]) by {
        let pi = perm[i];
        assert(numerator_factors(t, i, n) =~= permute(numerator_factors(pts, pi, n), perm));
        lemma_numerator_fold(t, i, n);
        lemma_numerator_fold(pts, pi, n);
        lemma_fold_permutation(true, numerator_factors(pts, pi, n), perm);
        assert(denominator_factors(t, i, n) =~= permute(denominator_factors(pts, pi, n), perm));
        lemma_denominator_fold(t, i, n);
        lemma_denominator_fold(pts, pi, n);
        lemma_fold_permutation(true, denominator_factors(pts, pi, n), perm);
    }
    assert(lagrange_terms(t, n) =~= permute(lagrange_terms(pts, n), perm));
    lemma_lagrange_zero_fold(t, n);
    lemma_lagrange_zero_fold(pts, n);
    lemma_fold_permutation(false, lagrange_terms(pts, n), perm);
}

impl GfPolynomial {
    pub open spec fn view(&self) -> Seq<GfElem> {
        self.coeffs@
    }

    /// A polynomial of the given degree whose coefficients are all drawn at random.
    pub fn new_rand(degree: u32) -> (r: GfPolynomial)
        ensures
            r@.len() == degree + 1,
    {
        let mut coeffs: Vec<GfElem> = Vec::new();
        let mut i: u64 = 0;
        while i <= degree as u64
            invariant
                i <= degree + 1,
                coeffs@.len() == i,
            decreases degree + 1 - i,
        {
            coeffs.push(GfElem::new_rand());
            i = i + 1;
        }
        GfPolynomial { coeffs }
    }

    /// Replaces the constant coefficient, keeping the others.
    pub fn set_constant(&mut self, c: GfElem)
        requires
            old(self)@.len() > 0,
        ensures
            final(self)@ == old(self)@.update(0, c),
    {
        self.coeffs.set(0, c);
    }

    /// The constant coefficient.
    pub fn constant(&self) -> (r: GfElem)
        requires
            self@.len() > 0,
        ensures
            r == self@[0],
    {
        self.coeffs[0]
    }

    /// The value of the polynomial at `x`.
    pub fn evaluate(&self, x: GfElem) -> (r: GfElem)
        ensures
            r == poly_eval(self@, x),
    {
        let mut acc = GfElem(0);
        let mut i: usize = self.coeffs.len();
        while i > 0
            invariant
                i <= self@.len(),
                acc == poly_eval(self@.skip(i as int), x),
            decreases i,
        {
            i = i - 1;
            acc = self.coeffs[i].add(x.mul(acc));
            assert(self@.skip(i as int).drop_first() =~= self@.skip(i + 1));
        }
        assert(self@.skip(0) =~= self@);
        acc
    }

    /// The value at zero of the polynomial of degree below `points.len()` through
    /// `points`, whose abscissae must be pairwise distinct for the result to mean
    /// anything.
    pub fn lagrange_constant(points: &Vec<(GfElem, GfElem)>) -> (r: GfElem)
        ensures
            r == interpolate_at_zero(points@),
    {
        let n = points.len();
        let mut acc = GfElem(0);
        let mut i: usize = 0;
        while i < n
            invariant
                n == points@.len(),
                i <= n,
                acc == lagrange_zero(points@, i as nat),
            decreases n - i,
        {
            let mut num = GfElem(1);
            let mut den = GfElem(1);
            let mut j: usize = 0;
            while j < n
                invariant
                    n == points@.len(),
                    i < n,
                    j <= n,
                    num == numerator(points@, i as int, j as nat),
                    den == denominator(points@, i as int, j as nat),
                decreases n - j,
            {
                if j != i {
                    num = num.mul(points[j].0);
                    den = den.mul(points[j].0.add(points[i].0));
                }
                j = j + 1;
            }
            acc = acc.add(points[i].1.mul(num.mul(den.inverse())));
            i = i + 1;
        }
        acc
    }
    fn times_linear(b: &Vec<GfElem>, c: GfElem) -> (r: Vec<GfElem>)
        requires
            b@.len() < usize::MAX,
        ensures
            r@ == mul_linear(b@, c),
    {
        let n = b.len();
        let mut r: Vec<GfElem> = Vec::new();
        let mut k: usize = 0;
        while k <= n
            invariant
                n == b@.len() < usize::MAX,
                k <= n + 1,
                r@.len() == k,
                forall|m: int| 0 <= m < k ==> r@[m] == mul_linear(b@, c)[m],
            decreases n + 1 - k,
        {
            let lo = if k > 0 { b[k - 1] } else { GfElem(0) };
            let hi = if k < n { c.mul(b[k]) } else { GfElem(0) };
            r.push(lo.add(hi));
            k = k + 1;
        }
        assert(r@ =~= mul_linear(b@, c));
        r
    }

    /// The polynomial of degree below `points.len()` through `points`, whose
    /// abscissae must be pairwise distinct for the result to mean anything.
    pub fn lagrange(points: &Vec<(GfElem, GfElem)>) -> (r: GfPolynomial)
        ensures
            r@ == interpolate(points@),
    {
        let n = points.len();
        let mut acc: Vec<GfElem> = Vec::new();
        let mut k: usize = 0;
        while k < n
            invariant
                n == points@.len(),
                k <= n,
                acc@ =~= Seq::new(k as nat, |m: int| GfElem(0)),
            decreases n - k,
        {
            acc.push(GfElem(0));
            k = k + 1;
        }
        let mut i: usize = 0;
        while i < n
            invariant
                n == points@.len(),
                i <= n,
                acc@ == lagrange_sum(points@, i as nat),
            decreases n - i,
        {
            let mut basis: Vec<GfElem> = vec![GfElem(1)];
            let mut den = GfElem(1);
            let mut j: usize = 0;
            while j < n
                invariant
                    n == points@.len(),
                    i < n,
                    j <= n,
                    basis@ == basis_poly(points@, i as int, j as nat),
                    den == denominator(points@, i as int, j as nat),
                decreases n - j,
            {
                proof {
                    lemma_basis_poly_len(points@, i as int, j as nat);
                }
                if j != i {
                    basis = Self::times_linear(&basis, points[j].0);
                    den = den.mul(points[j].0.add(points[i].0));
                }
                j = j + 1;
            }
            proof {
                lemma_basis_poly_len(points@, i as int, n as nat);
                lemma_lagrange_sum_len(points@, i as nat);
            }
            let scale = points[i].1.mul(den.inverse());
            let ghost prev = acc@;
            let mut next: Vec<GfElem> = Vec::new();
            let mut m: usize = 0;
            while m < n
                invariant
                    n == points@.len(),
                    i < n,
                    m <= n,
                    prev.len() == n,
                    basis@.len() == n,
                    acc@ == prev,
                    next@.len() == m,
                    forall|q: int| 0 <= q < m ==> next@[q] == gf_add(prev[q], gf_mul(scale, basis@[q])),
                decreases n - m,
            {
                next.push(acc[m].add(scale.mul(basis[m])));
                m = m + 1;
            }
            acc = next;
            i = i + 1;
            assert(acc@ =~= lagrange_sum(points@, i as nat));
        }
        GfPolynomial { coeffs: acc }
    }
}

} // verus!
