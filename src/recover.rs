//! Recovery of the secret, or of the whole dealer, from `threshold` shards.
use vstd::prelude::*;
use crate::gf::{GfElem, gf_add, lemma_add_zero, lemma_mul_zero, lemma_mul_one_left, lemma_inv_one};
use crate::poly::{GfPolynomial, poly_eval, interpolate, interpolate_at_zero, lagrange_term, lagrange_zero, numerator, denominator, is_permutation, permute, appears, lemma_interpolate_at_zero_permutation};
use crate::shard::Shard;
use crate::dealer::{Dealer, constant_of, elems_bytes, truncate, elems_to_bytes, lemma_secret_round_trip};

verus! {


/// Why a set of shards was refused for recovery.
#[derive(Clone, Copy, Debug, PartialEq, Eq, Structural)]
pub enum RecoverError {
    /// No shard was given.
    NoShards,
    /// The shards disagree on the threshold, the number of values or the secret length.
    Inconsistent,
    /// The number of shards differs from their threshold.
    WrongCount,
    /// Two shards have the same abscissa.
    DuplicateX,
}

/// Every shard agrees with the first on the threshold, the number of values and the
/// secret length.
pub open spec fn consistent(s: Seq<Shard>) -> bool {
    forall|i: int|
        0 <= i < s.len() ==> {
            &&& (#[trigger] s[i]).threshold == s[0].threshold
            &&& s[i].ys@.len() == s[0].ys@.len()
            &&& s[i].secret_len == s[0].secret_len
        }
}

/// No two shards share an abscissa.
pub open spec fn distinct_x(s: Seq<Shard>) -> bool {
    forall|i: int, j: int| 0 <= i < s.len() && 0 <= j < s.len() && i != j ==> s[i].x != s[j].x
}

/// The error that recovery from `s` reports, if any, checked in this order.
pub open spec fn recover_error(s: Seq<Shard>) -> Option<RecoverError> {
    if s.len() == 0 {
        Some(RecoverError::NoShards)
    } else if !consistent(s) {
        Some(RecoverError::Inconsistent)
    } else if s.len() != s[0].threshold {
        Some(RecoverError::WrongCount)
    } else if !distinct_x(s) {
        Some(RecoverError::DuplicateX)
    } else {
        None
    }
}

/// The points (x, y_i) of the shards for polynomial index `i`.
pub open spec fn points(s: Seq<Shard>, i: int) -> Seq<(GfElem, GfElem)> {
    Seq::new(s.len(), |j: int| (s[j].x, s[j].ys@[i]))
}

/// The constant terms interpolated from the shards, one per polynomial index.
pub open spec fn recovered_constants(s: Seq<Shard>) -> Seq<GfElem> {
    Seq::new(s[0].ys@.len(), |i: int| interpolate_at_zero(points(s, i)))
}

/// The secret recovered from shards that pass every check.
pub open spec fn recovered_secret(s: Seq<Shard>) -> Seq<u8> {
    truncate(elems_bytes(recovered_constants(s)), s[0].secret_len as nat)
}

/// Checks the shards in the order of `recover_error`.
fn check_shards(shards: &[Shard]) -> (r: Result<(), RecoverError>)
    ensures
        match recover_error(shards@) {
            Some(e) => r == Err::<(), RecoverError>(e),
            None => r is Ok,
        },
{
    if shards.len() == 0 {
        return Err(RecoverError::NoShards);
    }
    let threshold = shards[0].threshold;
    let ys_len = shards[0].ys.len();
    let secret_len = shards[0].secret_len;
    let mut i: usize = 0;
    while i < shards.len()
        invariant
            shards@.len() > 0,
            threshold == shards@[0].threshold,
            ys_len == shards@[0].ys@.len(),
            secret_len == shards@[0].secret_len,
            i <= shards@.len(),
            forall|k: int|
                0 <= k < i ==> {
                    &&& (#[trigger] shards@[k]).threshold == threshold
                    &&& shards@[k].ys@.len() == ys_len
                    &&& shards@[k].secret_len == secret_len
                },
        decreases shards@.len() - i,
    {
        let s = &shards[i];
        if s.threshold != threshold || s.ys.len() != ys_len || s.secret_len != secret_len {
            assert(!consistent(shards@));
            return Err(RecoverError::Inconsistent);
        }
        i = i + 1;
    }
    assert(consistent(shards@));
    if shards.len() != threshold as usize {
        return Err(RecoverError::WrongCount);
    }
    let mut i: usize = 0;
    while i < shards.len()
        invariant
            consistent(shards@),
            shards@.len() > 0,
            shards@.len() == shards@[0].threshold,
            i <= shards@.len(),
            forall|a: int, b: int| 0 <= a < i && 0 <= b < shards@.len() && a != b ==> shards@[a].x != shards@[b].x,
        decreases shards@.len() - i,
    {
        let mut j: usize = 0;
        while j < shards.len()
            invariant
                consistent(shards@),
                shards@.len() > 0,
                shards@.len() == shards@[0].threshold,
                i < shards@.len(),
                j <= shards@.len(),
                forall|a: int, b: int| 0 <= a < i && 0 <= b < shards@.len() && a != b ==> shards@[a].x != shards@[b].x,
                forall|b: int| 0 <= b < j && i != b ==> shards@[i as int].x != shards@[b].x,
            decreases shards@.len() - j,
        {
            if i != j && shards[i].x == shards[j].x {
                assert(!distinct_x(shards@));
                return Err(RecoverError::DuplicateX);
            }
            j = j + 1;
        }
        i = i + 1;
    }
    Ok(())
}

/// The points of the shards for polynomial index `i`.
fn points_at(shards: &[Shard], i: usize) -> (r: Vec<(GfElem, GfElem)>)
    requires
        forall|k: int| 0 <= k < shards@.len() ==> i < (#[trigger] shards@[k]).ys@.len(),
    ensures
        r@ == points(shards@, i as int),
{
    let mut r: Vec<(GfElem, GfElem)> = Vec::new();
    let mut j: usize = 0;
    while j < shards.len()
        invariant
            j <= shards@.len(),
            forall|k: int| 0 <= k < shards@.len() ==> i < (#[trigger] shards@[k]).ys@.len(),
            r@ =~= points(shards@, i as int).take(j as int),
        decreases shards@.len() - j,
    {
        r.push((shards[j].x, shards[j].ys[i]));
        j = j + 1;
    }
    r
}

/// Recovers the secret from exactly `threshold` shards with distinct abscissae,
/// interpolating only the constant terms.
///
/// Wrong or forged shards that pass the checks give a wrong secret, not an error.
pub fn recover_secret(shards: &[Shard]) -> (r: Result<Vec<u8>, RecoverError>)
    ensures
        match recover_error(shards@) {
            Some(e) => r == Err::<Vec<u8>, RecoverError>(e),
            None => r matches Ok(v) && v@ == recovered_secret(shards@),
        },
{
    match check_shards(shards) {
        Err(e) => return Err(e),
        Ok(()) => {},
    }
    let m = shards[0].ys.len();
    let mut constants: Vec<GfElem> = Vec::new();
    let mut i: usize = 0;
    while i < m
        invariant
            recover_error(shards@) is None,
            m == shards@[0].ys@.len(),
            i <= m,
            constants@ =~= recovered_constants(shards@).take(i as int),
        decreases m - i,
    {
        assert forall|k: int| 0 <= k < shards@.len() implies i < (#[trigger] shards@[k]).ys@.len() by {
            assert(shards@[k].ys@.len() == shards@[0].ys@.len());
        }
        let pts = points_at(shards, i);
        constants.push(GfPolynomial::lagrange_constant(&pts));
        i = i + 1;
    }
    assert(constants@ =~= recovered_constants(shards@));
    Ok(elems_to_bytes(&constants, shards[0].secret_len))
}

impl Dealer {
    /// The polynomials interpolated from the shards, one per polynomial index.
    pub open spec fn recovered_polys(s: Seq<Shard>) -> Seq<Seq<GfElem>> {
        Seq::new(s[0].ys@.len(), |i: int| interpolate(points(s, i)))
    }

    /// Recovers the whole dealer from exactly `threshold` shards with distinct
    /// abscissae, so that more shards can be minted.
    pub fn recover(shards: &[Shard]) -> (r: Result<Dealer, RecoverError>)
        ensures
            match recover_error(shards@) {
                Some(e) => r is Err && r->Err_0 == e,
                None => r matches Ok(d) && d.threshold == shards@[0].threshold
                    && d.secret_len == shards@[0].secret_len
                    && d.polys@.map_values(|p: GfPolynomial| p@) == Self::recovered_polys(shards@)
                    && d.wf(),
            },
    {
        match check_shards(shards) {
            Err(e) => return Err(e),
            Ok(()) => {},
        }
        let m = shards[0].ys.len();
        let mut polys: Vec<GfPolynomial> = Vec::new();
        let mut i: usize = 0;
        while i < m
            invariant
                recover_error(shards@) is None,
                m == shards@[0].ys@.len(),
                i <= m,
                polys@.map_values(|p: GfPolynomial| p@) =~= Self::recovered_polys(shards@).take(i as int),
                forall|k: int| 0 <= k < polys@.len() ==> (#[trigger] polys@[k])@.len() == shards@.len(),
            decreases m - i,
        {
            assert forall|k: int| 0 <= k < shards@.len() implies i < (#[trigger] shards@[k]).ys@.len() by {
                assert(shards@[k].ys@.len() == shards@[0].ys@.len());
            }
            let pts = points_at(shards, i);
            let p = GfPolynomial::lagrange(&pts);
            proof {
                crate::poly::lemma_lagrange_sum_len(pts@, pts@.len());
            }
            let ghost before = polys@;
            polys.push(p);
            assert(polys@.map_values(|p: GfPolynomial| p@) =~= before.map_values(|p: GfPolynomial| p@).push(p@));
            assert(Self::recovered_polys(shards@).take(i + 1) =~= Self::recovered_polys(shards@).take(i as int).push(interpolate(points(shards@, i as int))));
            i = i + 1;
        }
        assert(polys@.map_values(|p: GfPolynomial| p@) =~= Self::recovered_polys(shards@));
        Ok(Dealer { polys, secret_len: shards[0].secret_len, threshold: shards[0].threshold })
    }
}

/// Recovering the secret from the same shards in another order gives the same
/// result, the same error included.
pub proof fn lemma_recover_secret_order_independent(s: Seq<Shard>, perm: Seq<int>)
    requires
        is_permutation(perm, s.len()),
    ensures
        recover_error(permute(s, perm)) == recover_error(s),
        recover_error(s) is None ==> recovered_secret(permute(s, perm)) == recovered_secret(s),
{
    let t = permute(s, perm);
    let n = s.len() as int;
    if n > 0 {
        if consistent(s) {
            assert forall|i: int| 0 <= i < n implies {
                &&& (#[trigger] t[i]).threshold == t[0].threshold
                &&& t[i].ys@.len() == t[0].ys@.len()
                &&& t[i].secret_len == t[0].secret_len
            } by {
                assert(s[perm[i]].threshold == s[0].threshold);
                assert(s[perm[0]].threshold == s[0].threshold);
            }
            assert(consistent(t));
        }
        if consistent(t) {
            assert forall|k: int| 0 <= k < n implies {
                &&& (#[trigger] s[k]).threshold == s[0].threshold
                &&& s[k].ys@.len() == s[0].ys@.len()
                &&& s[k].secret_len == s[0].secret_len
            } by {
                assert(appears(perm, k));
                assert(appears(perm, 0));
                let i = choose|i: int| 0 <= i < n && #[trigger] perm[i] == k;
                let z = choose|i: int| 0 <= i < n && #[trigger] perm[i] == 0;
                assert(t[i] == s[k] && t[z] == s[0]);
                assert(t[i].threshold == t[0].threshold && t[z].threshold == t[0].threshold);
            }
            assert(consistent(s));
        }
        if consistent(s) {
            assert(t[0] == s[perm[0]]);
            assert(s[perm[0]].threshold == s[0].threshold);
            if distinct_x(s) {
                assert forall|i: int, j: int| 0 <= i < n && 0 <= j < n && i != j implies t[i].x != t[j].x by {
                    assert(perm[i] != perm[j]);
                }
                assert(distinct_x(t));
            } else {
                let (a, b) = choose|a: int, b: int| 0 <= a < n && 0 <= b < n && a != b && s[a].x == s[b].x;
                assert(appears(perm, a));
                assert(appears(perm, b));
                let i = choose|i: int| 0 <= i < n && #[trigger] perm[i] == a;
                let j = choose|j: int| 0 <= j < n && #[trigger] perm[j] == b;
                assert(t[i].x == t[j].x);
                assert(!distinct_x(t));
            }
            if recover_error(s) is None {
                let m = s[0].ys@.len();
                assert forall|i: int| 0 <= i < m implies #[trigger] recovered_constants(t)[i] == recovered_constants(s)[i] by {
                    assert forall|j: int| 0 <= j < n implies (#[trigger] s[j]).ys@.len() == m by {
                        assert(s[j].ys@.len() == s[0].ys@.len());
                    }
                    assert(points(t, i) =~= permute(points(s, i), perm));
                    lemma_interpolate_at_zero_permutation(points(s, i), perm);
                }
                assert(recovered_constants(t) =~= recovered_constants(s));
            }
        }
    }
}

/// With a threshold of one, any single shard of a dealer that shares `s` recovers `s`.
pub proof fn lemma_recover_single_shard(d: Dealer, s: Seq<u8>, q: Shard)
    requires
        d.wf(),
        d.threshold == 1,
        d.shares(s),
        d.minted(q),
    ensures
        recover_error(seq![q]) is None,
        recovered_secret(seq![q]) == s,
{
    let qs = seq![q];
    assert(consistent(qs));
    assert(distinct_x(qs));
    let es = d.polys@.map_values(|p: GfPolynomial| constant_of(p@));
    assert forall|i: int| 0 <= i < q.ys@.len() implies #[trigger] recovered_constants(qs)[i] == es[i] by {
        let c = d.polys@[i]@;
        let pts = points(qs, i);
        assert(c.len() == 1);
        assert(c.drop_first() =~= Seq::<GfElem>::empty());
        lemma_mul_zero(q.x);
        lemma_add_zero(c[0]);
        assert(poly_eval(c.drop_first(), q.x) == GfElem(0));
        assert(poly_eval(c, q.x) == c[0]);
        assert(numerator(pts, 0, 0) == GfElem(1));
        assert(numerator(pts, 0, 1) == GfElem(1));
        assert(denominator(pts, 0, 0) == GfElem(1));
        assert(denominator(pts, 0, 1) == GfElem(1));
        lemma_inv_one();
        lemma_mul_one_left(GfElem(1));
        lemma_mul_one_left(pts[0].1);
        assert(lagrange_term(pts, 0) == q.ys@[i]);
        lemma_add_zero(q.ys@[i]);
        assert(pts.len() == 1);
        assert(lagrange_zero(pts, 0) == GfElem(0));
        assert(lagrange_zero(pts, 1) == gf_add(GfElem(0), lagrange_term(pts, 0)));
    }
    assert(recovered_constants(qs) =~= es);
    lemma_secret_round_trip(d, s);
}


} // verus!
