//! The dealer: one random polynomial per four-byte chunk of a secret, minting
//! shards at random abscissae.
use vstd::prelude::*;
use crate::gf::{GfElem, elem_bytes, elem_of_bytes, lemma_bytes_round_trip};
use crate::poly::{GfPolynomial, poly_eval};
use crate::shard::Shard;

verus! {

/// The constant term of a polynomial with coefficients `c` (zero when it has none).
pub open spec fn constant_of(c: Seq<GfElem>) -> GfElem {
    if c.len() > 0 { c[0] } else { GfElem(0) }
}

/// The four bytes of each element of `es`, concatenated in order.
pub open spec fn elems_bytes(es: Seq<GfElem>) -> Seq<u8>
    decreases es.len(),
{
    if es.len() == 0 {
        seq![]
    } else {
        elems_bytes(es.drop_last()) + elem_bytes(es.last())
    }
}

/// The first `n` bytes of `b`, or all of `b` when it is shorter.
pub open spec fn truncate(b: Seq<u8>, n: nat) -> Seq<u8> {
    if n <= b.len() { b.take(n as int) } else { b }
}

/// The number of four-byte chunks of a secret of `n` bytes, the last one possibly short.
pub open spec fn chunk_count(n: nat) -> nat {
    (n + 3) / 4
}

/// The `i`-th four-byte chunk of `s` (the last one possibly short).
pub open spec fn chunk(s: Seq<u8>, i: int) -> Seq<u8> {
    s.subrange(4 * i, if 4 * i + 4 <= s.len() { 4 * i + 4 } else { s.len() as int })
}

/// The bytes of the constants of `polys`, concatenated in order, cut to `len` bytes.
pub open spec fn secret_of(polys: Seq<GfPolynomial>, len: nat) -> Seq<u8> {
    truncate(elems_bytes(polys.map_values(|p: GfPolynomial| constant_of(p@))), len)
}

/// Concatenates the four bytes of each element of `es` and keeps the first `len`.
pub(crate) fn elems_to_bytes(es: &Vec<GfElem>, len: usize) -> (r: Vec<u8>)
    ensures
        r@ == truncate(elems_bytes(es@), len as nat),
{
    let mut all: Vec<u8> = Vec::new();
    let mut i: usize = 0;
    while i < es.len()
        invariant
            i <= es@.len(),
            all@ == elems_bytes(es@.take(i as int)),
        decreases es@.len() - i,
    {
        let mut b = es[i].to_bytes();
        all.append(&mut b);
        assert(es@.take(i + 1).drop_last() =~= es@.take(i as int));
        i = i + 1;
    }
    assert(es@.take(i as int) =~= es@);
    let mut r: Vec<u8> = Vec::new();
    let mut k: usize = 0;
    while k < len && k < all.len()
        invariant
            k <= all@.len(),
            k <= len,
            r@ == all@.take(k as int),
        decreases all@.len() - k,
    {
        r.push(all[k]);
        assert(all@.take(k + 1) =~= all@.take(k as int).push(all@[k as int]));
        k = k + 1;
    }
    assert(r@ =~= truncate(all@, len as nat));
    r
}

/// The bytes of the elements of `es` are the chunks of `s` padded to four bytes,
/// for the first `k` chunks.
proof fn lemma_chunks_bytes(s: Seq<u8>, es: Seq<GfElem>, k: nat)
    requires
        k <= es.len() == chunk_count(s.len()),
        forall|i: int| 0 <= i < es.len() ==> es[i] == elem_of_bytes(#[trigger] chunk(s, i)),
    ensures
        4 * k <= s.len() ==> elems_bytes(es.take(k as int)) == s.take((4 * k) as int),
        4 * k > s.len() ==> elems_bytes(es.take(k as int)) == s + Seq::new(
            (4 * k - s.len()) as nat,
            |i: int| 0u8,
        ),
    decreases k,
{
    if k > 0 {
        let j = k - 1;
        lemma_chunks_bytes(s, es, j as nat);
        assert(es.take(k as int).drop_last() =~= es.take(j as int));
        let c = chunk(s, j as int);
        assert(c.len() <= 4);
        lemma_bytes_round_trip(c);
        assert(es[j as int] == elem_of_bytes(c));
        assert(4 * j < s.len());
        assert(elems_bytes(es.take(j as int)) =~= s.take(4 * j));
        if 4 * k <= s.len() {
            assert(s.take((4 * k) as int) =~= s.take(4 * j) + c);
        } else {
            assert(s =~= s.take(4 * j) + c);
        }
    }
}

/// The number of draws after which `next_shard` stops asking for a fresh abscissa.
pub const MAX_DRAWS: u32 = 64;

/// Factory that shares a secret: one polynomial per four-byte chunk of the
/// secret, with the chunk as its constant term.
#[derive(Clone, Debug)]
pub struct Dealer {
    pub polys: Vec<GfPolynomial>,
    pub secret_len: usize,
    pub threshold: u32,
}

impl Dealer {
    /// Every polynomial has `threshold` coefficients (degree `threshold - 1`).
    pub open spec fn wf(&self) -> bool {
        &&& self.threshold >= 1
        &&& forall|i: int| 0 <= i < self.polys@.len() ==> #[trigger] self.polys@[i]@.len()
            == self.threshold
    }

    /// The dealer shares `s`: one polynomial per chunk, whose constant term holds it.
    pub open spec fn shares(&self, s: Seq<u8>) -> bool {
        &&& self.secret_len == s.len()
        &&& self.polys@.len() == chunk_count(s.len())
        &&& forall|i: int| 0 <= i < self.polys@.len() ==> constant_of(#[trigger] self.polys@[i]@)
            == elem_of_bytes(chunk(s, i))
    }

    /// The secret that the dealer holds.
    pub open spec fn secret_spec(&self) -> Seq<u8> {
        secret_of(self.polys@, self.secret_len as nat)
    }

    /// `s` is the shard of this dealer at abscissa `s.x`.
    pub open spec fn minted(&self, s: Shard) -> bool {
        &&& s.threshold == self.threshold
        &&& s.secret_len == self.secret_len
        &&& s.ys@.len() == self.polys@.len()
        &&& forall|i: int| 0 <= i < s.ys@.len() ==> #[trigger] s.ys@[i] == poly_eval(self.polys@[i]@, s.x)
    }

    /// The number of distinct shards of this dealer needed to recover the secret.
    pub fn threshold(&self) -> (r: u32)
        ensures
            r == self.threshold,
    {
        self.threshold
    }

    /// A dealer for `secret`: each chunk becomes the constant term of a polynomial
    /// of degree `threshold - 1` whose other coefficients are drawn at random.
    pub fn new(threshold: u32, secret: &[u8]) -> (r: Dealer)
        requires
            threshold >= 1,
        ensures
            r.wf(),
            r.threshold == threshold,
            r.shares(secret@),
    {
        let n = secret.len();
        let count: usize = n / 4 + if n % 4 == 0 { 0 } else { 1 };
        let mut polys: Vec<GfPolynomial> = Vec::new();
        let mut c: usize = 0;
        while c < count
            invariant
                n == secret@.len(),
                threshold >= 1,
                count == chunk_count(n as nat),
                c <= count,
                polys@.len() == c,
                forall|i: int| 0 <= i < polys@.len() ==> #[trigger] polys@[i]@.len() == threshold,
                forall|i: int| 0 <= i < polys@.len() ==> constant_of(#[trigger] polys@[i]@)
                    == elem_of_bytes(chunk(secret@, i)),
            decreases count - c,
        {
            assert(4 * c < n) by (nonlinear_arith)
                requires
                    c < (n + 3) / 4,
            ;
            let start = 4 * c;
            let end = if n - start >= 4 { start + 4 } else { n };
            let x0 = GfElem::from_bytes(&secret[start..end]);
            assert(secret@.subrange(start as int, end as int) == chunk(secret@, c as int));
            let mut poly = GfPolynomial::new_rand(threshold - 1);
            poly.set_constant(x0);
            polys.push(poly);
            c = c + 1;
        }
        Dealer { polys, secret_len: n, threshold }
    }
    /// The secret that the dealer holds: the bytes of the constant terms, in order,
    /// cut to the secret's length.
    pub fn secret(&self) -> (r: Vec<u8>)
        ensures
            r@ == self.secret_spec(),
    {
        let mut constants: Vec<GfElem> = Vec::new();
        let mut i: usize = 0;
        while i < self.polys.len()
            invariant
                i <= self.polys@.len(),
                constants@ == self.polys@.take(i as int).map_values(|p: GfPolynomial| constant_of(p@)),
            decreases self.polys@.len() - i,
        {
            let p = &self.polys[i];
            let c = if p.coeffs.len() > 0 { p.constant() } else { GfElem(0) };
            constants.push(c);
            assert(self.polys@.take(i + 1).map_values(|p: GfPolynomial| constant_of(p@))
                =~= self.polys@.take(i as int).map_values(|p: GfPolynomial| constant_of(p@)).push(c));
            i = i + 1;
        }
        assert(self.polys@.take(i as int) =~= self.polys@);
        elems_to_bytes(&constants, self.secret_len)
    }

    /// The shard of this dealer at abscissa `x`: every polynomial evaluated there.
    pub fn shard_at(&self, x: GfElem) -> (r: Shard)
        ensures
            r.x == x,
            self.minted(r),
    {
        let mut ys: Vec<GfElem> = Vec::new();
        let mut i: usize = 0;
        while i < self.polys.len()
            invariant
                i <= self.polys@.len(),
                ys@.len() == i,
                forall|k: int| 0 <= k < i ==> #[trigger] ys@[k] == poly_eval(self.polys@[k]@, x),
            decreases self.polys@.len() - i,
        {
            ys.push(self.polys[i].evaluate(x));
            i = i + 1;
        }
        Shard { x, ys, secret_len: self.secret_len, threshold: self.threshold }
    }

    /// Whether every value of `s` differs from the constant term of its polynomial,
    /// as it must once the polynomials are not constant.
    fn hides_constants(&self, s: &Shard) -> (r: bool)
        requires
            self.minted(*s),
    {
        let mut i: usize = 0;
        while i < s.ys.len()
            invariant
                i <= s.ys@.len() == self.polys@.len(),
            decreases s.ys@.len() - i,
        {
            let p = &self.polys[i];
            if p.coeffs.len() > 0 && s.ys[i] == p.coeffs[0] {
                return false;
            }
            i = i + 1;
        }
        true
    }

    /// A new shard at a random non-zero abscissa.
    ///
    /// Two calls may draw the same abscissa; callers that need distinct shards
    /// compare their identifiers.
    pub fn next_shard(&self) -> (r: Shard)
        ensures
            r.x.0 != 0,
            self.minted(r),
    {
        let mut attempt: u32 = 0;
        // Only a broken random source fails every draw; any non-zero abscissa
        // still gives a valid shard.
        let mut shard = self.shard_at(GfElem(1));
        while attempt < MAX_DRAWS
            invariant
                shard.x.0 != 0,
                self.minted(shard),
            decreases MAX_DRAWS - attempt,
        {
            let x = GfElem::new_rand();
            if x.0 != 0 {
                let candidate = self.shard_at(x);
                if self.threshold == 1 || self.hides_constants(&candidate) {
                    shard = candidate;
                    break;
                }
            }
            attempt = attempt + 1;
        }
        shard
    }
}

/// Reading the constant terms of a dealer that shares `s` gives `s` back.
pub proof fn lemma_secret_round_trip(d: Dealer, s: Seq<u8>)
    requires
        d.shares(s),
    ensures
        d.secret_spec() == s,
{
    let es = d.polys@.map_values(|p: GfPolynomial| constant_of(p@));
    let k = chunk_count(s.len());
    assert forall|i: int| 0 <= i < es.len() implies es[i] == elem_of_bytes(#[trigger] chunk(s, i)) by {
        assert(constant_of(d.polys@[i]@) == elem_of_bytes(chunk(s, i)));
    }
    lemma_chunks_bytes(s, es, k);
    assert(es.take(k as int) =~= es);
    if 4 * k <= s.len() {
        assert(s.take((4 * k) as int) =~= s);
    } else {
        assert((s + Seq::new((4 * k - s.len()) as nat, |i: int| 0u8)).take(s.len() as int) =~= s);
    }
}

} // verus!
