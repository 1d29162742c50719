//! Arithmetic in GF(2^32), represented as polynomials over GF(2) modulo
//! x^32 + x^7 + x^3 + x^2 + 1.
use vstd::prelude::*;

verus! {

/// The low terms of the reduction polynomial: x^32 = x^7 + x^3 + x^2 + 1.
pub const REDUCTION: u32 = 0x8D;

/// An element of GF(2^32); every `u32` is one.
#[derive(Clone, Copy, Debug, PartialEq, Eq, Structural)]
pub struct GfElem(pub u32);

/// Sum in GF(2^32): coefficient-wise addition over GF(2).
pub open spec fn gf_add(a: GfElem, b: GfElem) -> GfElem {
    GfElem(a.0 ^ b.0)
}

/// Multiplication by x, reduced modulo the field polynomial.
pub open spec fn xtime(a: u32) -> u32 {
    if a & 0x8000_0000u32 != 0 {
        (a << 1u32) ^ REDUCTION
    } else {
        a << 1u32
    }
}

/// The product of `a` with the low `n` bits of `b`, by shift-and-add.
pub open spec fn mul_bits(a: u32, b: u32, n: nat) -> u32
    decreases n,
{
    if n == 0 {
        0
    } else {
        let low: u32 = if b & 1u32 == 1u32 { a } else { 0 };
        low ^ mul_bits(xtime(a), b >> 1u32, (n - 1) as nat)
    }
}

/// Product in GF(2^32).
pub open spec fn gf_mul(a: GfElem, b: GfElem) -> GfElem {
    GfElem(mul_bits(a.0, b.0, 32))
}

/// `a` raised to the power 2^i (repeated squaring).
pub open spec fn frobenius(a: GfElem, i: nat) -> GfElem
    decreases i,
{
    if i == 0 {
        a
    } else {
        let t = frobenius(a, (i - 1) as nat);
        gf_mul(t, t)
    }
}

/// The product of a^(2^1), ..., a^(2^n), which is a^(2^(n+1) - 2).
pub open spec fn frobenius_product(a: GfElem, n: nat) -> GfElem
    decreases n,
{
    if n == 0 {
        GfElem(1)
    } else {
        gf_mul(frobenius_product(a, (n - 1) as nat), frobenius(a, n))
    }
}

/// Multiplicative inverse: a^(2^32 - 2), which is the inverse of every non-zero `a`
/// (and zero for zero).
pub open spec fn gf_inv(a: GfElem) -> GfElem {
    frobenius_product(a, 31)
}

/// The 4-byte little-endian encoding of an element.
pub open spec fn elem_bytes(a: GfElem) -> Seq<u8> {
    seq![
        (a.0 % 0x100) as u8,
        ((a.0 / 0x100) % 0x100) as u8,
        ((a.0 / 0x1_0000) % 0x100) as u8,
        (a.0 / 0x100_0000) as u8,
    ]
}

/// The element whose little-endian encoding is `b`, right-padded with zeros
/// (bytes past the fourth are ignored).
pub open spec fn elem_of_bytes(b: Seq<u8>) -> GfElem {
    let byte = |i: int| if i < b.len() { b[i] as u32 } else { 0u32 };
    GfElem((byte(0) + byte(1) * 0x100 + byte(2) * 0x1_0000 + byte(3) * 0x100_0000) as u32)
}

pub proof fn lemma_bytes_round_trip(b: Seq<u8>)
    requires
        b.len() <= 4,
    ensures
        elem_bytes(elem_of_bytes(b)) == b + Seq::new((4 - b.len()) as nat, |i: int| 0u8),
{
    let byte = |i: int| if i < b.len() { b[i] as u32 } else { 0u32 };
    let (b0, b1, b2, b3) = (byte(0), byte(1), byte(2), byte(3));
    let v = b0 + b1 * 0x100 + b2 * 0x1_0000 + b3 * 0x100_0000;
    assert(b0 < 256 && b1 < 256 && b2 < 256 && b3 < 256);
    assert(v % 0x100 == b0 && (v / 0x100) % 0x100 == b1 && (v / 0x1_0000) % 0x100 == b2
        && v / 0x100_0000 == b3) by (nonlinear_arith)
        requires
            v == b0 + b1 * 0x100 + b2 * 0x1_0000 + b3 * 0x100_0000,
            b0 < 256 && b1 < 256 && b2 < 256 && b3 < 256,
    ;
    assert(elem_bytes(elem_of_bytes(b)) =~= b + Seq::new((4 - b.len()) as nat, |i: int| 0u8));
}

/// Relies on rand's OsRng (RngCore::next_u32): a word from the operating system's
/// cryptographic source. Nothing is known of its value.
#[verifier::external_body]
fn os_random_u32() -> u32 {
    rand::RngCore::next_u32(&mut rand::rngs::OsRng)
}

impl GfElem {
    /// A uniformly random element drawn from the operating system's source.
    pub fn new_rand() -> GfElem {
        GfElem(os_random_u32())
    }

    pub fn from_inner(v: u32) -> (r: GfElem)
        ensures
            r.0 == v,
    {
        GfElem(v)
    }

    pub fn inner(&self) -> (r: u32)
        ensures
            r == self.0,
    {
        self.0
    }

    pub fn add(self, other: GfElem) -> (r: GfElem)
        ensures
            r == gf_add(self, other),
    {
        GfElem(self.0 ^ other.0)
    }

    pub fn mul(self, other: GfElem) -> (r: GfElem)
        ensures
            r == gf_mul(self, other),
    {
        let mut acc: u32 = 0;
        let mut a: u32 = self.0;
        let mut b: u32 = other.0;
        let mut i: u32 = 0;
        proof {
            let m = mul_bits(a, b, 32);
            assert(0u32 ^ m == m) by (bit_vector);
        }
        while i < 32
            invariant
                i <= 32,
                acc ^ mul_bits(a, b, (32 - i) as nat) == mul_bits(self.0, other.0, 32),
            decreases 32 - i,
        {
            let ghost (a0, b0, acc0) = (a, b, acc);
            let low: u32 = if b & 1 == 1 { a } else { 0 };
            acc = acc ^ low;
            if a & 0x8000_0000 != 0 {
                a = (a << 1u32) ^ REDUCTION;
            } else {
                a = a << 1u32;
            }
            b = b >> 1u32;
            i = i + 1;
            proof {
                let rest = mul_bits(a, b, (32 - i) as nat);
                assert(mul_bits(a0, b0, (32 - (i - 1)) as nat) == low ^ rest);
                assert(acc0 ^ (low ^ rest) == (acc0 ^ low) ^ rest) by (bit_vector);
            }
        }
        proof {
            assert(acc ^ 0u32 == acc) by (bit_vector);
        }
        GfElem(acc)
    }

    /// The multiplicative inverse of a non-zero element; zero maps to zero.
    pub fn inverse(self) -> (r: GfElem)
        ensures
            r == gf_inv(self),
    {
        let mut square = self;
        let mut acc = GfElem(1);
        let mut i: u32 = 0;
        while i < 31
            invariant
                i <= 31,
                square == frobenius(self, i as nat),
                acc == frobenius_product(self, i as nat),
            decreases 31 - i,
        {
            square = square.mul(square);
            acc = acc.mul(square);
            i = i + 1;
        }
        acc
    }

    /// Reads up to four bytes, little-endian, padding the missing ones with zeros.
    pub fn from_bytes(b: &[u8]) -> (r: GfElem)
        requires
            b@.len() <= 4,
        ensures
            r == elem_of_bytes(b@),
    {
        let b0: u32 = if b.len() > 0 { b[0] as u32 } else { 0 };
        let b1: u32 = if b.len() > 1 { b[1] as u32 } else { 0 };
        let b2: u32 = if b.len() > 2 { b[2] as u32 } else { 0 };
        let b3: u32 = if b.len() > 3 { b[3] as u32 } else { 0 };
        GfElem(b0 + b1 * 0x100 + b2 * 0x1_0000 + b3 * 0x100_0000)
    }

    /// The four-byte little-endian encoding.
    pub fn to_bytes(&self) -> (r: Vec<u8>)
        ensures
            r@ == elem_bytes(*self),
    {
        let v = self.0;
        let r = vec![(v % 0x100) as u8, ((v / 0x100) % 0x100) as u8, ((v / 0x1_0000) % 0x100) as u8, (v / 0x100_0000) as u8];
        assert(r@ =~= elem_bytes(*self));
        r
    }
}

proof fn lemma_xtime_linear(a: u32, b: u32)
    ensures
        xtime(a ^ b) == xtime(a) ^ xtime(b),
        xtime(0) == 0,
{
    assert((if (a ^ b) & 0x8000_0000u32 != 0 { ((a ^ b) << 1u32) ^ 0x8Du32 } else { (a ^ b) << 1u32 })
        == (if a & 0x8000_0000u32 != 0 { (a << 1u32) ^ 0x8Du32 } else { a << 1u32 })
        ^ (if b & 0x8000_0000u32 != 0 { (b << 1u32) ^ 0x8Du32 } else { b << 1u32 })) by (bit_vector);
    assert((if 0u32 & 0x8000_0000u32 != 0 { (0u32 << 1u32) ^ 0x8Du32 } else { 0u32 << 1u32 }) == 0u32) by (bit_vector);
}

proof fn lemma_mul_bits_zero(b: u32, n: nat)
    ensures
        mul_bits(0, b, n) == 0,
    decreases n,
{
    if n > 0 {
        lemma_xtime_linear(0, 0);
        lemma_mul_bits_zero(b >> 1u32, (n - 1) as nat);
        assert(0u32 ^ 0u32 == 0u32) by (bit_vector);
    }
}

/// Multiplication distributes over addition on the left.
proof fn lemma_mul_bits_linear(a1: u32, a2: u32, b: u32, n: nat)
    ensures
        mul_bits(a1 ^ a2, b, n) == mul_bits(a1, b, n) ^ mul_bits(a2, b, n),
    decreases n,
{
    if n == 0 {
        assert(0u32 ^ 0u32 == 0u32) by (bit_vector);
    } else {
        lemma_xtime_linear(a1, a2);
        lemma_mul_bits_linear(xtime(a1), xtime(a2), b >> 1u32, (n - 1) as nat);
        let r1 = mul_bits(xtime(a1), b >> 1u32, (n - 1) as nat);
        let r2 = mul_bits(xtime(a2), b >> 1u32, (n - 1) as nat);
        assert((if b & 1u32 == 1u32 { a1 ^ a2 } else { 0u32 }) ^ (r1 ^ r2)
            == ((if b & 1u32 == 1u32 { a1 } else { 0u32 }) ^ r1)
            ^ ((if b & 1u32 == 1u32 { a2 } else { 0u32 }) ^ r2)) by (bit_vector);
    }
}

proof fn lemma_mul_bits_xtime(a: u32, b: u32, n: nat)
    ensures
        mul_bits(xtime(a), b, n) == xtime(mul_bits(a, b, n)),
    decreases n,
{
    if n == 0 {
        lemma_xtime_linear(0, 0);
    } else {
        lemma_mul_bits_xtime(xtime(a), b >> 1u32, (n - 1) as nat);
        let low: u32 = if b & 1u32 == 1u32 { a } else { 0 };
        lemma_xtime_linear(low, mul_bits(xtime(a), b >> 1u32, (n - 1) as nat));
        lemma_xtime_linear(0, 0);
    }
}

/// mul(mul(a, b), c) == mul(mul(a, c), b), on the first `n` bits of `b`.
proof fn lemma_mul_bits_swap(a: u32, b: u32, c: u32, n: nat)
    ensures
        mul_bits(mul_bits(a, b, n), c, 32) == mul_bits(mul_bits(a, c, 32), b, n),
    decreases n,
{
    if n == 0 {
        lemma_mul_bits_zero(c, 32);
    } else {
        let low: u32 = if b & 1u32 == 1u32 { a } else { 0 };
        let rest = mul_bits(xtime(a), b >> 1u32, (n - 1) as nat);
        lemma_mul_bits_linear(low, rest, c, 32);
        lemma_mul_bits_zero(c, 32);
        lemma_mul_bits_swap(xtime(a), b >> 1u32, c, (n - 1) as nat);
        lemma_mul_bits_xtime(a, c, 32);
    }
}

proof fn lemma_mul_bits_unit(y: u32, k: u32)
    requires
        k < 32,
    ensures
        mul_bits(1u32 << k, y >> k, (32 - k) as nat) == (y >> k) << k,
    decreases 32 - k,
{
    let n = (32 - k) as nat;
    let a = 1u32 << k;
    let b = y >> k;
    if k == 31 {
        assert(mul_bits(xtime(a), b >> 1u32, 0) == 0);
        assert((if (y >> 31u32) & 1u32 == 1u32 { 1u32 << 31u32 } else { 0u32 }) ^ 0u32
            == (y >> 31u32) << 31u32) by (bit_vector);
    } else {
        lemma_mul_bits_unit(y, (k + 1) as u32);
        assert(xtime(a) == 1u32 << ((k + 1) as u32)) by {
            assert(k < 31 ==> (if (1u32 << k) & 0x8000_0000u32 != 0 { ((1u32 << k) << 1u32) ^ 0x8Du32 }
                else { (1u32 << k) << 1u32 }) == 1u32 << ((k + 1) as u32)) by (bit_vector);
        }
        assert((y >> k) >> 1u32 == y >> ((k + 1) as u32)) by (bit_vector)
            requires
                k < 31,
        ;
        assert(k < 31 ==> (if (y >> k) & 1u32 == 1u32 { 1u32 << k } else { 0u32 })
            ^ ((y >> ((k + 1) as u32)) << ((k + 1) as u32)) == (y >> k) << k) by (bit_vector);
    }
}

/// One is the unit of multiplication.
proof fn lemma_mul_one(y: u32)
    ensures
        mul_bits(1, y, 32) == y,
{
    lemma_mul_bits_unit(y, 0);
    assert(1u32 << 0u32 == 1u32 && y >> 0u32 == y && y << 0u32 == y) by (bit_vector);
}

/// Multiplication in GF(2^32) is commutative.
pub proof fn lemma_mul_commutative(a: GfElem, b: GfElem)
    ensures
        gf_mul(a, b) == gf_mul(b, a),
{
    lemma_mul_bits_swap(1, a.0, b.0, 32);
    lemma_mul_one(a.0);
    lemma_mul_one(b.0);
}

/// One is the unit of multiplication.
pub proof fn lemma_mul_one_left(a: GfElem)
    ensures
        gf_mul(GfElem(1), a) == a,
        gf_mul(a, GfElem(1)) == a,
{
    lemma_mul_one(a.0);
    lemma_mul_commutative(GfElem(1), a);
}

/// Multiplication in GF(2^32) is associative.
pub proof fn lemma_mul_associative(a: GfElem, b: GfElem, c: GfElem)
    ensures
        gf_mul(gf_mul(a, b), c) == gf_mul(a, gf_mul(b, c)),
{
    lemma_mul_bits_swap(a.0, b.0, c.0, 32);
    lemma_mul_bits_swap(b.0, c.0, a.0, 32);
    lemma_mul_commutative(a, b);
    lemma_mul_commutative(a, gf_mul(b, c));
    lemma_mul_commutative(a, c);
    lemma_mul_bits_swap(c.0, a.0, b.0, 32);
    lemma_mul_commutative(c, gf_mul(a, b));
    lemma_mul_commutative(b, c);
}

proof fn lemma_mul_bits_by_zero(a: u32, n: nat)
    ensures
        mul_bits(a, 0, n) == 0,
    decreases n,
{
    if n > 0 {
        lemma_mul_bits_by_zero(xtime(a), (n - 1) as nat);
        assert(0u32 & 1u32 != 1u32 && 0u32 >> 1u32 == 0u32 && 0u32 ^ 0u32 == 0u32) by (bit_vector);
    }
}

/// Zero is the unit of addition.
pub proof fn lemma_add_zero(a: GfElem)
    ensures
        gf_add(a, GfElem(0)) == a,
        gf_add(GfElem(0), a) == a,
{
    let v = a.0;
    assert(v ^ 0u32 == v && 0u32 ^ v == v) by (bit_vector);
}

/// Zero absorbs multiplication.
pub proof fn lemma_mul_zero(a: GfElem)
    ensures
        gf_mul(a, GfElem(0)) == GfElem(0),
{
    lemma_mul_bits_by_zero(a.0, 32);
}

proof fn lemma_frobenius_one(i: nat)
    ensures
        frobenius(GfElem(1), i) == GfElem(1),
        frobenius_product(GfElem(1), i) == GfElem(1),
    decreases i,
{
    lemma_mul_one_left(GfElem(1));
    if i > 0 {
        lemma_frobenius_one((i - 1) as nat);
    }
}

/// One is its own inverse.
pub proof fn lemma_inv_one()
    ensures
        gf_inv(GfElem(1)) == GfElem(1),
{
    lemma_frobenius_one(31);
}

} // verus!
