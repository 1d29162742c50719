//! Unsigned LEB128 varints: a model of the encoding, and the calls into
//! `unsigned_varint` that produce and read it.
use vstd::prelude::*;

verus! {

#[verifier::external_type_specification]
#[verifier::external_body]
pub struct ExVarintError(unsigned_varint::decode::Error);

/// The minimal unsigned LEB128 encoding of `n`: 7 bits per byte, least significant
/// group first, the high bit set on every byte but the last.
pub open spec fn leb128(n: nat) -> Seq<u8>
    decreases n,
{
    if n < 128 {
        seq![n as u8]
    } else {
        seq![(n % 128 + 128) as u8] + leb128(n / 128)
    }
}

/// Reading a varint from `buf` starting at index `i`, where the byte at index `max`
/// must be the last one: the value read from `i` on (groups weighted from `i`) and
/// the index just past it. `None` when the input ends first, when the byte at `max`
/// is not the last one, or when a last byte other than the first is zero.
pub open spec fn varint_parse(buf: Seq<u8>, i: nat, max: nat) -> Option<(nat, nat)>
    decreases buf.len() - i,
{
    if i >= buf.len() {
        None
    } else if buf[i as int] < 128 {
        if buf[i as int] == 0 && i > 0 {
            None
        } else {
            Some((buf[i as int] as nat, i + 1))
        }
    } else if i == max {
        None
    } else {
        match varint_parse(buf, i + 1, max) {
            Some((v, end)) => Some((((buf[i as int] - 128) + 128 * v) as nat, end)),
            None => None,
        }
    }
}

/// Relies on unsigned_varint::encode::u32: the minimal LEB128 bytes of `n`.
#[verifier::external_body]
pub(crate) fn encode_u32(n: u32) -> (r: Vec<u8>)
    ensures
        r@ == leb128(n as nat),
{
    unsigned_varint::encode::u32(n, &mut unsigned_varint::encode::u32_buffer()).to_vec()
}

/// Relies on unsigned_varint::encode::u64: the minimal LEB128 bytes of `n`.
#[verifier::external_body]
pub(crate) fn encode_u64(n: u64) -> (r: Vec<u8>)
    ensures
        r@ == leb128(n as nat),
{
    unsigned_varint::encode::u64(n, &mut unsigned_varint::encode::u64_buffer()).to_vec()
}

/// Relies on unsigned_varint::decode::u32: reads at most five bytes, the value
/// wrapping to 32 bits, and hands back the bytes after it.
#[verifier::external_body]
pub(crate) fn decode_u32(buf: &[u8]) -> (r: Result<(u32, &[u8]), unsigned_varint::decode::Error>)
    ensures
        match varint_parse(buf@, 0, 4) {
            Some((v, end)) => r matches Ok((n, rest)) && n as nat == v % 0x1_0000_0000
                && rest@ == buf@.skip(end as int),
            None => r is Err,
        },
{
    unsigned_varint::decode::u32(buf)
}

/// Relies on unsigned_varint::decode::u64: reads at most ten bytes, the value
/// wrapping to 64 bits, and hands back the bytes after it.
#[verifier::external_body]
pub(crate) fn decode_u64(buf: &[u8]) -> (r: Result<(u64, &[u8]), unsigned_varint::decode::Error>)
    ensures
        match varint_parse(buf@, 0, 9) {
            Some((v, end)) => r matches Ok((n, rest)) && n as nat == v % 0x1_0000_0000_0000_0000
                && rest@ == buf@.skip(end as int),
            None => r is Err,
        },
{
    unsigned_varint::decode::u64(buf)
}

pub proof fn lemma_parse_bounds(buf: Seq<u8>, i: nat, max: nat)
    ensures
        varint_parse(buf, i, max) matches Some((v, end)) ==> i < end <= buf.len(),
    decreases buf.len() - i,
{
    if i < buf.len() && buf[i as int] >= 128 && i != max {
        lemma_parse_bounds(buf, i + 1, max);
    }
}

pub open spec fn pow128(k: nat) -> nat
    decreases k,
{
    if k == 0 {
        1
    } else {
        128 * pow128((k - 1) as nat)
    }
}

pub proof fn lemma_leb128_len(n: nat, k: nat)
    requires
        n < pow128(k),
        k >= 1,
    ensures
        1 <= leb128(n).len() <= k,
    decreases n,
{
    if n >= 128 {
        assert(k > 0);
        let p = pow128((k - 1) as nat);
        assert(n / 128 < p) by (nonlinear_arith)
            requires
                n < 128 * p,
        ;
        assert(pow128(0) == 1);
        assert(k > 1);
        lemma_leb128_len(n / 128, (k - 1) as nat);
    }
}

/// Reading the encoding of `n` back where it stands in `buf` gives `n` and the
/// index just past it.
pub proof fn lemma_parse_leb128(buf: Seq<u8>, i: nat, max: nat, n: nat)
    requires
        i + leb128(n).len() <= buf.len(),
        i + leb128(n).len() <= max + 1,
        buf.subrange(i as int, (i + leb128(n).len()) as int) == leb128(n),
        i > 0 ==> n > 0,
    ensures
        varint_parse(buf, i, max) == Some((n, i + leb128(n).len())),
    decreases n,
{
    let e = leb128(n);
    assert(buf[i as int] == buf.subrange(i as int, (i + e.len()) as int)[0]);
    if n >= 128 {
        let t = leb128(n / 128);
        assert(e == seq![(n % 128 + 128) as u8] + t);
        assert(buf.subrange((i + 1) as int, (i + 1 + t.len()) as int) =~= buf.subrange(i as int, (i + e.len()) as int).subrange(1, e.len() as int));
        assert(e.subrange(1, e.len() as int) =~= t);
        lemma_parse_leb128(buf, i + 1, max, n / 128);
    }
}

} // verus!
