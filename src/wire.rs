//! The wire encoding of a shard: a run of unsigned varints.
use vstd::prelude::*;
use crate::gf::GfElem;
use crate::shard::Shard;
use crate::varint::{leb128, encode_u32, encode_u64, decode_u32, decode_u64, varint_parse, lemma_parse_bounds, lemma_parse_leb128, lemma_leb128_len, pow128};

verus! {

/// The varints of each element of `ys`, in order.
pub open spec fn ys_wire(ys: Seq<GfElem>) -> Seq<u8>
    decreases ys.len(),
{
    if ys.len() == 0 {
        seq![]
    } else {
        ys_wire(ys.drop_last()) + leb128(ys.last().0 as nat)
    }
}

/// The wire bytes of a shard: x, the number of ys, each y, the threshold and the
/// secret length, each as a varint.
pub open spec fn shard_wire(x: GfElem, ys: Seq<GfElem>, threshold: u32, secret_len: usize) -> Seq<u8> {
    leb128(x.0 as nat) + leb128(ys.len()) + ys_wire(ys) + leb128(threshold as nat)
        + leb128(secret_len as nat)
}

impl Shard {
    pub open spec fn wire(&self) -> Seq<u8> {
        shard_wire(self.x, self.ys@, self.threshold, self.secret_len)
    }

    /// The wire encoding of the shard.
    pub fn to_wire(&self) -> (r: Vec<u8>)
        ensures
            r@ == self.wire(),
    {
        let mut bytes = encode_u32(self.x.0);
        let mut len = encode_u64(self.ys.len() as u64);
        bytes.append(&mut len);
        let mut i: usize = 0;
        while i < self.ys.len()
            invariant
                i <= self.ys@.len(),
                bytes@ == leb128(self.x.0 as nat) + leb128(self.ys@.len()) + ys_wire(self.ys@.take(i as int)),
            decreases self.ys@.len() - i,
        {
            let mut y = encode_u32(self.ys[i].0);
            bytes.append(&mut y);
            assert(self.ys@.take(i + 1).drop_last() =~= self.ys@.take(i as int));
            i = i + 1;
        }
        assert(self.ys@.take(i as int) =~= self.ys@);
        let mut t = encode_u32(self.threshold);
        bytes.append(&mut t);
        let mut n = encode_u64(self.secret_len as u64);
        bytes.append(&mut n);
        bytes
    }
}

/// Why bytes were refused as a shard.
#[derive(Clone, Copy, Debug, PartialEq, Eq, Structural)]
pub enum WireError {
    /// The varint that starts at `offset` is cut short, too long or not minimal.
    Malformed { offset: usize },
    /// A whole shard was read, but bytes follow it from `offset` on.
    TrailingBytes { offset: usize },
}

/// A 32-bit varint read at `pos`: its value and the index past it.
pub open spec fn read_u32(buf: Seq<u8>, pos: nat) -> Option<(u32, nat)> {
    match varint_parse(buf.skip(pos as int), 0, 4) {
        Some((v, end)) => Some(((v % 0x1_0000_0000) as u32, pos + end)),
        None => None,
    }
}

/// A 64-bit varint read at `pos` that fits in a `usize`: its value and the index
/// past it.
pub open spec fn read_usize(buf: Seq<u8>, pos: nat) -> Option<(usize, nat)> {
    match varint_parse(buf.skip(pos as int), 0, 9) {
        Some((v, end)) => {
            let w = v % 0x1_0000_0000_0000_0000;
            if w <= usize::MAX {
                Some((w as usize, pos + end))
            } else {
                None
            }
        },
        None => None,
    }
}

/// `count` 32-bit varints read from `pos` on: the elements and the index past them,
/// or the index of the first one that cannot be read.
pub open spec fn read_ys(buf: Seq<u8>, pos: nat, count: nat) -> Result<(Seq<GfElem>, nat), nat>
    decreases count,
{
    if count == 0 {
        Ok((seq![], pos))
    } else {
        match read_ys(buf, pos, (count - 1) as nat) {
            Ok((ys, p)) => match read_u32(buf, p) {
                Some((v, q)) => Ok((ys.push(GfElem(v)), q)),
                None => Err(p),
            },
            Err(e) => Err(e),
        }
    }
}

/// The fields of a shard read from the start of `buf` and the index past them, or
/// the index of the varint that cannot be read.
pub open spec fn parse_shard(buf: Seq<u8>) -> Result<((GfElem, Seq<GfElem>, u32, usize), nat), nat> {
    match read_u32(buf, 0) {
        None => Err(0),
        Some((x, at1)) => match read_usize(buf, at1) {
            None => Err(at1),
            Some((n, at2)) => match read_ys(buf, at2, n as nat) {
                Err(e) => Err(e),
                Ok((ys, at3)) => match read_u32(buf, at3) {
                    None => Err(at3),
                    Some((t, at4)) => match read_usize(buf, at4) {
                        None => Err(at4),
                        Some((l, at5)) => Ok(((GfElem(x), ys, t, l), at5)),
                    },
                },
            },
        },
    }
}

/// The fields of the shard that `buf` holds exactly, or why it does not hold one.
pub open spec fn decode_shard(buf: Seq<u8>) -> Result<(GfElem, Seq<GfElem>, u32, usize), WireError> {
    match parse_shard(buf) {
        Err(off) => Err(WireError::Malformed { offset: off as usize }),
        Ok((m, end)) => if end == buf.len() {
            Ok(m)
        } else {
            Err(WireError::TrailingBytes { offset: end as usize })
        },
    }
}

proof fn lemma_read_ys_err(buf: Seq<u8>, pos: nat, c: nat, d: nat)
    requires
        c <= d,
        read_ys(buf, pos, c) is Err,
    ensures
        read_ys(buf, pos, d) == read_ys(buf, pos, c),
    decreases d,
{
    if d > c {
        lemma_read_ys_err(buf, pos, c, (d - 1) as nat);
    }
}

/// Reads a 32-bit varint from the front of `cur`, which stands at `pos` in `input`.
fn next_u32<'a>(input: &[u8], cur: &'a [u8], pos: usize) -> (r: Result<(u32, &'a [u8], usize), WireError>)
    requires
        pos <= input@.len(),
        cur@ == input@.skip(pos as int),
    ensures
        match read_u32(input@, pos as nat) {
            Some((v, end)) => r matches Ok((n, rest, p)) && n == v && p == end && end <= input@.len()
                && rest@ == input@.skip(end as int),
            None => r == Err::<(u32, &[u8], usize), WireError>(WireError::Malformed { offset: pos }),
        },
{
    proof {
        lemma_parse_bounds(cur@, 0, 4);
    }
    match decode_u32(cur) {
        Ok((n, rest)) => {
            let p = input.len() - rest.len();
            assert(input@.skip(pos as int).skip(p - pos) =~= input@.skip(p as int));
            Ok((n, rest, p))
        },
        Err(_) => Err(WireError::Malformed { offset: pos }),
    }
}

/// Reads a varint that fits in a `usize` from the front of `cur`, which stands at
/// `pos` in `input`.
fn next_usize<'a>(input: &[u8], cur: &'a [u8], pos: usize) -> (r: Result<(usize, &'a [u8], usize), WireError>)
    requires
        pos <= input@.len(),
        cur@ == input@.skip(pos as int),
    ensures
        match read_usize(input@, pos as nat) {
            Some((v, end)) => r matches Ok((n, rest, p)) && n == v && p == end && end <= input@.len()
                && rest@ == input@.skip(end as int),
            None => r == Err::<(usize, &[u8], usize), WireError>(WireError::Malformed { offset: pos }),
        },
{
    proof {
        lemma_parse_bounds(cur@, 0, 9);
    }
    match decode_u64(cur) {
        Ok((n, rest)) => {
            if n > usize::MAX as u64 {
                return Err(WireError::Malformed { offset: pos });
            }
            let p = input.len() - rest.len();
            assert(input@.skip(pos as int).skip(p - pos) =~= input@.skip(p as int));
            Ok((n as usize, rest, p))
        },
        Err(_) => Err(WireError::Malformed { offset: pos }),
    }
}

impl Shard {
    /// The fields of the shard.
    pub open spec fn model(&self) -> (GfElem, Seq<GfElem>, u32, usize) {
        (self.x, self.ys@, self.threshold, self.secret_len)
    }

    /// Reads a shard from the front of `input` and hands back the bytes after it.
    pub fn from_wire_partial(input: &[u8]) -> (r: Result<(Shard, &[u8]), WireError>)
        ensures
            match parse_shard(input@) {
                Ok((m, end)) => r matches Ok((q, rest)) && q.model() == m && end <= input@.len()
                    && rest@ == input@.skip(end as int),
                Err(off) => r == Err::<(Shard, &[u8]), WireError>(WireError::Malformed { offset: off as usize }),
            },
    {
        assert(input@.skip(0) =~= input@);
        let (x, cur, pos) = match next_u32(input, input, 0) {
            Ok(v) => v,
            Err(e) => return Err(e),
        };
        let ghost at1 = pos as nat;
        let (count, cur, pos) = match next_usize(input, cur, pos) {
            Ok(v) => v,
            Err(e) => return Err(e),
        };
        let ghost at2 = pos as nat;
        let mut ys: Vec<GfElem> = Vec::new();
        let mut cur = cur;
        let mut pos = pos;
        let mut k: usize = 0;
        while k < count
            invariant
                k <= count,
                pos <= input@.len(),
                cur@ == input@.skip(pos as int),
                read_u32(input@, 0) == Some((x, at1)),
                read_usize(input@, at1) == Some((count, at2)),
                read_ys(input@, at2, k as nat) == Ok::<(Seq<GfElem>, nat), nat>((ys@, pos as nat)),
            decreases count - k,
        {
            let (y, rest, p) = match next_u32(input, cur, pos) {
                Ok(v) => v,
                Err(e) => {
                    proof {
                        assert(read_ys(input@, at2, (k + 1) as nat) == Err::<(Seq<GfElem>, nat), nat>(pos as nat));
                        lemma_read_ys_err(input@, at2, (k + 1) as nat, count as nat);
                    }
                    return Err(e);
                },
            };
            ys.push(GfElem::from_inner(y));
            cur = rest;
            pos = p;
            k = k + 1;
        }
        let (threshold, cur, pos) = match next_u32(input, cur, pos) {
            Ok(v) => v,
            Err(e) => return Err(e),
        };
        let (secret_len, cur, pos) = match next_usize(input, cur, pos) {
            Ok(v) => v,
            Err(e) => return Err(e),
        };
        Ok((Shard { x: GfElem::from_inner(x), ys, secret_len, threshold }, cur))
    }

    /// Reads a shard that fills `input` exactly.
    pub fn from_wire(input: &[u8]) -> (r: Result<Shard, WireError>)
        ensures
            match decode_shard(input@) {
                Ok(m) => r matches Ok(q) && q.model() == m,
                Err(e) => r == Err::<Shard, WireError>(e),
            },
    {
        match Self::from_wire_partial(input) {
            Ok((q, rest)) => {
                if rest.len() == 0 {
                    Ok(q)
                } else {
                    Err(WireError::TrailingBytes { offset: input.len() - rest.len() })
                }
            },
            Err(e) => Err(e),
        }
    }
}

proof fn lemma_read_u32_leb(buf: Seq<u8>, pos: nat, n: u32)
    requires
        pos + leb128(n as nat).len() <= buf.len(),
        buf.subrange(pos as int, (pos + leb128(n as nat).len()) as int) == leb128(n as nat),
    ensures
        read_u32(buf, pos) == Some((n, pos + leb128(n as nat).len())),
{
    let e = leb128(n as nat);
    reveal_with_fuel(pow128, 6);
    lemma_leb128_len(n as nat, 5);
    let b = buf.skip(pos as int);
    assert(b.subrange(0, e.len() as int) =~= buf.subrange(pos as int, (pos + e.len()) as int));
    lemma_parse_leb128(b, 0, 4, n as nat);
}

proof fn lemma_read_usize_leb(buf: Seq<u8>, pos: nat, n: usize)
    requires
        pos + leb128(n as nat).len() <= buf.len(),
        buf.subrange(pos as int, (pos + leb128(n as nat).len()) as int) == leb128(n as nat),
    ensures
        read_usize(buf, pos) == Some((n, pos + leb128(n as nat).len())),
{
    let e = leb128(n as nat);
    reveal_with_fuel(pow128, 11);
    lemma_leb128_len(n as nat, 10);
    let b = buf.skip(pos as int);
    assert(b.subrange(0, e.len() as int) =~= buf.subrange(pos as int, (pos + e.len()) as int));
    lemma_parse_leb128(b, 0, 9, n as nat);
}

proof fn lemma_read_ys_wire(buf: Seq<u8>, pos: nat, ys: Seq<GfElem>)
    requires
        pos + ys_wire(ys).len() <= buf.len(),
        buf.subrange(pos as int, (pos + ys_wire(ys).len()) as int) == ys_wire(ys),
    ensures
        read_ys(buf, pos, ys.len()) == Ok::<(Seq<GfElem>, nat), nat>((ys, pos + ys_wire(ys).len())),
    decreases ys.len(),
{
    if ys.len() > 0 {
        let init = ys.drop_last();
        let w0 = ys_wire(init);
        let l = leb128(ys.last().0 as nat);
        let w = ys_wire(ys);
        assert(w == w0 + l);
        assert(buf.subrange(pos as int, (pos + w0.len()) as int) =~= w0) by {
            assert forall|k: int| 0 <= k < w0.len() implies buf[pos + k] == w0[k] by {
                assert(buf.subrange(pos as int, (pos + w.len()) as int)[k] == w[k]);
            }
        }
        assert(buf.subrange((pos + w0.len()) as int, (pos + w.len()) as int) =~= l) by {
            assert forall|k: int| 0 <= k < l.len() implies buf[pos + w0.len() + k] == l[k] by {
                assert(buf.subrange(pos as int, (pos + w.len()) as int)[w0.len() + k] == w[w0.len() + k]);
            }
        }
        lemma_read_ys_wire(buf, pos, init);
        lemma_read_u32_leb(buf, pos + w0.len(), ys.last().0);
        assert(init.push(GfElem(ys.last().0)) =~= ys);
        assert(((ys.len() - 1) as nat) == init.len());
        assert(read_ys(buf, pos, init.len()) == Ok::<(Seq<GfElem>, nat), nat>((init, pos + w0.len())));
        assert(read_u32(buf, pos + w0.len()) == Some((ys.last().0, pos + w0.len() + l.len())));
        assert(w.len() == w0.len() + l.len());
    } else {
        assert(ys =~= seq![]);
    }
}

/// Decoding the wire bytes of any shard gives back exactly its fields.
pub proof fn lemma_wire_round_trip(q: Shard)
    requires
        q.ys@.len() <= usize::MAX,
    ensures
        decode_shard(q.wire()) == Ok::<(GfElem, Seq<GfElem>, u32, usize), WireError>(q.model()),
{
    let w = q.wire();
    let a = leb128(q.x.0 as nat);
    let b = leb128(q.ys@.len());
    let c = ys_wire(q.ys@);
    let d = leb128(q.threshold as nat);
    let e = leb128(q.secret_len as nat);
    let n = q.ys@.len() as usize;
    assert(w == a + b + c + d + e);
    let at1 = a.len();
    let at2 = at1 + b.len();
    let at3 = at2 + c.len();
    let at4 = at3 + d.len();
    let at5 = at4 + e.len();
    assert(w.subrange(0, at1 as int) =~= a);
    assert(w.subrange(at1 as int, at2 as int) =~= b);
    assert(w.subrange(at2 as int, at3 as int) =~= c);
    assert(w.subrange(at3 as int, at4 as int) =~= d);
    assert(w.subrange(at4 as int, at5 as int) =~= e);
    lemma_read_u32_leb(w, 0, q.x.0);
    lemma_read_usize_leb(w, at1, n);
    lemma_read_ys_wire(w, at2, q.ys@);
    lemma_read_u32_leb(w, at3, q.threshold);
    lemma_read_usize_leb(w, at4, q.secret_len);
}


} // verus!
