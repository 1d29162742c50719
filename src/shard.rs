//! A shard: one evaluation of every polynomial of a sharing, and its identifier.
use vstd::prelude::*;
use vstd::string::*;
use crate::gf::{GfElem, elem_bytes};

verus! {

/// The z-base-32 text ("full bytes" form, no padding) of a byte string.
pub uninterp spec fn zbase32_of(b: Seq<u8>) -> Seq<char>;

/// Relies on zbase32::encode_full_bytes: one character per five bits, the last
/// one partial.
#[verifier::external_body]
fn zbase32_full(b: &[u8]) -> (r: String)
    requires
        b@.len() <= 4,
    ensures
        r@ == zbase32_of(b@),
        r@.len() == (8 * b@.len() + 4) / 5,
{
    zbase32::encode_full_bytes(b)
}

/// One evaluation of every polynomial of a sharing at the common abscissa `x`.
#[derive(Clone, Debug, PartialEq, Eq)]
pub struct Shard {
    pub x: GfElem,
    pub ys: Vec<GfElem>,
    pub secret_len: usize,
    pub threshold: u32,
}

/// The identifier of a shard whose abscissa is `x`.
pub open spec fn shard_id(x: GfElem) -> Seq<char> {
    seq!['h'] + zbase32_of(elem_bytes(x))
}

impl Shard {
    pub const ID_LENGTH: usize = 8;

    /// The identifier of the shard: `h` and the z-base-32 text of the four bytes of
    /// its abscissa. Shards with the same identifier cannot be used together.
    pub fn id(&self) -> (r: String)
        ensures
            r@ == shard_id(self.x),
            r@.len() == Shard::ID_LENGTH,
            r@[0] == 'h',
    {
        let bytes = self.x.to_bytes();
        let code = zbase32_full(bytes.as_slice());
        let mut r = String::from_str("h");
        proof {
            reveal_strlit("h");
        }
        r.append(code.as_str());
        r
    }

    /// The number of distinct sister shards needed to recover the secret.
    pub fn threshold(&self) -> (r: u32)
        ensures
            r == self.threshold,
    {
        self.threshold
    }
}

} // verus!
