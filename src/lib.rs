//! Shamir secret sharing over GF(2^32), with a compact wire encoding for shards.
use vstd::prelude::*;

pub mod gf;
pub mod poly;
pub mod varint;
pub mod shard;
pub mod wire;
pub mod dealer;
pub mod recover;

pub use dealer::Dealer;
pub use gf::GfElem;
pub use poly::GfPolynomial;
pub use recover::{recover_secret, RecoverError};
pub use shard::Shard;
pub use wire::WireError;
