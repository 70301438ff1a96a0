//! Primitive value codec and multicall encoder for a StarkNet-style chain:
//! field elements parsed and formatted in decimal, hex, and short-string
//! form; 256-bit values split across felt pairs; and batches of contract
//! calls flattened into the calldata layout of an on-chain execute entry
//! point. Every conversion carries a contract that pins its result.

pub mod codec;
pub mod felt;
pub mod num;
pub mod probe;
pub mod shortstring;
pub mod u256;
pub mod hashing;
pub mod multicall;

pub use felt::Felt;
pub use probe::SimpleProbe;
pub use probe::WalletOptions;

use vstd::prelude::*;

verus! {

/// The StarkNet field prime: 2^251 + 17 * 2^192 + 1.
pub open spec fn field_prime() -> nat {
    0x800000000000011000000000000000000000000000000000000000000000001nat
}

} // verus!
