//! A verified on-chain namespace indexer.
//!
//! The library consumes an append-only log of namespace events — `Mint` of a
//! new named entry under an existing parent, `Note` (a mutable, versioned
//! annotation) and `Fact` (an immutable, write-once annotation) — and
//! maintains a hash-addressed tree mirroring the on-chain namespace, with a
//! secondary lookup from fully-qualified dotted names to namehashes.
use vstd::prelude::*;
use vstd::string::StringExecFns;

pub mod strs;
pub mod alists;
pub mod sorted;
pub mod node;
pub mod errors;
pub mod state;
pub mod numfmt;
pub mod render;
pub mod hex;
pub mod abi;
pub mod decode;
pub mod control;
pub mod laws;
pub mod api;
pub mod snapshot;
pub mod restore;

verus! {

/// The well-known namehash of the namespace root entry: the zero hash.
pub open spec fn spec_root_hash() -> Seq<char> {
    "0x0000000000000000000000000000000000000000000000000000000000000000"@
}

/// Returns the root namehash as a string.
pub fn root_hash() -> (r: String)
    ensures
        r@ == spec_root_hash(),
{
    String::from_str("0x0000000000000000000000000000000000000000000000000000000000000000")
}

} // verus!
