//! Diagnostic metadata about payload types: the descriptor every type exposes
//! through [`crate::PayloadInfo::describe`], and the stable name hash.

use vstd::prelude::*;

pub mod helper;

pub use helper::size_add;
pub use helper::size_array;
pub use helper::size_max;
pub use helper::size_mul;

verus! {

/// What [`crate::PayloadInfo::describe`] reports of a type: its declared name,
/// a stable content hash of that name, and its wire width where fixed.
pub struct TypeDescriptor {
    pub name: &'static str,
    pub hash: u64,
    pub size: Option<usize>,
}

/// The 64-bit XXH3 digest of a type name: what `xxhash_rust::xxh3::xxh3_64`
/// returns on the name's UTF-8 bytes, a function of the name alone.
pub uninterp spec fn xxh3_of(name: Seq<char>) -> u64;

/// Relies on `xxhash_rust::xxh3::xxh3_64`: the digest depends on the input
/// bytes alone.
#[verifier::external_body]
pub fn payload_hash(name: &str) -> (r: u64)
    ensures
        r == xxh3_of(name@),
{
    xxhash_rust::xxh3::xxh3_64(name.as_bytes())
}

} // verus!
