//! A feed reader core: an ordered, deduplicated, read/unread-tracking post
//! store, pure feed extraction, a fetch protocol, and a persisted store
//! backed by an embedded key-value database.

use vstd::prelude::*;

verus! {

use vstd::string::StringSliceAdditionalSpecFns;

/// One step of the FNV-1a hash: xor the byte in, then multiply by the prime,
/// wrapping on overflow.
pub open spec fn fnv1a_step(h: u64, b: u8) -> u64 {
    vstd::wrapping::u64_specs::wrapping_mul(h ^ (b as u64), 0x100000001b3)
}

/// The FNV-1a hash of the first `n` bytes of `bytes`.
pub open spec fn fnv1a_prefix(bytes: Seq<u8>, n: int) -> u64
    decreases n,
{
    if n <= 0 {
        0xcbf29ce484222325
    } else {
        fnv1a_step(fnv1a_prefix(bytes, n - 1), bytes[n - 1])
    }
}

/// The FNV-1a hash of a byte sequence.
pub open spec fn fnv1a(bytes: Seq<u8>) -> u64 {
    fnv1a_prefix(bytes, bytes.len() as int)
}

/// FNV-1a over the UTF-8 bytes of `s`, as a number.
fn hash_value(s: &str) -> (h: u64)
    ensures
        h == fnv1a(s.spec_bytes()),
{
    let bytes = s.as_bytes();
    let mut h: u64 = 0xcbf29ce484222325;
    let mut i: usize = 0;
    while i < bytes.len()
        invariant
            i <= bytes.len(),
            bytes@ == s.spec_bytes(),
            h == fnv1a_prefix(bytes@, i as int),
        decreases bytes.len() - i,
    {
        h = (h ^ (bytes[i] as u64)).wrapping_mul(0x100000001b3);
        i = i + 1;
    }
    h
}

/// Generates a stable identifier string for `s`: the decimal rendering of the
/// FNV-1a hash of its UTF-8 bytes. The same text gives the same identifier in
/// every run, so re-fetching a feed does not mint fresh identifiers for
/// identical items.
pub fn hash(s: &str) -> (r: String)
    ensures
        r@ == crate::text::decimal(fnv1a(s.spec_bytes()) as nat),
{
    let h = hash_value(s);
    crate::text::u64_to_string(h)
}

} // verus!

pub mod codec;
pub mod config;
pub mod extract;
pub mod fetch;
pub mod post;
pub mod posts;
pub mod store;
pub mod text;
