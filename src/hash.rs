use std::collections::hash_map::DefaultHasher;
use std::hash::Hasher;
use vstd::prelude::*;
use vstd::std_specs::hash::DefaultHasherAdditionalSpecFns;

verus! {

/// The hash of a text: the UTF-8 bytes of the text written once into a fresh
/// `DefaultHasher`, then finished. A fresh `DefaultHasher` is unkeyed, so the
/// value depends on the text alone.
pub open spec fn text_hash(s: Seq<char>) -> u64 {
    DefaultHasher::spec_finish(seq![vstd::utf8::encode_utf8(s)])
}

/// Hashes a text to a 64-bit identifier.
pub fn get(s: &str) -> (r: u64)
    ensures
        r == text_hash(s@),
{
    let mut hasher = DefaultHasher::new();
    hasher.write(s.as_bytes());
    hasher.finish()
}

} // verus!
