//! A deterministic string hash and the commutative conflict key.
//!
//! Two planned renames collide exactly when naive sequential execution could
//! interfere — most importantly when they are a mutual swap.  The detector
//! keys each rename by the wrapping sum of the hashes of its two paths: the
//! sum is commutative in the two paths, so a swapped pair necessarily shares
//! a key.  The hash is a 64-bit multiply-and-xor fold (the FNV-1a constants),
//! defined here in full so that every key is a function of the paths alone.

use vstd::prelude::*;

verus! {

/// The starting value of the hash fold.
pub const HASH_SEED: u64 = 0xcbf29ce484222325;

/// The multiplier of the hash fold.
pub const HASH_PRIME: u64 = 0x100000001b3;

/// One step of the fold: absorb character `c` into state `h`.
pub open spec fn hash_step(h: u64, c: char) -> u64 {
    vstd::wrapping::u64_specs::wrapping_mul(h ^ (c as u64), HASH_PRIME)
}

/// The hash state after absorbing the first `i` characters of `s`.
pub open spec fn hash_upto(s: Seq<char>, i: int) -> u64
    decreases i,
{
    if i <= 0 {
        HASH_SEED
    } else {
        hash_step(hash_upto(s, i - 1), s[i - 1])
    }
}

/// The hash of a character sequence.
pub open spec fn hash_chars(s: Seq<char>) -> u64 {
    hash_upto(s, s.len() as int)
}

/// The conflict key of a `(from, to)` path pair: the wrapping sum of the two
/// path hashes, unchanged when `from` and `to` trade places.
pub open spec fn combined_key(from: Seq<char>, to: Seq<char>) -> u64 {
    vstd::wrapping::u64_specs::wrapping_add(hash_chars(from), hash_chars(to))
}

/// The key is commutative: a rename and its exact reversal share a key, which
/// is what lets one lookup catch a swapped pair.
pub proof fn lemma_combined_key_commutes(a: Seq<char>, b: Seq<char>)
    ensures
        combined_key(a, b) == combined_key(b, a),
{
}

/// Compute `hash_chars` of a string.
pub fn hash_str(s: &str) -> (h: u64)
    ensures
        h == hash_chars(s@),
{
    let n = s.unicode_len();
    let mut h: u64 = HASH_SEED;
    let mut i: usize = 0;
    while i < n
        invariant
            i <= n,
            n == s@.len(),
            h == hash_upto(s@, i as int),
        decreases n - i,
    {
        let c = s.get_char(i);
        h = (h ^ (c as u64)).wrapping_mul(HASH_PRIME);
        i = i + 1;
    }
    h
}

} // verus!
