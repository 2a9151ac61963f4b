//! Key digests: the 64-bit values from which a table derives a key's home slot.
//!
//! The digest is the one produced by the standard library's `DefaultHasher`
//! after the key has been fed to it through `Hash::hash`. The hasher is created
//! with fixed keys, so within one build of a program a key's digest is the same
//! on every call. The standard library does not promise the same digests across
//! its releases or across platforms, and nothing here depends on the value of
//! a digest: only on its being a function of the key.

use std::collections::hash_map::DefaultHasher;
use std::hash::{Hash, Hasher};
use vstd::prelude::*;
use vstd::std_specs::hash::DefaultHasherAdditionalSpecFns;

verus! {

/// The writes a `DefaultHasher` has received once `<[u8] as Hash>::hash` has
/// run on it, given the writes it had received before and the slice hashed.
pub uninterp spec fn fed_bytes(before: Seq<Seq<u8>>, key: Seq<u8>) -> Seq<Seq<u8>>;

/// The writes a `DefaultHasher` has received once `<str as Hash>::hash` has
/// run on it, given the writes it had received before and the string hashed.
pub uninterp spec fn fed_str(before: Seq<Seq<u8>>, key: Seq<char>) -> Seq<Seq<u8>>;

/// Calls `<[u8] as Hash>::hash` with a `DefaultHasher` as the state.
///
/// Trusted: the hasher's record of writes afterwards depends only on its
/// record before the call and on the bytes of the slice. Which writes the
/// standard library makes for a slice is left unnamed.
#[verifier::external_body]
fn feed_bytes(hasher: &mut DefaultHasher, key: &[u8])
    ensures
        final(hasher)@ == fed_bytes(old(hasher)@, key@),
{
    key.hash(hasher);
}

/// Calls `<str as Hash>::hash` with a `DefaultHasher` as the state.
///
/// Trusted: the hasher's record of writes afterwards depends only on its
/// record before the call and on the characters of the string. Which writes
/// the standard library makes for a string is left unnamed.
#[verifier::external_body]
fn feed_str(hasher: &mut DefaultHasher, key: &str)
    ensures
        final(hasher)@ == fed_str(old(hasher)@, key@),
{
    key.hash(hasher);
}

/// The digest of a byte-string key.
pub open spec fn bytes_digest(key: Seq<u8>) -> u64 {
    DefaultHasher::spec_finish(fed_bytes(Seq::empty(), key))
}

/// The digest of a text key.
pub open spec fn str_digest(key: Seq<char>) -> u64 {
    DefaultHasher::spec_finish(fed_str(Seq::empty(), key))
}

/// Computes the digest of a byte-string key with a fresh `DefaultHasher`.
pub fn digest_bytes(key: &[u8]) -> (digest: u64)
    ensures
        digest == bytes_digest(key@),
{
    let mut hasher = DefaultHasher::new();
    feed_bytes(&mut hasher, key);
    hasher.finish()
}

/// Computes the digest of a text key with a fresh `DefaultHasher`.
pub fn digest_str(key: &str) -> (digest: u64)
    ensures
        digest == str_digest(key@),
{
    let mut hasher = DefaultHasher::new();
    feed_str(&mut hasher, key);
    hasher.finish()
}

} // verus!
