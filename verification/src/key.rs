//! The hashing capability that the table demands of its key types.
//!
//! The table itself never looks inside a key: all it needs is a 64-bit
//! digest that is a function of the key's abstract content, and an equality
//! test that decides content equality.  Both are collected in the [`HashKey`]
//! trait.  Implementations are provided for the common unsigned integer key
//! types, whose digests are computed through `std`'s `DefaultHasher` in
//! verified code, and for string keys, whose digest and comparison lean on
//! `std` primitives behind two small trusted declarations.

use std::collections::hash_map::DefaultHasher;
use std::hash::Hasher;
use vstd::prelude::*;
use vstd::std_specs::hash::DefaultHasherAdditionalSpecFns;

verus! {

/// A key type the table can hash and compare.
///
/// `hash_spec` gives the key's 64-bit digest as a function of the key's
/// abstract content (its view).  Because it is a function of the content
/// alone, two keys with equal content always receive equal digests, which is
/// the determinism the table's bucket addressing relies on.
pub trait HashKey: View + Sized {
    /// The digest of a key with content `v`.
    spec fn hash_spec(v: Self::V) -> u64;

    /// Computes the digest of this key.
    fn hash_code(&self) -> (h: u64)
        ensures
            h == Self::hash_spec(self@),
    ;

    /// Decides whether two keys have equal content.
    fn key_eq(&self, other: &Self) -> (r: bool)
        ensures
            r == (self@ == other@),
    ;
}

/// The little-endian bytes of a 64-bit word.
pub open spec fn u64_le_bytes(x: u64) -> Seq<u8> {
    seq![
        (x & 0xff) as u8,
        ((x >> 8) & 0xff) as u8,
        ((x >> 16) & 0xff) as u8,
        ((x >> 24) & 0xff) as u8,
        ((x >> 32) & 0xff) as u8,
        ((x >> 40) & 0xff) as u8,
        ((x >> 48) & 0xff) as u8,
        ((x >> 56) & 0xff) as u8,
    ]
}

/// The digest of a 64-bit word: `std`'s `DefaultHasher` applied to the
/// word's little-endian bytes, as modelled by vstd.
pub open spec fn u64_digest(x: u64) -> u64 {
    DefaultHasher::spec_finish(seq![u64_le_bytes(x)])
}

/// Computes `u64_digest` by running `DefaultHasher` over the word's bytes.
fn hash_u64(x: u64) -> (h: u64)
    ensures
        h == u64_digest(x),
{
    let mut bytes: Vec<u8> = Vec::new();
    proof {
        assert((x & 0xff) < 256 && ((x >> 8) & 0xff) < 256 && ((x >> 16) & 0xff) < 256
            && ((x >> 24) & 0xff) < 256 && ((x >> 32) & 0xff) < 256 && ((x >> 40) & 0xff) < 256
            && ((x >> 48) & 0xff) < 256 && ((x >> 56) & 0xff) < 256) by (bit_vector);
    }
    bytes.push((x & 0xff) as u8);
    bytes.push(((x >> 8) & 0xff) as u8);
    bytes.push(((x >> 16) & 0xff) as u8);
    bytes.push(((x >> 24) & 0xff) as u8);
    bytes.push(((x >> 32) & 0xff) as u8);
    bytes.push(((x >> 40) & 0xff) as u8);
    bytes.push(((x >> 48) & 0xff) as u8);
    bytes.push(((x >> 56) & 0xff) as u8);
    let mut hasher = DefaultHasher::new();
    hasher.write(bytes.as_slice());
    proof {
        assert(bytes@ =~= u64_le_bytes(x));
        assert(hasher@ =~= seq![u64_le_bytes(x)]);
    }
    hasher.finish()
}

impl HashKey for u64 {
    open spec fn hash_spec(v: u64) -> u64 {
        u64_digest(v)
    }

    fn hash_code(&self) -> (h: u64) {
        hash_u64(*self)
    }

    fn key_eq(&self, other: &Self) -> (r: bool) {
        *self == *other
    }
}

impl HashKey for u32 {
    open spec fn hash_spec(v: u32) -> u64 {
        u64_digest(v as u64)
    }

    fn hash_code(&self) -> (h: u64) {
        hash_u64(*self as u64)
    }

    fn key_eq(&self, other: &Self) -> (r: bool) {
        *self == *other
    }
}

impl HashKey for u16 {
    open spec fn hash_spec(v: u16) -> u64 {
        u64_digest(v as u64)
    }

    fn hash_code(&self) -> (h: u64) {
        hash_u64(*self as u64)
    }

    fn key_eq(&self, other: &Self) -> (r: bool) {
        *self == *other
    }
}

impl HashKey for u8 {
    open spec fn hash_spec(v: u8) -> u64 {
        u64_digest(v as u64)
    }

    fn hash_code(&self) -> (h: u64) {
        hash_u64(*self as u64)
    }

    fn key_eq(&self, other: &Self) -> (r: bool) {
        *self == *other
    }
}

impl HashKey for usize {
    open spec fn hash_spec(v: usize) -> u64 {
        u64_digest(v as u64)
    }

    fn hash_code(&self) -> (h: u64) {
        hash_u64(*self as u64)
    }

    fn key_eq(&self, other: &Self) -> (r: bool) {
        *self == *other
    }
}

/// The digest of a string with the given characters.
///
/// What `DefaultHasher` returns for a string is a function of its characters
/// alone, but writing that digest out would mean restating the whole hashing
/// algorithm, so it is only given a name here; `hash_str` below ties the name
/// to the actual call.
pub uninterp spec fn str_content_hash(s: Seq<char>) -> u64;

/// Relies on `<str as Hash>::hash` and `DefaultHasher`: `hash` feeds exactly
/// the string's UTF-8 bytes (plus a fixed terminator) to the hasher, and
/// `DefaultHasher` digests them with fixed keys, so the result is a function
/// of the string's characters alone.
#[verifier::external_body]
fn hash_str(s: &str) -> (h: u64)
    ensures
        h == str_content_hash(s@),
{
    let mut hasher = DefaultHasher::new();
    std::hash::Hash::hash(s, &mut hasher);
    hasher.finish()
}

/// Relies on `<str as PartialEq>::eq`: two string slices compare equal
/// exactly when their characters are equal (vstd states the same contract
/// for `String`'s equality).
#[verifier::external_body]
fn str_eq(a: &str, b: &str) -> (r: bool)
    ensures
        r == (a@ == b@),
{
    a == b
}

impl<'a> HashKey for &'a str {
    open spec fn hash_spec(v: Seq<char>) -> u64 {
        str_content_hash(v)
    }

    fn hash_code(&self) -> (h: u64) {
        hash_str(*self)
    }

    fn key_eq(&self, other: &Self) -> (r: bool) {
        str_eq(*self, *other)
    }
}

impl HashKey for String {
    open spec fn hash_spec(v: Seq<char>) -> u64 {
        str_content_hash(v)
    }

    fn hash_code(&self) -> (h: u64) {
        hash_str(self.as_str())
    }

    fn key_eq(&self, other: &Self) -> (r: bool) {
        str_eq(self.as_str(), other.as_str())
    }
}

} // verus!
