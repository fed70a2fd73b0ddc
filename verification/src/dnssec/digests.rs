//! The digests of keys and of names.

use crate::hash::{self, sha256_digest};
use crate::dnssec::types::{DigestType, DnsKey, KeyModel};
use crate::wire::{copy_range, push_bytes};
use sha1::Sha1;
use sha2::{Digest, Sha384};
use vstd::array::array_as_slice;
use vstd::prelude::*;

verus! {

/// The SHA-1 digest of a row of bytes.
pub uninterp spec fn sha1(data: Seq<u8>) -> Seq<u8>;

/// `sha1::Sha1::digest` of all of `data`; the same bytes always give the same
/// twenty bytes.
#[verifier::external_body]
pub(crate) fn sha1_digest(data: &[u8]) -> (r: [u8; 20])
    ensures
        r@ == sha1(data@),
{
    Sha1::digest(data).into()
}

/// The SHA-384 digest of a row of bytes.
pub uninterp spec fn sha384(data: Seq<u8>) -> Seq<u8>;

/// `sha2::Sha384::digest` of all of `data`; the same bytes always give the same
/// forty-eight bytes.
#[verifier::external_body]
pub(crate) fn sha384_digest(data: &[u8]) -> (r: [u8; 48])
    ensures
        r@ == sha384(data@),
{
    Sha384::digest(data).into()
}

/// The digest of a key's record data, where the digest type is supported.
pub open spec fn key_digest(key: KeyModel, digest_type: DigestType) -> Option<Seq<u8>> {
    match digest_type {
        DigestType::SHA1 => Some(sha1(key.wire())),
        DigestType::SHA256 => Some(hash::sha256(key.wire())),
        DigestType::SHA384 => Some(sha384(key.wire())),
        DigestType::GOST => None,
    }
}

/// The digest of a key's record data, where the digest type is supported.
pub fn compute_digest(key: &DnsKey, digest_type: DigestType) -> (r: Option<Vec<u8>>)
    ensures
        match r {
            Some(digest) => key_digest(key@, digest_type) == Some(digest@),
            None => key_digest(key@, digest_type) is None,
        },
{
    let rdata = key.to_wire();
    match digest_type {
        DigestType::SHA1 => {
            let d = sha1_digest(rdata.as_slice());
            let r = copy_range(array_as_slice(&d), 0, 20);
            assert(r@ =~= d@);
            Some(r)
        },
        DigestType::SHA256 => {
            let d = sha256_digest(rdata.as_slice());
            let r = copy_range(array_as_slice(&d), 0, 32);
            assert(r@ =~= d@);
            Some(r)
        },
        DigestType::SHA384 => {
            let d = sha384_digest(rdata.as_slice());
            let r = copy_range(array_as_slice(&d), 0, 48);
            assert(r@ =~= d@);
            Some(r)
        },
        DigestType::GOST => None,
    }
}

/// The hash of a name with a salt: SHA-1 of both, and then `iterations` times
/// SHA-1 of the hash and the salt.
pub open spec fn nsec3_hash(name: Seq<u8>, salt: Seq<u8>, iterations: nat) -> Seq<u8>
    decreases iterations,
{
    if iterations == 0 {
        sha1(name + salt)
    } else {
        sha1(nsec3_hash(name, salt, (iterations - 1) as nat) + salt)
    }
}

/// The digest of bytes with a salt behind them.
fn salted_digest(bytes: &[u8], salt: &[u8]) -> (r: [u8; 20])
    ensures
        r@ == sha1(bytes@ + salt@),
{
    let mut data: Vec<u8> = Vec::new();
    push_bytes(&mut data, bytes);
    push_bytes(&mut data, salt);
    assert(data@ =~= bytes@ + salt@);
    sha1_digest(data.as_slice())
}

/// The hash by which NSEC3 records tell a name in canonical wire form.
pub fn hash_name(name: &[u8], salt: &[u8], iterations: u16) -> (r: [u8; 20])
    ensures
        r@ == nsec3_hash(name@, salt@, iterations as nat),
{
    let mut hash = salted_digest(name, salt);
    let mut i: u16 = 0;
    while i < iterations
        invariant
            i <= iterations,
            hash@ == nsec3_hash(name@, salt@, i as nat),
        decreases iterations - i,
    {
        hash = salted_digest(array_as_slice(&hash), salt);
        i = i + 1;
    }
    hash
}

} // verus!
