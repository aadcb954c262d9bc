//! Hashing primitives: truncation of a SHA-256 digest and domain-tagged
//! hashing, together with small byte-vector helpers.

use vstd::prelude::*;
use sha2::Sha256;
use digest::Digest;

verus! {

/// Tag byte prepended (as a repeated block) to leaf commitments.
pub const LEAF_TAG: u8 = 1;

/// Tag byte prepended (as a repeated block) to internal-node commitments.
pub const NODE_TAG: u8 = 2;

/// What SHA-256 returns on the given input bytes.
pub uninterp spec fn sha256_of(data: Seq<u8>) -> Seq<u8>;

/// Relies on `sha2::Sha256` through the `digest` crate's `Digest::digest`:
/// a deterministic 32-byte digest that depends on the input bytes alone.
#[verifier::external_body]
fn sha256(data: &[u8]) -> (r: Vec<u8>)
    ensures
        r@ == sha256_of(data@),
        r@.len() == 32,
{
    <Sha256 as Digest>::digest(data).to_vec()
}

/// The digest of `data`, truncated to its first `n` bytes.
pub open spec fn spec_hash(data: Seq<u8>, n: nat) -> Seq<u8> {
    sha256_of(data).take(n as int)
}

/// The hash of the 2n-byte buffer holding `a` then `b`.
pub open spec fn spec_concat_hash(a: Seq<u8>, b: Seq<u8>, n: nat) -> Seq<u8> {
    spec_hash(a + b, n)
}

/// A block of `n` copies of the tag byte.
pub open spec fn spec_tag_block(tag: u8, n: nat) -> Seq<u8> {
    Seq::new(n, |i: int| tag)
}

/// The domain-tagged hash: the tag block concatenated with the hash of the
/// payload, hashed again.
pub open spec fn spec_tag_hash(tag: u8, data: Seq<u8>, n: nat) -> Seq<u8> {
    spec_concat_hash(spec_tag_block(tag, n), spec_hash(data, n), n)
}

/// Runs the digest over `data` and keeps the first `n` bytes.
pub(crate) fn hash_trunc(data: &[u8], n: usize) -> (r: Vec<u8>)
    requires
        n <= 32,
    ensures
        r@ == spec_hash(data@, n as nat),
        r@.len() == n,
{
    let d = sha256(data);
    let mut out: Vec<u8> = Vec::new();
    let mut i: usize = 0;
    while i < n
        invariant
            i <= n,
            n <= 32,
            d@.len() == 32,
            d@ == sha256_of(data@),
            out@ == sha256_of(data@).take(i as int),
        decreases n - i,
    {
        out.push(d[i]);
        proof {
            assert(sha256_of(data@).take((i + 1) as int)
                =~= sha256_of(data@).take(i as int).push(sha256_of(data@)[i as int]));
        }
        i = i + 1;
    }
    out
}

/// A vector of `len` copies of `val`.
pub(crate) fn filled(val: u8, len: usize) -> (r: Vec<u8>)
    ensures
        r@ == Seq::new(len as nat, |i: int| val),
{
    let mut out: Vec<u8> = Vec::new();
    let mut i: usize = 0;
    while i < len
        invariant
            i <= len,
            out@ == Seq::new(i as nat, |j: int| val),
        decreases len - i,
    {
        out.push(val);
        proof {
            assert(Seq::new((i + 1) as nat, |j: int| val)
                =~= Seq::new(i as nat, |j: int| val).push(val));
        }
        i = i + 1;
    }
    out
}

/// A fresh copy of a byte string.
pub(crate) fn clone_bytes(v: &[u8]) -> (r: Vec<u8>)
    ensures
        r@ == v@,
{
    let mut out: Vec<u8> = Vec::new();
    let mut i: usize = 0;
    while i < v.len()
        invariant
            i <= v@.len(),
            out@ == v@.take(i as int),
        decreases v@.len() - i,
    {
        out.push(v[i]);
        proof {
            assert(v@.take((i + 1) as int) =~= v@.take(i as int).push(v@[i as int]));
        }
        i = i + 1;
    }
    proof {
        assert(v@.take(v@.len() as int) =~= v@);
    }
    out
}

/// Byte-wise equality of two byte strings.
pub(crate) fn bytes_eq(a: &[u8], b: &[u8]) -> (r: bool)
    ensures
        r == (a@ == b@),
{
    if a.len() != b.len() {
        proof {
            assert(a@ != b@);
        }
        return false;
    }
    let mut i: usize = 0;
    while i < a.len()
        invariant
            i <= a@.len(),
            a@.len() == b@.len(),
            forall|j: int| 0 <= j < i ==> a@[j] == b@[j],
        decreases a@.len() - i,
    {
        if a[i] != b[i] {
            proof {
                assert(a@ != b@);
            }
            return false;
        }
        i = i + 1;
    }
    proof {
        assert(a@ =~= b@);
    }
    true
}

} // verus!
