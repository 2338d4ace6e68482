//! The hasher interface and the hash functions that come with the crate.
use vstd::prelude::*;
use digest::Digest;
use crate::utils::slice_to_hash;

verus! {

/// A deterministic digest of a byte string to 32 bytes.
///
/// `hash_of` is the function that `digest` computes. A hasher that says
/// nothing of it computes some function of the bytes, of which nothing else
/// is known.
pub trait Hasher: Sized {
    /// The digest of `bytes`.
    open spec fn hash_of(&self, bytes: Seq<u8>) -> Seq<u8> {
        some_digest(bytes)
    }

    /// The hasher that `new` makes: the same one at every call. A hasher
    /// that says nothing of it makes some hasher, of which nothing else is
    /// known.
    open spec fn made() -> Self {
        arbitrary()
    }

    /// Makes the hasher of this type.
    fn new() -> (hasher: Self)
        ensures
            hasher == Self::made(),
    ;

    /// Computes the digest of `bytes`.
    fn digest(&self, bytes: &[u8]) -> (hash: crate::Hash)
        ensures
            hash@ == self.hash_of(bytes@),
    ;
}

/// Some function from byte strings to byte strings.
pub closed spec fn some_digest(bytes: Seq<u8>) -> Seq<u8> {
    arbitrary::<spec_fn(Seq<u8>) -> Seq<u8>>()(bytes)
}

/// `digest` where it is 32 bytes long, and 32 zero bytes elsewhere.
pub open spec fn fit(digest: Seq<u8>) -> Seq<u8> {
    if digest.len() == 32 {
        digest
    } else {
        Seq::new(32, |i: int| 0u8)
    }
}

/// The digest of `bytes` under `h`, as the tree uses it: always 32 bytes,
/// and what `digest` computes.
pub open spec fn digest_of<H: Hasher>(h: H, bytes: Seq<u8>) -> Seq<u8> {
    fit(h.hash_of(bytes))
}

/// The 32-byte BLAKE2s digest of `bytes`, as `blake2_rfc` computes it.
pub uninterp spec fn blake2s_hash(bytes: Seq<u8>) -> Seq<u8>;

/// The 32-byte BLAKE2b digest of `bytes`, as `blake2_rfc` computes it.
pub uninterp spec fn blake2b_hash(bytes: Seq<u8>) -> Seq<u8>;

/// The BLAKE3 digest of `bytes`, as `blake3` computes it.
pub uninterp spec fn blake3_hash(bytes: Seq<u8>) -> Seq<u8>;

/// The SHA-256 digest of `bytes`, as `sha2` computes it.
pub uninterp spec fn sha2_hash(bytes: Seq<u8>) -> Seq<u8>;

/// The SHA3-256 digest of `bytes`, as `sha3` computes it.
pub uninterp spec fn sha3_hash(bytes: Seq<u8>) -> Seq<u8>;

/// Runs `blake2_rfc::blake2s::Blake2s` with a 32-byte output over `bytes`:
/// `new(32)`, `update`, `finalize`. The result is a function of `bytes`
/// alone and `as_bytes` hands out as many bytes as `new` was given.
#[verifier::external_body]
fn blake2s_digest(bytes: &[u8]) -> (out: Vec<u8>)
    ensures
        out@ == blake2s_hash(bytes@),
        out@.len() == 32,
{
    let mut hasher = blake2_rfc::blake2s::Blake2s::new(32);
    hasher.update(bytes);
    let hash = hasher.finalize();
    hash.as_bytes().to_vec()
}

/// Runs `blake2_rfc::blake2b::Blake2b` with a 32-byte output over `bytes`:
/// `new(32)`, `update`, `finalize`. The result is a function of `bytes`
/// alone and `as_bytes` hands out as many bytes as `new` was given.
#[verifier::external_body]
fn blake2b_digest(bytes: &[u8]) -> (out: Vec<u8>)
    ensures
        out@ == blake2b_hash(bytes@),
        out@.len() == 32,
{
    let mut hasher = blake2_rfc::blake2b::Blake2b::new(32);
    hasher.update(bytes);
    let hash = hasher.finalize();
    hash.as_bytes().to_vec()
}

/// Runs `blake3::Hasher` over `bytes`: `new`, `update`, `finalize`. The
/// result is a function of `bytes` alone; a `blake3::Hash` is 32 bytes.
#[verifier::external_body]
fn blake3_digest(bytes: &[u8]) -> (out: Vec<u8>)
    ensures
        out@ == blake3_hash(bytes@),
        out@.len() == 32,
{
    let mut hasher = blake3::Hasher::new();
    hasher.update(bytes);
    let hash = hasher.finalize();
    hash.as_bytes().to_vec()
}

/// Runs `sha2::Sha256` over `bytes` through `digest::Digest`: `new`,
/// `input`, `result`. The result is a function of `bytes` alone; the output
/// size of `Sha256` is 32 bytes.
#[verifier::external_body]
fn sha2_digest(bytes: &[u8]) -> (out: Vec<u8>)
    ensures
        out@ == sha2_hash(bytes@),
        out@.len() == 32,
{
    let mut hasher = sha2::Sha256::new();
    hasher.input(bytes);
    let hash = hasher.result();
    hash.as_slice().to_vec()
}

/// Runs `sha3::Sha3_256` over `bytes` through `digest::Digest`: `new`,
/// `input`, `result`. The result is a function of `bytes` alone; the output
/// size of `Sha3_256` is 32 bytes.
#[verifier::external_body]
fn sha3_digest(bytes: &[u8]) -> (out: Vec<u8>)
    ensures
        out@ == sha3_hash(bytes@),
        out@.len() == 32,
{
    let mut hasher = sha3::Sha3_256::new();
    hasher.input(bytes);
    let hash = hasher.result();
    hash.as_slice().to_vec()
}

/// BLAKE2s with a 32-byte output.
#[derive(Clone, Debug)]
pub struct Blake2s;

impl Hasher for Blake2s {
    open spec fn hash_of(&self, bytes: Seq<u8>) -> Seq<u8> {
        blake2s_hash(bytes)
    }

    open spec fn made() -> Self {
        Blake2s
    }

    fn new() -> (hasher: Self) {
        Blake2s
    }

    fn digest(&self, bytes: &[u8]) -> (hash: crate::Hash) {
        let out = blake2s_digest(bytes);
        slice_to_hash(out.as_slice())
    }
}

/// BLAKE2b with a 32-byte output.
#[derive(Clone, Debug)]
pub struct Blake2b;

impl Hasher for Blake2b {
    open spec fn hash_of(&self, bytes: Seq<u8>) -> Seq<u8> {
        blake2b_hash(bytes)
    }

    open spec fn made() -> Self {
        Blake2b
    }

    fn new() -> (hasher: Self) {
        Blake2b
    }

    fn digest(&self, bytes: &[u8]) -> (hash: crate::Hash) {
        let out = blake2b_digest(bytes);
        slice_to_hash(out.as_slice())
    }
}

/// BLAKE3.
#[derive(Clone, Debug)]
pub struct Blake3;

impl Hasher for Blake3 {
    open spec fn hash_of(&self, bytes: Seq<u8>) -> Seq<u8> {
        blake3_hash(bytes)
    }

    open spec fn made() -> Self {
        Blake3
    }

    fn new() -> (hasher: Self) {
        Blake3
    }

    fn digest(&self, bytes: &[u8]) -> (hash: crate::Hash) {
        let out = blake3_digest(bytes);
        slice_to_hash(out.as_slice())
    }
}

/// SHA-256.
#[derive(Clone, Debug)]
pub struct Sha2;

impl Hasher for Sha2 {
    open spec fn hash_of(&self, bytes: Seq<u8>) -> Seq<u8> {
        sha2_hash(bytes)
    }

    open spec fn made() -> Self {
        Sha2
    }

    fn new() -> (hasher: Self) {
        Sha2
    }

    fn digest(&self, bytes: &[u8]) -> (hash: crate::Hash) {
        let out = sha2_digest(bytes);
        slice_to_hash(out.as_slice())
    }
}

/// SHA3-256.
#[derive(Clone, Debug)]
pub struct Sha3;

impl Hasher for Sha3 {
    open spec fn hash_of(&self, bytes: Seq<u8>) -> Seq<u8> {
        sha3_hash(bytes)
    }

    open spec fn made() -> Self {
        Sha3
    }

    fn new() -> (hasher: Self) {
        Sha3
    }

    fn digest(&self, bytes: &[u8]) -> (hash: crate::Hash) {
        let out = sha3_digest(bytes);
        slice_to_hash(out.as_slice())
    }
}

} // verus!
