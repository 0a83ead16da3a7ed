//! BLAKE3 digests.

use vstd::prelude::*;

verus! {

/// The BLAKE3 digest of `input`.
pub uninterp spec fn blake3_digest(input: Seq<u8>) -> Seq<u8>;

/// The bytes that a hasher has taken in so far, in order.
pub uninterp spec fn hashed_input(hasher: blake3::Hasher) -> Seq<u8>;

/// Whether a hasher computes the regular digest of all that it takes in: it has
/// no key, derives no key and starts at no offset.
pub uninterp spec fn is_regular(hasher: blake3::Hasher) -> bool;

/// `blake3::Hasher`, an incremental hash state.
#[verifier::external_type_specification]
#[verifier::external_body]
pub struct ExHasher(blake3::Hasher);

/// Calls `blake3::hash`: the result is the digest of the input, and nothing
/// else goes into it.
#[verifier::external_body]
pub(crate) fn digest_of(input: &[u8]) -> (digest: [u8; 32])
    ensures
        digest@ == blake3_digest(input@),
{
    blake3::hash(input).into()
}

/// Calls `blake3::Hasher::new`: a regular hasher that has taken nothing in.
#[verifier::external_body]
fn new_hasher() -> (hasher: blake3::Hasher)
    ensures
        hashed_input(hasher) == Seq::<u8>::empty(),
        is_regular(hasher),
{
    blake3::Hasher::new()
}

/// Calls `blake3::Hasher::update`: the hasher takes the input in behind what it
/// has. It counts what it takes in with 64 bits.
#[verifier::external_body]
fn update_hasher(hasher: &mut blake3::Hasher, input: &[u8])
    requires
        is_regular(*old(hasher)),
        hashed_input(*old(hasher)).len() + input@.len() <= u64::MAX,
    ensures
        hashed_input(*final(hasher)) == hashed_input(*old(hasher)) + input@,
        is_regular(*final(hasher)),
{
    hasher.update(input);
}

/// Calls `blake3::Hasher::finalize`: the result is the digest of all that a
/// regular hasher has taken in, the same that `blake3::hash` has of it.
#[verifier::external_body]
fn finalize_hasher(hasher: &blake3::Hasher) -> (digest: [u8; 32])
    requires
        is_regular(*hasher),
    ensures
        digest@ == blake3_digest(hashed_input(*hasher)),
{
    *hasher.finalize().as_bytes()
}

/// Computes the digest of what it is given piece by piece.
#[derive(Debug)]
pub(crate) struct RunningDigest {
    hasher: blake3::Hasher,
    count: u64,
}

impl RunningDigest {
    #[verifier::type_invariant]
    spec fn well_formed(self) -> bool {
        &&& is_regular(self.hasher)
        &&& hashed_input(self.hasher).len() == self.count
    }

    /// What it was given.
    pub closed spec fn input(self) -> Seq<u8> {
        hashed_input(self.hasher)
    }

    /// One that was given nothing.
    pub(crate) fn new() -> (digest: Self)
        ensures
            digest.input() == Seq::<u8>::empty(),
    {
        RunningDigest { hasher: new_hasher(), count: 0 }
    }

    /// Number of bytes that it was given.
    pub(crate) fn count(&self) -> (count: u64)
        ensures
            count == self.input().len(),
    {
        proof {
            use_type_invariant(self);
        }
        self.count
    }

    /// Gives it a piece more.
    pub(crate) fn update(self, data: &[u8]) -> (digest: Self)
        requires
            self.input().len() + data@.len() <= u64::MAX,
        ensures
            digest.input() == self.input() + data@,
    {
        proof {
            use_type_invariant(&self);
        }
        let RunningDigest { mut hasher, count } = self;
        let added: u64 = data.len() as u64;
        update_hasher(&mut hasher, data);
        RunningDigest { hasher, count: count + added }
    }

    /// The digest of all that it was given.
    pub(crate) fn finalize(&self) -> (digest: [u8; 32])
        ensures
            digest@ == blake3_digest(self.input()),
    {
        proof {
            use_type_invariant(self);
        }
        finalize_hasher(&self.hasher)
    }
}

} // verus!
