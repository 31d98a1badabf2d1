//! A Fiat-Shamir transcript: it absorbs byte strings and derives field
//! challenges from the digest of everything absorbed so far.

use crate::field::{be_value, modulus, Fe};
use sha3::{Digest, Keccak256};
use vstd::prelude::*;

verus! {

/// The Keccak-256 digest of `data`.
pub uninterp spec fn keccak256_of(data: Seq<u8>) -> Seq<u8>;

/// Relies on `sha3::Keccak256::digest`: the Keccak-256 digest of the bytes,
/// 32 bytes long.
#[verifier::external_body]
fn keccak256(data: &[u8]) -> (r: Vec<u8>)
    ensures
        r@ == keccak256_of(data@),
        r@.len() == 32,
{
    Keccak256::digest(data).to_vec()
}

/// An incremental hash whose digest can be taken after every update.
pub trait HashTrait {
    /// The bytes appended so far.
    spec fn absorbed(&self) -> Seq<u8>;

    /// The digest of a byte string.
    spec fn digest_of(data: Seq<u8>) -> Seq<u8>;

    fn append(&mut self, data: &[u8])
        ensures
            final(self).absorbed() == old(self).absorbed() + data@,
    ;

    fn generate_hash(&self) -> (r: Vec<u8>)
        ensures
            r@ == Self::digest_of(self.absorbed()),
    ;
}

/// Keccak-256 over all bytes appended so far, with the digest kept current.
pub struct Keccak256Hasher {
    absorbed: Vec<u8>,
    current_state: Vec<u8>,
}

impl Keccak256Hasher {
    #[verifier::type_invariant]
    spec fn snapshot_current(self) -> bool {
        self.current_state@ == keccak256_of(self.absorbed@)
    }

    pub fn new() -> (r: Keccak256Hasher)
        ensures
            r.absorbed() == Seq::<u8>::empty(),
    {
        let absorbed: Vec<u8> = Vec::new();
        let current_state = keccak256(absorbed.as_slice());
        Keccak256Hasher { absorbed, current_state }
    }
}

impl HashTrait for Keccak256Hasher {
    closed spec fn absorbed(&self) -> Seq<u8> {
        self.absorbed@
    }

    open spec fn digest_of(data: Seq<u8>) -> Seq<u8> {
        keccak256_of(data)
    }

    fn append(&mut self, data: &[u8]) {
        let mut absorbed = self.absorbed.clone();
        let mut i: usize = 0;
        while i < data.len()
            invariant
                i <= data@.len(),
                absorbed@ == self.absorbed@ + data@.subrange(0, i as int),
            decreases data@.len() - i,
        {
            absorbed.push(data[i]);
            i = i + 1;
            assert(absorbed@ =~= self.absorbed@ + data@.subrange(0, i as int));
        }
        assert(data@.subrange(0, data@.len() as int) =~= data@);
        let current_state = keccak256(absorbed.as_slice());
        *self = Keccak256Hasher { absorbed, current_state };
    }

    fn generate_hash(&self) -> (r: Vec<u8>) {
        proof {
            use_type_invariant(self);
        }
        self.current_state.clone()
    }
}

/// The challenge derived from a digest: its big-endian value reduced by the
/// modulus.
pub open spec fn challenge_from(digest: Seq<u8>) -> int {
    be_value(digest) % modulus()
}

/// The challenge that a Keccak-256 transcript yields after absorbing `data`.
pub open spec fn keccak_challenge(data: Seq<u8>) -> int {
    challenge_from(keccak256_of(data))
}

/// The bytes held after absorbing `chunks` in order, starting from `start`.
pub open spec fn absorbed_after(start: Seq<u8>, chunks: Seq<Seq<u8>>) -> Seq<u8>
    decreases chunks.len(),
{
    if chunks.len() == 0 {
        start
    } else {
        absorbed_after(start, chunks.drop_last()) + chunks.last()
    }
}

/// The challenge squeezed after each of the absorbs of `chunks`, for a
/// Keccak-256 transcript that starts empty.
pub open spec fn squeezes_after(chunks: Seq<Seq<u8>>) -> Seq<int> {
    Seq::new(
        chunks.len(),
        |i: int| keccak_challenge(absorbed_after(Seq::empty(), chunks.take(i + 1))),
    )
}

/// Two transcripts fed the same absorb sequence squeeze the same challenges,
/// in order; more generally, any two absorb sequences with the same bytes
/// in total give the same challenge at their ends.
pub proof fn lemma_transcript_determinism(a: Seq<Seq<u8>>, b: Seq<Seq<u8>>)
    ensures
        a == b ==> squeezes_after(a) == squeezes_after(b),
        absorbed_after(Seq::empty(), a) == absorbed_after(Seq::empty(), b) ==> keccak_challenge(
            absorbed_after(Seq::empty(), a),
        ) == keccak_challenge(absorbed_after(Seq::empty(), b)),
{
}

/// A transcript over the hash `K`.
pub struct Transcript<K: HashTrait> {
    hash_function: K,
}

impl<K: HashTrait> Transcript<K> {
    /// The bytes absorbed so far.
    pub closed spec fn absorbed(&self) -> Seq<u8> {
        self.hash_function.absorbed()
    }

    pub fn init(hash_function: K) -> (r: Transcript<K>)
        ensures
            r.absorbed() == hash_function.absorbed(),
    {
        Transcript { hash_function }
    }

    pub fn absorb(&mut self, data: &[u8])
        ensures
            final(self).absorbed() == old(self).absorbed() + data@,
    {
        self.hash_function.append(data);
    }

    /// A challenge derived from the digest of everything absorbed.
    pub fn squeeze(&self) -> (r: Fe)
        ensures
            r@ == challenge_from(K::digest_of(self.absorbed())),
    {
        let hash_output = self.hash_function.generate_hash();
        Fe::from_be_bytes_mod_order(hash_output.as_slice())
    }
}

} // verus!
