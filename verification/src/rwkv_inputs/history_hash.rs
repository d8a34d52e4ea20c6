use sha2::Digest;

use vstd::prelude::*;

use crate::rwkv_inputs::bytes::from_hex;
use crate::rwkv_inputs::bytes::spec_from_hex;
use crate::rwkv_inputs::bytes::spec_hex;
use crate::rwkv_inputs::bytes::to_hex;
use crate::rwkv_inputs::bytes::write_bytes;
use crate::rwkv_inputs::published::spec_delta_record;
use crate::rwkv_inputs::published::PublishedReviewInput;
use crate::rwkv_inputs::stream::ReplayError;

verus! {

/// The SHA-256 digest of some bytes, as the `sha2` crate computes it.
pub uninterp spec fn sha256(data: Seq<u8>) -> Seq<u8>;

/// Calls `sha2::Sha256::digest`. Claims that the 32 bytes it returns are
/// `sha256` of the input, and nothing else of them.
#[verifier::external_body]
fn sha256_digest(data: &Vec<u8>) -> (hash: [u8; 32])
    ensures
        hash@ == sha256(data@),
{
    sha2::Sha256::digest(data.as_slice()).into()
}

/// The bytes that start every hash of the chain.
pub open spec fn hash_domain() -> Seq<u8> {
    seq![
        97u8, 110, 107, 105, 45, 114, 119, 107, 118, 45, 115, 116, 97, 116, 101, 45, 99, 97, 99, 104, 101, 45, 104, 105,
        115, 116, 111, 114, 121, 45, 118, 49, 0,
    ]
}

fn hash_domain_bytes() -> (domain: Vec<u8>)
    ensures
        domain@ == hash_domain(),
{
    let domain = vec![
        97u8, 110, 107, 105, 45, 114, 119, 107, 118, 45, 115, 116, 97, 116, 101, 45, 99, 97, 99, 104, 101, 45, 104, 105,
        115, 116, 111, 114, 121, 45, 118, 49, 0,
    ];
    proof {
        assert(domain@ =~= hash_domain());
    }
    domain
}

/// The hash of the empty history.
pub open spec fn empty_history_hash() -> Seq<u8> {
    sha256(hash_domain())
}

/// The hash after one more review: of the domain, the hash so far, and
/// the review's delta record.
pub open spec fn chained_hash(hash: Seq<u8>, review: PublishedReviewInput) -> Seq<u8> {
    sha256(hash_domain() + hash + spec_delta_record(review))
}

/// The hash after the reviews, in order, starting from `hash`.
pub open spec fn hash_of_history(hash: Seq<u8>, reviews: Seq<PublishedReviewInput>) -> Seq<u8>
    decreases reviews.len(),
{
    if reviews.len() == 0 {
        hash
    } else {
        chained_hash(hash_of_history(hash, reviews.drop_last()), reviews.last())
    }
}

/// The history hash: a SHA-256 chain over the reviews' delta records, the
/// state cache's identity of a history.
#[derive(Clone, Copy, Debug)]
pub struct RwkvHistoryHashChain {
    pub hash: [u8; 32],
}

impl RwkvHistoryHashChain {
    /// The chain of the empty history.
    pub fn new() -> (chain: RwkvHistoryHashChain)
        ensures
            chain.hash@ == empty_history_hash(),
    {
        RwkvHistoryHashChain { hash: sha256_digest(&hash_domain_bytes()) }
    }

    /// The chain that goes on from `hex`, the hash of an earlier history:
    /// an error unless it is 64 lowercase hexadecimal digits.
    pub fn from_hex(text: &[u8]) -> (chain: Result<RwkvHistoryHashChain, ReplayError>)
        ensures
            match chain {
                Ok(c) => text@.len() == 64 && spec_from_hex(text@) == Some(c.hash@),
                Err(e) => e == ReplayError::InvalidHistoryHash && (text@.len() != 64 || spec_from_hex(text@) is None),
            },
    {
        if text.len() != 64 {
            return Err(ReplayError::InvalidHistoryHash);
        }
        match from_hex(text) {
            Some(bytes) => {
                let mut hash = [0u8; 32];
                let mut i: usize = 0;
                while i < 32
                    invariant
                        bytes@.len() == 32,
                        i <= 32,
                        hash@.len() == 32,
                        forall|j: int| 0 <= j < i ==> hash@[j] == bytes@[j],
                    decreases 32 - i,
                {
                    hash[i] = bytes[i];
                    i = i + 1;
                }
                proof {
                    assert(hash@ =~= bytes@);
                }
                Ok(RwkvHistoryHashChain { hash })
            },
            None => Err(ReplayError::InvalidHistoryHash),
        }
    }

    /// Chains one more review.
    pub fn update(&mut self, review: &PublishedReviewInput)
        ensures
            final(self).hash@ == chained_hash(old(self).hash@, *review),
    {
        let mut data = hash_domain_bytes();
        let mut i: usize = 0;
        let ghost domain = data@;
        while i < 32
            invariant
                i <= 32,
                data@ == domain + self.hash@.subrange(0, i as int),
                self.hash == old(self).hash,
            decreases 32 - i,
        {
            data.push(self.hash[i]);
            proof {
                assert(domain + self.hash@.subrange(0, i + 1 as int) =~= data@);
            }
            i = i + 1;
        }
        proof {
            assert(self.hash@.subrange(0, 32) =~= self.hash@);
        }
        review.write_delta_record(&mut data);
        self.hash = sha256_digest(&data);
    }

    /// The hash as 64 lowercase hexadecimal digits.
    pub fn hex(&self) -> (text: Vec<u8>)
        ensures
            text@ == spec_hex(self.hash@),
    {
        to_hex(&self.hash)
    }
}

/// Hashing a history in two parts, the second going on from the hash of
/// the first, gives the hash of the whole history.
pub proof fn lemma_history_hash_continues(hash: Seq<u8>, first: Seq<PublishedReviewInput>, second: Seq<PublishedReviewInput>)
    ensures
        hash_of_history(hash_of_history(hash, first), second) == hash_of_history(hash, first + second),
    decreases second.len(),
{
    if second.len() > 0 {
        lemma_history_hash_continues(hash, first, second.drop_last());
        assert((first + second).drop_last() =~= first + second.drop_last());
        assert((first + second).last() == second.last());
    } else {
        assert(first + second =~= first);
    }
}

/// A read that goes on from the hexadecimal hash of an earlier read's
/// history ends with the hash of the two histories together.
pub proof fn lemma_read_goes_on_from_hex(hash: Seq<u8>, first: Seq<PublishedReviewInput>, second: Seq<PublishedReviewInput>)
    ensures
        spec_from_hex(spec_hex(hash_of_history(hash, first))) == Some(hash_of_history(hash, first)),
        hash_of_history(spec_from_hex(spec_hex(hash_of_history(hash, first)))->0, second) == hash_of_history(
            hash,
            first + second,
        ),
{
    crate::rwkv_inputs::bytes::lemma_hex_round_trip(hash_of_history(hash, first));
    lemma_history_hash_continues(hash, first, second);
}

} // verus!
