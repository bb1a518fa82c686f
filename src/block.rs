use vstd::prelude::*;

use crate::encoding::{push_bytes, serialize_transactions, transactions_bytes};
use crate::proof_of_work::{candidate_block, mined_with, no_nonce_meets, proof_of_work};
use crate::transactions::{views_of, Transaction, TransactionView};
use crate::utils::{digest_value, hash_bytes, minimal_be, minimal_be_bytes, u64_be, u64_to_be_bytes, U256};
use crate::ChainError;

verus! {

pub ghost struct BlockView {
    pub timestamp: u64,
    pub transactions: Seq<TransactionView>,
    pub prev_hash: Seq<u8>,
    pub hash: Seq<u8>,
    pub nonce: u64,
}

/// A block: its transactions, the hash of the block before it, and the nonce
/// and hash that its proof of work found.
#[derive(Debug)]
pub struct Block {
    pub timestamp: u64,
    pub transactions: Vec<Transaction>,
    pub prev_hash: U256,
    pub hash: U256,
    pub nonce: u64,
}

impl View for Block {
    type V = BlockView;

    open spec fn view(&self) -> BlockView {
        BlockView {
            timestamp: self.timestamp,
            transactions: views_of(self.transactions@),
            prev_hash: self.prev_hash@,
            hash: self.hash@,
            nonce: self.nonce,
        }
    }
}

/// The bytes that the block's hashes cover: the previous hash, the encoded
/// transactions and the timestamp, integers in their shortest big-endian form.
pub open spec fn header_bytes(b: BlockView) -> Seq<u8> {
    minimal_be(b.prev_hash) + transactions_bytes(b.transactions) + minimal_be(u64_be(b.timestamp))
}

impl Block {
    pub open spec fn wf(&self) -> bool {
        &&& self.prev_hash.wf()
        &&& self.hash.wf()
        &&& forall|k: int| 0 <= k < self.transactions@.len() ==> (#[trigger] self.transactions@[k]).wf()
    }

    /// Builds the block of `transactions` after `prev_hash` at `timestamp`
    /// and runs its proof of work at `difficulty` before handing it out.
    pub fn new(transactions: Vec<Transaction>, prev_hash: U256, timestamp: u64, difficulty: usize) -> (r: Result<
        Block,
        ChainError,
    >)
        requires
            difficulty < 256,
            prev_hash.wf(),
            forall|k: int| 0 <= k < transactions@.len() ==> (#[trigger] transactions@[k]).wf(),
        ensures
            r matches Ok(b) ==> {
                &&& b.wf()
                &&& b.timestamp == timestamp
                &&& b@.transactions == views_of(transactions@)
                &&& b.prev_hash@ == prev_hash@
                &&& mined_with(b@, difficulty as nat)
            },
            r matches Ok(b) ==> b.nonce < u64::MAX,
            r is Err ==> r == Err::<Block, ChainError>(ChainError::ProofOfWorkExhausted)
                && no_nonce_meets(
                candidate_block(timestamp, views_of(transactions@), prev_hash@),
                difficulty as nat,
            ),
    {
        let mut block = Block { timestamp, transactions, prev_hash, hash: U256::zero(), nonce: 0 };
        assert(block@ == candidate_block(timestamp, block@.transactions, block@.prev_hash));
        match proof_of_work(&mut block, difficulty) {
            Ok(()) => Ok(block),
            Err(e) => Err(e),
        }
    }

    /// The header bytes that the hashes cover.
    pub fn get_headers(&self) -> (r: Vec<u8>)
        requires
            self.wf(),
        ensures
            r@ == header_bytes(self@),
    {
        let mut bytes = minimal_be_bytes(&self.prev_hash.bytes);
        let txs = serialize_transactions(&self.transactions);
        push_bytes(&mut bytes, &txs);
        let time = minimal_be_bytes(&u64_to_be_bytes(self.timestamp));
        push_bytes(&mut bytes, &time);
        bytes
    }

    /// SHA-256 of the header bytes, without the nonce.
    pub fn hash(&self) -> (r: U256)
        requires
            self.wf(),
        ensures
            r.wf(),
            r@ == digest_value(header_bytes(self@)),
    {
        let header = self.get_headers();
        hash_bytes(&header)
    }
}

} // verus!
