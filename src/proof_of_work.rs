use vstd::arithmetic::power2::*;
use vstd::prelude::*;

use crate::block::{header_bytes, Block, BlockView};
use crate::encoding::push_bytes;
use crate::utils::{be_value, copy_bytes, digest_value, hash_bytes, u64_be, u64_to_be_bytes, U256};
use crate::transactions::{zero_id, TransactionView};
use crate::ChainError;

verus! {

/// 32 zero bytes but for bit `7 - d % 8` of byte `d / 8`: the integer with
/// the single bit `255 - d` set.
pub open spec fn target_bytes(difficulty: nat) -> Seq<u8> {
    Seq::new(
        32,
        |i: int| if i == difficulty / 8 { pow2((7 - difficulty % 8) as nat) as u8 } else { 0u8 },
    )
}

/// The proof-of-work hash of a block's header followed by a nonce.
pub open spec fn pow_hash(b: BlockView, nonce: u64) -> Seq<u8> {
    digest_value(header_bytes(b) + u64_be(nonce))
}

/// Whether a nonce's proof-of-work hash is below the target.
pub open spec fn meets_target(b: BlockView, nonce: u64, difficulty: nat) -> bool {
    be_value(pow_hash(b, nonce)) < be_value(target_bytes(difficulty))
}

/// The block's hash is the proof-of-work hash of its nonce, and below the target.
pub open spec fn valid_block(b: BlockView, difficulty: nat) -> bool {
    b.hash == pow_hash(b, b.nonce) && meets_target(b, b.nonce, difficulty)
}

/// What a successful search leaves: a valid block whose nonce is the first
/// that meets the target.
pub open spec fn mined_with(b: BlockView, difficulty: nat) -> bool {
    &&& valid_block(b, difficulty)
    &&& forall|n: u64| n < b.nonce ==> !#[trigger] meets_target(b, n, difficulty)
}

/// No nonce below `u64::MAX` gives the block a proof-of-work hash below the target.
pub open spec fn no_nonce_meets(b: BlockView, difficulty: nat) -> bool {
    forall|n: u64| n < u64::MAX ==> !#[trigger] meets_target(b, n, difficulty)
}

/// A block before its proof of work: zero hash and nonce.
pub open spec fn candidate_block(timestamp: u64, transactions: Seq<TransactionView>, prev_hash: Seq<u8>) -> BlockView {
    BlockView { timestamp, transactions, prev_hash, hash: zero_id(), nonce: 0 }
}

/// The target of a difficulty: 32 bytes with the single bit `255 - difficulty` set.
pub fn get_target(difficulty: usize) -> (r: U256)
    requires
        difficulty < 256,
    ensures
        r.wf(),
        r@ == target_bytes(difficulty as nat),
{
    let shift: usize = 7 - difficulty % 8;
    let mut bit: u8 = 1;
    let mut j: usize = 0;
    proof {
        lemma2_to64();
    }
    while j < shift
        invariant
            j <= shift <= 7,
            bit as nat == pow2(j as nat),
        decreases shift - j,
    {
        proof {
            lemma2_to64();
            lemma_pow2_strictly_increases(j as nat, 7);
            lemma_pow2_unfold((j + 1) as nat);
        }
        bit = bit * 2;
        j = j + 1;
    }
    let mut target = U256::zero();
    target.bytes.set(difficulty / 8, bit);
    assert(target@ =~= target_bytes(difficulty as nat));
    target
}

proof fn lemma_zeros_value(s: Seq<u8>)
    requires
        forall|j: int| 0 <= j < s.len() ==> s[j] == 0,
    ensures
        be_value(s) == 0,
    decreases s.len(),
{
    if s.len() > 0 {
        lemma_zeros_value(s.drop_last());
    }
}

proof fn lemma_trailing_zeros_value(s: Seq<u8>, k: int)
    requires
        0 <= k < s.len(),
        forall|j: int| k < j < s.len() ==> s[j] == 0,
    ensures
        be_value(s) == be_value(s.take(k + 1)) * pow2((8 * (s.len() - 1 - k)) as nat),
    decreases s.len(),
{
    if s.len() - 1 == k {
        assert(s.take(k + 1) =~= s);
        lemma2_to64();
        assert((8 * (s.len() - 1 - k)) as nat == 0);
    } else {
        let t = s.drop_last();
        lemma_trailing_zeros_value(t, k);
        assert(t.take(k + 1) =~= s.take(k + 1));
        let e = (8 * (t.len() - 1 - k)) as nat;
        lemma_pow2_adds(e, 8);
        lemma2_to64();
        assert(e + 8 == (8 * (s.len() - 1 - k)) as nat);
        assert(s.last() == 0);
        assert(be_value(s) == be_value(t) * 256);
        let a = be_value(t.take(k + 1));
        assert(be_value(t) == a * pow2(e));
        assert(pow2(e + 8) == pow2(e) * 256);
        assert(a * pow2(e) * 256 == a * (pow2(e) * 256)) by (nonlinear_arith);
        assert(be_value(s) == a * pow2(e + 8));
    }
}

/// The target of difficulty `d` is the integer `2^(255 - d)`.
pub proof fn lemma_target_value(difficulty: nat)
    requires
        difficulty < 256,
    ensures
        be_value(target_bytes(difficulty)) == pow2((255 - difficulty) as nat),
{
    let s = target_bytes(difficulty);
    let k = (difficulty / 8) as int;
    let v = pow2((7 - difficulty % 8) as nat);
    lemma2_to64();
    lemma_pow2_strictly_increases((7 - difficulty % 8) as nat, 8);
    lemma_trailing_zeros_value(s, k);
    lemma_zeros_value(s.take(k));
    assert(s.take(k + 1).drop_last() =~= s.take(k));
    assert(be_value(s.take(k + 1)) == v);
    lemma_pow2_adds((7 - difficulty % 8) as nat, (8 * (31 - k)) as nat);
    assert((7 - difficulty % 8) as nat + (8 * (31 - k)) as nat == (255 - difficulty) as nat);
}

/// A higher difficulty gives a strictly lower target.
pub proof fn lemma_target_decreasing(d1: nat, d2: nat)
    requires
        d1 < d2 < 256,
    ensures
        be_value(target_bytes(d2)) < be_value(target_bytes(d1)),
{
    lemma_target_value(d1);
    lemma_target_value(d2);
    lemma_pow2_strictly_increases((255 - d2) as nat, (255 - d1) as nat);
}

/// Searches nonces from 0 upward, below `u64::MAX`, for the first whose
/// proof-of-work hash is below the target, and records it and its hash in the
/// block. When none is found the block is left as it was.
pub fn proof_of_work(block: &mut Block, difficulty: usize) -> (r: Result<(), ChainError>)
    requires
        old(block).wf(),
        difficulty < 256,
    ensures
        final(block).wf(),
        final(block).timestamp == old(block).timestamp,
        final(block)@.transactions == old(block)@.transactions,
        final(block).prev_hash@ == old(block).prev_hash@,
        r is Ok ==> mined_with(final(block)@, difficulty as nat) && final(block).nonce < u64::MAX,
        r is Err ==> r == Err::<(), ChainError>(ChainError::ProofOfWorkExhausted) && final(block)@
            == old(block)@ && no_nonce_meets(old(block)@, difficulty as nat),
{
    let header = block.get_headers();
    let target = get_target(difficulty);
    let mut nonce: u64 = 0;
    while nonce < u64::MAX
        invariant
            block.wf(),
            *block == *old(block),
            header@ == header_bytes(block@),
            target.wf(),
            target@ == target_bytes(difficulty as nat),
            forall|n: u64| n < nonce ==> !#[trigger] meets_target(block@, n, difficulty as nat),
        decreases u64::MAX - nonce,
    {
        let mut data = copy_bytes(&header);
        push_bytes(&mut data, &u64_to_be_bytes(nonce));
        let hash = hash_bytes(&data);
        if hash.lt(&target) {
            let ghost before = block@;
            block.hash = hash;
            block.nonce = nonce;
            assert(header_bytes(block@) == header_bytes(before));
            assert(forall|n: u64| #[trigger] meets_target(block@, n, difficulty as nat) == meets_target(before, n, difficulty as nat));
            return Ok(());
        }
        nonce = nonce + 1;
    }
    Err(ChainError::ProofOfWorkExhausted)
}

/// Recomputes the proof-of-work hash of the block's nonce and accepts the
/// block when it equals the recorded hash and is below the target.
pub fn validate(block: &Block, difficulty: usize) -> (r: Result<(), ChainError>)
    requires
        block.wf(),
        difficulty < 256,
    ensures
        r is Ok <==> valid_block(block@, difficulty as nat),
        r is Err ==> r == Err::<(), ChainError>(ChainError::InvalidBlock),
{
    let mut data = block.get_headers();
    push_bytes(&mut data, &u64_to_be_bytes(block.nonce));
    let hash = hash_bytes(&data);
    let target = get_target(difficulty);
    if hash.lt(&target) && hash.same(&block.hash) {
        Ok(())
    } else {
        Err(ChainError::InvalidBlock)
    }
}

/// A block that the proof of work accepted passes validation.
pub proof fn lemma_mined_block_validates(b: BlockView, difficulty: nat)
    requires
        mined_with(b, difficulty),
    ensures
        valid_block(b, difficulty),
{
}

} // verus!
