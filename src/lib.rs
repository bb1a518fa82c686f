pub mod block;
pub mod constants;
pub mod encoding;
pub mod proof_of_work;
pub mod transactions;
pub mod utils;
pub mod wallet;

use vstd::prelude::*;

use block::{Block, BlockView};
use proof_of_work::{candidate_block, mined_with, no_nonce_meets, valid_block, validate};
use transactions::{
    is_coinbase_view, lookup, verify_result, views_of, Transaction, TransactionView,
};
use utils::U256;
use wallet::{address_key_hash, decode_address, Wallet};
use constants::BlockchainConstants;

verus! {

/// Why an operation on the ledger was refused.
#[derive(Debug, Clone, Copy, PartialEq, Eq, Structural)]
pub enum ChainError {
    /// An input refers to a transaction, or an output of it, that is not there.
    PreviousTransactionMissing,
    /// A transaction's signatures do not check.
    InvalidSignature,
    /// The payer's unspent outputs do not cover the amount.
    InsufficientFunds,
    /// An address is not base58 of at least 21 bytes.
    InvalidAddress,
    /// A secret key that secp256k1 does not accept.
    InvalidKey,
    /// No nonce gives a hash below the target.
    ProofOfWorkExhausted,
    /// A block whose hash or nonce does not meet the proof of work.
    InvalidBlock,
}

/// The transactions of a chain in the order a backward walk meets them: the
/// newest block first, each block's transactions in their order.
pub open spec fn chain_transactions(blocks: Seq<BlockView>) -> Seq<TransactionView>
    decreases blocks.len(),
{
    if blocks.len() == 0 {
        Seq::empty()
    } else {
        blocks.last().transactions + chain_transactions(blocks.drop_last())
    }
}

/// Whether output `k` of a transaction with id `id` is spent by an input of
/// one of the first `a` transactions; reward transactions spend nothing.
pub open spec fn spent_before(txs: Seq<TransactionView>, a: int, id: Seq<u8>, k: int) -> bool {
    exists|c: int, j: int|
        0 <= c < a && 0 <= j < txs[c].inputs.len() && !is_coinbase_view(txs[c])
            && (#[trigger] txs[c].inputs[j]).prev_tx_id == id && txs[c].inputs[j].output_index == k
}

/// Whether output `k` of transaction `a` is locked to `key_hash` and not
/// spent by a transaction met before it.
pub open spec fn owned_unspent(txs: Seq<TransactionView>, key_hash: Seq<u8>, a: int, k: int) -> bool {
    txs[a].outputs[k].lock == key_hash && !spent_before(txs, a, txs[a].id, k)
}

/// Positions (transaction, output) of the first `m` outputs of transaction
/// `a` that are owned and unspent.
pub open spec fn output_positions(txs: Seq<TransactionView>, key_hash: Seq<u8>, a: int, m: int) -> Seq<(int, int)>
    decreases m,
{
    if m <= 0 {
        Seq::empty()
    } else {
        output_positions(txs, key_hash, a, m - 1) + if owned_unspent(txs, key_hash, a, m - 1) {
            seq![(a, m - 1)]
        } else {
            Seq::empty()
        }
    }
}

/// Positions of the owned, unspent outputs among the first `n` transactions.
pub open spec fn unspent_positions(txs: Seq<TransactionView>, key_hash: Seq<u8>, n: int) -> Seq<(int, int)>
    decreases n,
{
    if n <= 0 {
        Seq::empty()
    } else {
        unspent_positions(txs, key_hash, n - 1) + output_positions(
            txs,
            key_hash,
            n - 1,
            txs[n - 1].outputs.len() as int,
        )
    }
}

pub ghost struct UnspentView {
    pub transaction_id: Seq<u8>,
    pub output_index: int,
    pub value: u64,
}

pub open spec fn unspent_at(txs: Seq<TransactionView>, p: (int, int)) -> UnspentView {
    UnspentView {
        transaction_id: txs[p.0].id,
        output_index: p.1,
        value: txs[p.0].outputs[p.1].value,
    }
}

/// The owned, unspent outputs of a sequence of transactions, in order.
pub open spec fn unspent_outputs(txs: Seq<TransactionView>, key_hash: Seq<u8>) -> Seq<UnspentView> {
    unspent_positions(txs, key_hash, txs.len() as int).map_values(|p: (int, int)| unspent_at(txs, p))
}

pub open spec fn total_value(s: Seq<UnspentView>) -> nat
    decreases s.len(),
{
    if s.len() == 0 {
        0
    } else {
        total_value(s.drop_last()) + s.last().value as nat
    }
}

/// An output that a key may still spend.
#[derive(Debug)]
pub struct UnspentOutput {
    pub transaction_id: U256,
    pub output_index: usize,
    pub value: u64,
}

impl View for UnspentOutput {
    type V = UnspentView;

    open spec fn view(&self) -> UnspentView {
        UnspentView {
            transaction_id: self.transaction_id@,
            output_index: self.output_index as int,
            value: self.value,
        }
    }
}

/// A chain of blocks, oldest first; `apex_hash` is the hash of the newest.
pub struct BlockChain {
    pub apex_hash: U256,
    pub blocks: Vec<Block>,
    pub difficulty: usize,
}

/// A cursor of a backward walk over a chain: the blocks below `remaining`
/// are still to come.
pub struct BlockChainIterator {
    pub current_hash: U256,
    pub remaining: usize,
}

pub open spec fn block_views(blocks: Seq<Block>) -> Seq<BlockView> {
    blocks.map_values(|b: Block| b@)
}

/// The first block follows hash zero, each other block the hash of the one
/// before it, every block passes its proof of work.
pub open spec fn chain_linked(blocks: Seq<BlockView>, difficulty: nat) -> bool {
    &&& blocks.len() > 0
    &&& blocks[0].prev_hash == transactions::zero_id()
    &&& forall|i: int| 0 < i < blocks.len() ==> (#[trigger] blocks[i]).prev_hash == blocks[i - 1].hash
    &&& forall|i: int| 0 <= i < blocks.len() ==> valid_block(#[trigger] blocks[i], difficulty)
}

impl Block {
    pub fn cloned(&self) -> (r: Block)
        ensures
            r@ == self@,
            self.wf() ==> r.wf(),
    {
        let mut transactions: Vec<Transaction> = Vec::new();
        let mut k: usize = 0;
        while k < self.transactions.len()
            invariant
                k <= self.transactions@.len(),
                transactions@.len() == k,
                forall|j: int| 0 <= j < k ==> (#[trigger] transactions@[j])@ == self.transactions@[j]@
                    && (self.transactions@[j].wf() ==> transactions@[j].wf()),
            decreases self.transactions@.len() - k,
        {
            transactions.push(self.transactions[k].cloned());
            k = k + 1;
        }
        let r = Block {
            timestamp: self.timestamp,
            transactions,
            prev_hash: self.prev_hash.cloned(),
            hash: self.hash.cloned(),
            nonce: self.nonce,
        };
        assert(r@.transactions =~= self@.transactions);
        r
    }
}

impl BlockChainIterator {
    /// The next block of the walk, newest first; `None` once the first block
    /// has been handed out.
    pub fn next_block(&mut self, chain: &BlockChain) -> (r: Option<Block>)
        ensures
            old(self).remaining == 0 || old(self).remaining > chain.blocks@.len() ==> r is None
                && final(self).remaining == old(self).remaining,
            0 < old(self).remaining <= chain.blocks@.len() ==> {
                &&& r matches Some(b) && b@ == chain.blocks@[old(self).remaining - 1]@
                &&& final(self).remaining == old(self).remaining - 1
                &&& final(self).current_hash@ == chain.blocks@[old(self).remaining - 1]@.prev_hash
            },
    {
        if self.remaining == 0 || self.remaining > chain.blocks.len() {
            return None;
        }
        let block = chain.blocks[self.remaining - 1].cloned();
        self.current_hash = block.prev_hash.cloned();
        self.remaining = self.remaining - 1;
        Some(block)
    }
}

pub open spec fn positions_view(s: Seq<(usize, usize)>) -> Seq<(int, int)> {
    s.map_values(|p: (usize, usize)| (p.0 as int, p.1 as int))
}

/// Outcome of checking a batch from transaction `k` on against the chain's
/// transactions: the first missing reference or refused signature decides.
pub open spec fn batch_check(txs: Seq<TransactionView>, prev: Seq<TransactionView>, k: int) -> Result<
    (),
    ChainError,
>
    decreases txs.len() - k,
{
    if k < 0 || k >= txs.len() {
        Ok(())
    } else {
        match verify_result(txs[k], prev) {
            Err(e) => Err(e),
            Ok(false) => Err(ChainError::InvalidSignature),
            Ok(true) => batch_check(txs, prev, k + 1),
        }
    }
}

proof fn lemma_chain_step(bv: Seq<BlockView>, i: int)
    requires
        0 <= i < bv.len(),
    ensures
        chain_transactions(bv.take(i + 1)) == bv[i].transactions + chain_transactions(bv.take(i)),
{
    assert(bv.take(i + 1).drop_last() =~= bv.take(i));
    assert(bv.take(i + 1).last() == bv[i]);
}

fn append_transactions(out: &mut Vec<Transaction>, block: &Block)
    requires
        block.wf(),
        forall|k: int| 0 <= k < old(out)@.len() ==> (#[trigger] old(out)@[k]).wf(),
    ensures
        views_of(final(out)@) == views_of(old(out)@) + views_of(block.transactions@),
        forall|k: int| 0 <= k < final(out)@.len() ==> (#[trigger] final(out)@[k]).wf(),
{
    let ghost before = views_of(out@);
    let mut k: usize = 0;
    while k < block.transactions.len()
        invariant
            k <= block.transactions@.len(),
            block.wf(),
            before == views_of(old(out)@),
            views_of(out@) == before + views_of(block.transactions@).take(k as int),
            forall|m: int| 0 <= m < out@.len() ==> (#[trigger] out@[m]).wf(),
        decreases block.transactions@.len() - k,
    {
        assert(block.transactions@[k as int].wf());
        let t = block.transactions[k].cloned();
        let ghost tv = t@;
        let ghost prior = out@;
        out.push(t);
        assert(views_of(out@) =~= views_of(prior).push(tv));
        assert(views_of(block.transactions@).take(k + 1) =~= views_of(block.transactions@).take(
            k as int,
        ).push(tv));
        k = k + 1;
        assert(views_of(out@) =~= before + views_of(block.transactions@).take(k as int));
    }
    assert(views_of(block.transactions@).take(k as int) =~= views_of(block.transactions@));
}

/// A batch is refused only for a missing reference or a bad signature.
proof fn lemma_batch_errors(txs: Seq<TransactionView>, prev: Seq<TransactionView>, k: int)
    ensures
        batch_check(txs, prev, k) is Err ==> batch_check(txs, prev, k) == Err::<(), ChainError>(
            ChainError::PreviousTransactionMissing,
        ) || batch_check(txs, prev, k) == Err::<(), ChainError>(ChainError::InvalidSignature),
    decreases txs.len() - k,
{
    if 0 <= k < txs.len() {
        lemma_batch_errors(txs, prev, k + 1);
    }
}

fn first_with_id(txs: &Vec<Transaction>, id: &U256) -> (r: Option<usize>)
    ensures
        r matches Some(k) ==> k < txs@.len() && lookup(views_of(txs@), id@) == Some(txs@[k as int]@),
        r is None ==> lookup(views_of(txs@), id@) is None,
{
    let ghost views = views_of(txs@);
    assert(views.skip(0) =~= views);
    let mut k: usize = 0;
    while k < txs.len()
        invariant
            k <= txs@.len(),
            views == views_of(txs@),
            lookup(views, id@) == lookup(views.skip(k as int), id@),
        decreases txs@.len() - k,
    {
        assert(views.skip(k as int).skip(1) =~= views.skip(k + 1));
        if txs[k].id.same(id) {
            return Some(k);
        }
        k = k + 1;
    }
    None
}

fn is_spent(txs: &Vec<Transaction>, a: usize, id: &U256, k: usize) -> (r: bool)
    requires
        a <= txs@.len(),
    ensures
        r == spent_before(views_of(txs@), a as int, id@, k as int),
{
    let ghost views = views_of(txs@);
    let mut c: usize = 0;
    while c < a
        invariant
            c <= a <= txs@.len(),
            views == views_of(txs@),
            !spent_before(views, c as int, id@, k as int),
        decreases a - c,
    {
        let t = &txs[c];
        if !t.is_coinbase() {
            let mut j: usize = 0;
            while j < t.inputs.len()
                invariant
                    c < a <= txs@.len(),
                    j <= t.inputs@.len(),
                    *t == txs@[c as int],
                    views == views_of(txs@),
                    !is_coinbase_view(views[c as int]),
                    !spent_before(views, c as int, id@, k as int),
                    forall|m: int| 0 <= m < j ==> !((#[trigger] views[c as int].inputs[m]).prev_tx_id == id@
                        && views[c as int].inputs[m].output_index == k),
                decreases t.inputs@.len() - j,
            {
                let input = &t.inputs[j];
                assert(views[c as int].inputs[j as int] == input@);
                if input.transaction_id.same(id) && input.output_index == k {
                    assert(spent_before(views, a as int, id@, k as int) ) by {
                        assert(views[c as int].inputs[j as int].prev_tx_id == id@);
                    }
                    return true;
                }
                j = j + 1;
            }
        }
        c = c + 1;
    }
    false
}

fn owned_positions(txs: &Vec<Transaction>, key_hash: &Vec<u8>) -> (r: Vec<(usize, usize)>)
    ensures
        positions_view(r@) == unspent_positions(views_of(txs@), key_hash@, txs@.len() as int),
        forall|q: int| 0 <= q < r@.len() ==> (#[trigger] r@[q]).0 < txs@.len() && r@[q].1
            < txs@[r@[q].0 as int].outputs@.len(),
{
    let ghost views = views_of(txs@);
    let mut r: Vec<(usize, usize)> = Vec::new();
    let mut a: usize = 0;
    while a < txs.len()
        invariant
            a <= txs@.len(),
            views == views_of(txs@),
            positions_view(r@) == unspent_positions(views, key_hash@, a as int),
            forall|q: int| 0 <= q < r@.len() ==> (#[trigger] r@[q]).0 < txs@.len() && r@[q].1
                < txs@[r@[q].0 as int].outputs@.len(),
        decreases txs@.len() - a,
    {
        let t = &txs[a];
        let ghost base = positions_view(r@);
        let mut k: usize = 0;
        while k < t.outputs.len()
            invariant
                a < txs@.len(),
                k <= t.outputs@.len(),
                *t == txs@[a as int],
                views == views_of(txs@),
                base == unspent_positions(views, key_hash@, a as int),
                positions_view(r@) == base + output_positions(views, key_hash@, a as int, k as int),
                forall|q: int| 0 <= q < r@.len() ==> (#[trigger] r@[q]).0 < txs@.len() && r@[q].1
                    < txs@[r@[q].0 as int].outputs@.len(),
            decreases t.outputs@.len() - k,
        {
            assert(views[a as int].outputs[k as int] == t.outputs@[k as int]@);
            assert(views[a as int].id == t.id@);
            let ghost before = r@;
            let locked = t.outputs[k].is_locked_with_key(key_hash);
            let spent = if locked { is_spent(txs, a, &t.id, k) } else { false };
            assert((locked && !spent) == owned_unspent(views, key_hash@, a as int, k as int));
            if locked && !spent {
                r.push((a, k));
                assert(positions_view(r@) =~= positions_view(before).push((a as int, k as int)));
            }
            assert(output_positions(views, key_hash@, a as int, k + 1) == output_positions(
                views,
                key_hash@,
                a as int,
                k as int,
            ) + if owned_unspent(views, key_hash@, a as int, k as int) {
                seq![(a as int, k as int)]
            } else {
                Seq::empty()
            });
            k = k + 1;
            assert(positions_view(r@) =~= base + output_positions(views, key_hash@, a as int, k as int));
        }
        a = a + 1;
        assert(positions_view(r@) =~= unspent_positions(views, key_hash@, a as int));
    }
    r
}

pub(crate) proof fn lemma_total_prefix(s: Seq<UnspentView>, j: int)
    requires
        0 <= j <= s.len(),
    ensures
        total_value(s.take(j)) <= total_value(s),
    decreases s.len() - j,
{
    if j < s.len() {
        lemma_total_prefix(s, j + 1);
        assert(s.take(j + 1).drop_last() =~= s.take(j));
    } else {
        assert(s.take(j) =~= s);
    }
}

impl BlockChain {
    pub open spec fn wf(&self) -> bool {
        &&& self.difficulty < 256
        &&& self.apex_hash.wf()
        &&& forall|i: int| 0 <= i < self.blocks@.len() ==> (#[trigger] self.blocks@[i]).wf()
        &&& chain_linked(block_views(self.blocks@), self.difficulty as nat)
        &&& self.apex_hash@ == self.blocks@.last()@.hash
    }

    /// The chain's transactions, newest block first.
    pub open spec fn transactions_view(&self) -> Seq<TransactionView> {
        chain_transactions(block_views(self.blocks@))
    }

    /// A walk that starts at the apex.
    pub fn get_iterator(&self) -> (r: BlockChainIterator)
        ensures
            r.remaining == self.blocks@.len(),
            r.current_hash@ == self.apex_hash@,
    {
        BlockChainIterator { current_hash: self.apex_hash.cloned(), remaining: self.blocks.len() }
    }

    /// Copies of all transactions, in the order of a backward walk.
    pub fn transactions_backward(&self) -> (r: Vec<Transaction>)
        requires
            self.wf(),
        ensures
            views_of(r@) == self.transactions_view(),
            forall|k: int| 0 <= k < r@.len() ==> (#[trigger] r@[k]).wf(),
    {
        let ghost bv = block_views(self.blocks@);
        let mut out: Vec<Transaction> = Vec::new();
        let mut i: usize = self.blocks.len();
        assert(bv.take(bv.len() as int) =~= bv);
        while i > 0
            invariant
                i <= self.blocks@.len(),
                forall|k: int| 0 <= k < self.blocks@.len() ==> (#[trigger] self.blocks@[k]).wf(),
                bv == block_views(self.blocks@),
                views_of(out@) + chain_transactions(bv.take(i as int)) == chain_transactions(bv),
                forall|k: int| 0 <= k < out@.len() ==> (#[trigger] out@[k]).wf(),
            decreases i,
        {
            i = i - 1;
            let block = &self.blocks[i];
            assert(block.wf());
            append_transactions(&mut out, block);
            proof {
                lemma_chain_step(bv, i as int);
            }
        }
        assert(chain_transactions(bv.take(0)) =~= Seq::<TransactionView>::empty());
        assert(views_of(out@) =~= chain_transactions(bv));
        out
    }

    /// The first transaction with the given id in a backward walk.
    pub fn find_transaction(&self, id: &U256) -> (r: Option<Transaction>)
        requires
            self.wf(),
        ensures
            r matches Some(t) ==> lookup(self.transactions_view(), id@) == Some(t@),
            r is None ==> lookup(self.transactions_view(), id@) is None,
    {
        let mut txs = self.transactions_backward();
        match first_with_id(&txs, id) {
            Some(k) => Some(txs.remove(k)),
            None => None,
        }
    }

    /// Checks a transaction against the chain's transactions.
    pub fn verify_transaction(&self, transaction: &Transaction) -> (r: Result<bool, ChainError>)
        requires
            self.wf(),
            transaction.wf(),
        ensures
            r == verify_result(transaction@, self.transactions_view()),
    {
        let txs = self.transactions_backward();
        transaction.verify(&txs)
    }

    /// Signs a transaction's inputs against the chain's transactions.
    pub fn sign_transaction(&self, transaction: &mut Transaction, private_key: &Vec<u8>) -> (r: Result<
        (),
        ChainError,
    >)
        requires
            self.wf(),
            old(transaction).wf(),
        ensures
            final(transaction).wf(),
            r is Err ==> final(transaction)@ == old(transaction)@,
            r is Ok && !is_coinbase_view(old(transaction)@) ==> transactions::signed_with(
                old(transaction)@,
                final(transaction)@,
                private_key@,
                self.transactions_view(),
            ),
    {
        let txs = self.transactions_backward();
        transaction.sign(private_key, &txs)
    }

    /// The transaction of each output locked to `public_key_hash` that no
    /// later transaction spends, one entry per such output, in the order of
    /// a backward walk.
    pub fn get_unspent_transactions(&self, public_key_hash: &Vec<u8>) -> (r: Vec<Transaction>)
        requires
            self.wf(),
        ensures
            views_of(r@) == positions_view_map(
                self.transactions_view(),
                unspent_positions(self.transactions_view(), public_key_hash@, self.transactions_view().len() as int),
            ),
    {
        let txs = self.transactions_backward();
        let ghost views = views_of(txs@);
        let positions = owned_positions(&txs, public_key_hash);
        let ghost want = positions_view_map(views, positions_view(positions@));
        let mut r: Vec<Transaction> = Vec::new();
        let mut q: usize = 0;
        while q < positions.len()
            invariant
                q <= positions@.len(),
                views == views_of(txs@),
                want == positions_view_map(views, positions_view(positions@)),
                views_of(r@) == want.take(q as int),
                forall|m: int| 0 <= m < positions@.len() ==> (#[trigger] positions@[m]).0 < txs@.len(),
            decreases positions@.len() - q,
        {
            let p = positions[q];
            assert(positions_view(positions@)[q as int] == (p.0 as int, p.1 as int));
            assert(want[q as int] == txs@[p.0 as int]@);
            let t = txs[p.0].cloned();
            let ghost prior = r@;
            r.push(t);
            assert(views_of(r@) =~= views_of(prior).push(want[q as int]));
            q = q + 1;
            assert(views_of(r@) =~= want.take(q as int));
        }
        assert(want.take(q as int) =~= want);
        r
    }

    /// The outputs locked to `public_key_hash` that no later transaction
    /// spends, in the order of a backward walk.
    pub fn get_unspent_outputs(&self, public_key_hash: &Vec<u8>) -> (r: Vec<UnspentOutput>)
        requires
            self.wf(),
        ensures
            r@.map_values(|u: UnspentOutput| u@) == unspent_outputs(self.transactions_view(), public_key_hash@),
            forall|k: int| 0 <= k < r@.len() ==> (#[trigger] r@[k]).transaction_id.wf(),
    {
        let txs = self.transactions_backward();
        let ghost views = views_of(txs@);
        let positions = owned_positions(&txs, public_key_hash);
        let ghost want = unspent_outputs(views, public_key_hash@);
        let mut r: Vec<UnspentOutput> = Vec::new();
        let mut q: usize = 0;
        while q < positions.len()
            invariant
                q <= positions@.len(),
                views == views_of(txs@),
                forall|k: int| 0 <= k < txs@.len() ==> (#[trigger] txs@[k]).wf(),
                want == positions_view(positions@).map_values(|p: (int, int)| unspent_at(views, p)),
                r@.map_values(|u: UnspentOutput| u@) == want.take(q as int),
                forall|k: int| 0 <= k < r@.len() ==> (#[trigger] r@[k]).transaction_id.wf(),
                forall|m: int| 0 <= m < positions@.len() ==> (#[trigger] positions@[m]).0 < txs@.len()
                    && positions@[m].1 < txs@[positions@[m].0 as int].outputs@.len(),
            decreases positions@.len() - q,
        {
            let p = positions[q];
            let t = &txs[p.0];
            assert(t.wf());
            assert(positions_view(positions@)[q as int] == (p.0 as int, p.1 as int));
            assert(want[q as int] == unspent_at(views, (p.0 as int, p.1 as int)));
            assert(views[p.0 as int].outputs[p.1 as int] == t.outputs@[p.1 as int]@);
            let ghost prior = r@;
            r.push(UnspentOutput {
                transaction_id: t.id.cloned(),
                output_index: p.1,
                value: t.outputs[p.1].value,
            });
            assert(r@.map_values(|u: UnspentOutput| u@) =~= prior.map_values(|u: UnspentOutput| u@).push(
                want[q as int],
            ));
            q = q + 1;
            assert(r@.map_values(|u: UnspentOutput| u@) =~= want.take(q as int));
        }
        assert(want.take(q as int) =~= want);
        r
    }

    /// Sum of the unspent outputs locked to the key hash that `address`
    /// carries, saturating at `u64::MAX`; `None` for an address that carries
    /// none.
    pub fn get_balance(&self, address: &str) -> (r: Option<u64>)
        requires
            self.wf(),
        ensures
            address_key_hash(address@) is None ==> r is None,
            address_key_hash(address@) matches Some(h) ==> r matches Some(v) && v as nat == min_nat(
                total_value(unspent_outputs(self.transactions_view(), h)),
                u64::MAX as nat,
            ),
    {
        let key_hash = match decode_address(address) {
            Some(h) => h,
            None => {
                return None;
            },
        };
        let outputs = self.get_unspent_outputs(&key_hash);
        let ghost s = outputs@.map_values(|u: UnspentOutput| u@);
        let mut balance: u64 = 0;
        let mut q: usize = 0;
        while q < outputs.len()
            invariant
                q <= outputs@.len(),
                s == outputs@.map_values(|u: UnspentOutput| u@),
                balance as nat == min_nat(total_value(s.take(q as int)), u64::MAX as nat),
            decreases outputs@.len() - q,
        {
            let v = outputs[q].value;
            assert(s.take(q + 1).drop_last() =~= s.take(q as int));
            if balance > u64::MAX - v {
                balance = u64::MAX;
            } else {
                balance = balance + v;
            }
            q = q + 1;
        }
        assert(s.take(q as int) =~= s);
        Some(balance)
    }

    /// Takes unspent outputs locked to `public_key_hash`, in the order of a
    /// backward walk, until their sum reaches `amount`; returns the sum and
    /// the outputs taken, all of them when they do not reach it.
    pub fn get_spendable_outputs(&self, public_key_hash: &Vec<u8>, amount: u64) -> (r: (u128, Vec<UnspentOutput>))
        requires
            self.wf(),
        ensures
            ({
                let s = unspent_outputs(self.transactions_view(), public_key_hash@);
                let n = r.1@.len() as int;
                &&& n <= s.len()
                &&& r.1@.map_values(|u: UnspentOutput| u@) == s.take(n)
                &&& r.0 as nat == total_value(s.take(n))
                &&& forall|j: int| 0 <= j < n ==> total_value(#[trigger] s.take(j)) < amount
                &&& (n == s.len() || r.0 >= amount)
            }),
            forall|k: int| 0 <= k < r.1@.len() ==> (#[trigger] r.1@[k]).transaction_id.wf(),
    {
        let ghost s = unspent_outputs(self.transactions_view(), public_key_hash@);
        let mut outputs = self.get_unspent_outputs(public_key_hash);
        let mut taken: Vec<UnspentOutput> = Vec::new();
        let mut accumulated: u128 = 0;
        let mut q: usize = 0;
        while q < outputs.len() && accumulated < amount as u128
            invariant
                q <= outputs@.len(),
                taken@.len() == q,
                s == outputs@.map_values(|u: UnspentOutput| u@),
                taken@.map_values(|u: UnspentOutput| u@) == s.take(q as int),
                accumulated as nat == total_value(s.take(q as int)),
                accumulated <= amount as u128 + u64::MAX as u128,
                forall|j: int| 0 <= j < q ==> total_value(#[trigger] s.take(j)) < amount,
                forall|k: int| 0 <= k < outputs@.len() ==> (#[trigger] outputs@[k]).transaction_id.wf(),
                forall|k: int| 0 <= k < taken@.len() ==> (#[trigger] taken@[k]).transaction_id.wf(),
            decreases outputs@.len() - q,
        {
            let o = &outputs[q];
            assert(s.take(q + 1).drop_last() =~= s.take(q as int));
            accumulated = accumulated + o.value as u128;
            taken.push(UnspentOutput {
                transaction_id: o.transaction_id.cloned(),
                output_index: o.output_index,
                value: o.value,
            });
            q = q + 1;
            assert(taken@.map_values(|u: UnspentOutput| u@) =~= s.take(q as int));
        }
        (accumulated, taken)
    }
}

impl BlockChain {
    /// Checks every transaction that is not a reward against the chain,
    /// mines a block of them on the apex at `timestamp`, validates it and
    /// appends it. On an error the chain is left as it was.
    pub fn add_block(&mut self, transactions: Vec<Transaction>, timestamp: u64) -> (r: Result<(), ChainError>)
        requires
            old(self).wf(),
            forall|k: int| 0 <= k < transactions@.len() ==> (#[trigger] transactions@[k]).wf(),
        ensures
            final(self).wf(),
            final(self).difficulty == old(self).difficulty,
            batch_check(views_of(transactions@), old(self).transactions_view(), 0) is Err ==> r
                == batch_check(views_of(transactions@), old(self).transactions_view(), 0),
            batch_check(views_of(transactions@), old(self).transactions_view(), 0) is Ok ==> (r is Ok
                || (r == Err::<(), ChainError>(ChainError::ProofOfWorkExhausted) && no_nonce_meets(
                candidate_block(timestamp, views_of(transactions@), old(self).apex_hash@),
                old(self).difficulty as nat,
            ))),
            r is Err ==> block_views(final(self).blocks@) == block_views(old(self).blocks@),
            r is Ok ==> {
                let b = block_views(final(self).blocks@).last();
                &&& block_views(final(self).blocks@) == block_views(old(self).blocks@).push(b)
                &&& b.transactions == views_of(transactions@)
                &&& b.prev_hash == old(self).apex_hash@
                &&& b.timestamp == timestamp
                &&& mined_with(b, old(self).difficulty as nat)
            },
    {
        let ghost txv = views_of(transactions@);
        let prev = self.transactions_backward();
        let mut k: usize = 0;
        while k < transactions.len()
            invariant
                k <= transactions@.len(),
                txv == views_of(transactions@),
                views_of(prev@) == self.transactions_view(),
                *self == *old(self),
                self.wf(),
                forall|m: int| 0 <= m < transactions@.len() ==> (#[trigger] transactions@[m]).wf(),
                batch_check(txv, self.transactions_view(), 0) == batch_check(
                    txv,
                    self.transactions_view(),
                    k as int,
                ),
            decreases transactions@.len() - k,
        {
            let t = &transactions[k];
            assert(txv[k as int] == t@);
            if !t.is_coinbase() {
                match t.verify(&prev) {
                    Ok(true) => {},
                    Ok(false) => {
                        return Err(ChainError::InvalidSignature);
                    },
                    Err(e) => {
                        return Err(e);
                    },
                }
            }
            k = k + 1;
        }
        let block = match Block::new(transactions, self.apex_hash.cloned(), timestamp, self.difficulty) {
            Ok(b) => b,
            Err(e) => {
                return Err(e);
            },
        };
        match validate(&block, self.difficulty) {
            Ok(()) => {},
            Err(e) => {
                return Err(e);
            },
        }
        let ghost old_blocks = block_views(self.blocks@);
        self.apex_hash = block.hash.cloned();
        self.blocks.push(block);
        proof {
            let nb = block_views(self.blocks@);
            assert(nb =~= old_blocks.push(nb.last()));
            assert(forall|i: int| 0 <= i < old_blocks.len() ==> nb[i] == old_blocks[i]);
        }
        Ok(())
    }

    /// A new chain whose genesis block holds one reward transaction to
    /// `genesis_address`, mined at `timestamp` at the configured difficulty.
    pub fn new(genesis_address: &str, constants: &BlockchainConstants, timestamp: u64) -> (r: Result<
        BlockChain,
        ChainError,
    >)
        requires
            constants.mining_difficulty < 256,
        ensures
            address_key_hash(genesis_address@) is None ==> r == Err::<BlockChain, ChainError>(
                ChainError::InvalidAddress,
            ),
            address_key_hash(genesis_address@) is Some ==> (r is Ok || (r == Err::<BlockChain, ChainError>(
                ChainError::ProofOfWorkExhausted,
            ) && no_nonce_meets(
                candidate_block(
                    timestamp,
                    seq![
                        transactions::reward_transaction(
                            address_key_hash(genesis_address@)->Some_0,
                            constants.coinbase_reward,
                        ),
                    ],
                    transactions::zero_id(),
                ),
                constants.mining_difficulty as nat,
            ))),
            r matches Ok(c) ==> {
                &&& c.wf()
                &&& c.difficulty == constants.mining_difficulty
                &&& c.blocks@.len() == 1
                &&& c.blocks@[0].timestamp == timestamp
                &&& c.blocks@[0]@.transactions.len() == 1
                &&& is_coinbase_view(c.blocks@[0]@.transactions[0])
                &&& c.blocks@[0]@.transactions[0] == transactions::reward_transaction(
                    address_key_hash(genesis_address@)->Some_0,
                    constants.coinbase_reward,
                )
            },
    {
        let coinbase = match transactions::new_coinbase_transaction(
            genesis_address,
            copy_string(&constants.genesis_block_data),
            constants.coinbase_reward,
        ) {
            Ok(t) => t,
            Err(e) => {
                return Err(e);
            },
        };
        let mut txs: Vec<Transaction> = Vec::new();
        txs.push(coinbase);
        let ghost txv = views_of(txs@);
        assert(txv =~= seq![txs@[0]@]);
        let block = match Block::new(txs, U256::zero(), timestamp, constants.mining_difficulty) {
            Ok(b) => b,
            Err(e) => {
                return Err(e);
            },
        };
        match validate(&block, constants.mining_difficulty) {
            Ok(()) => {},
            Err(e) => {
                return Err(e);
            },
        }
        let apex_hash = block.hash.cloned();
        let mut blocks: Vec<Block> = Vec::new();
        blocks.push(block);
        let chain = BlockChain { apex_hash, blocks, difficulty: constants.mining_difficulty };
        assert(block_views(chain.blocks@)[0] == chain.blocks@[0]@);
        assert(txv.len() == 1);
        Ok(chain)
    }

    /// A chain of blocks read back from storage, oldest first; `None` unless
    /// they link up from hash zero and each passes its proof of work.
    pub fn from_blocks(blocks: Vec<Block>, difficulty: usize) -> (r: Option<BlockChain>)
        requires
            difficulty < 256,
            forall|k: int| 0 <= k < blocks@.len() ==> (#[trigger] blocks@[k]).wf(),
        ensures
            r is Some <==> chain_linked(block_views(blocks@), difficulty as nat),
            r matches Some(c) ==> c.wf() && block_views(c.blocks@) == block_views(blocks@)
                && c.difficulty == difficulty,
    {
        let ghost bv = block_views(blocks@);
        if blocks.len() == 0 {
            return None;
        }
        if !blocks[0].prev_hash.is_zero() {
            assert(bv[0].prev_hash != transactions::zero_id()) by {
                if bv[0].prev_hash == transactions::zero_id() {
                    assert(forall|i: int| 0 <= i < 32 ==> blocks@[0].prev_hash@[i] == 0);
                }
            }
            return None;
        }
        assert(blocks@[0].prev_hash@ =~= transactions::zero_id());
        let mut i: usize = 0;
        while i < blocks.len()
            invariant
                0 < blocks@.len(),
                i <= blocks@.len(),
                difficulty < 256,
                bv == block_views(blocks@),
                bv[0].prev_hash == transactions::zero_id(),
                forall|k: int| 0 <= k < blocks@.len() ==> (#[trigger] blocks@[k]).wf(),
                forall|j: int| 0 < j < i ==> (#[trigger] bv[j]).prev_hash == bv[j - 1].hash,
                forall|j: int| 0 <= j < i ==> valid_block(#[trigger] bv[j], difficulty as nat),
            decreases blocks@.len() - i,
        {
            assert(bv[i as int] == blocks@[i as int]@);
            if i > 0 && !blocks[i].prev_hash.same(&blocks[i - 1].hash) {
                assert(bv[i - 1] == blocks@[i - 1]@);
                assert(!chain_linked(bv, difficulty as nat)) by {
                    assert(bv[i as int].prev_hash != bv[i - 1].hash);
                }
                return None;
            }
            if validate(&blocks[i], difficulty).is_err() {
                assert(!chain_linked(bv, difficulty as nat)) by {
                    assert(!valid_block(bv[i as int], difficulty as nat));
                }
                return None;
            }
            i = i + 1;
        }
        let apex_hash = blocks[blocks.len() - 1].hash.cloned();
        Some(BlockChain { apex_hash, blocks, difficulty })
    }

    /// Builds a payment from `sender` to `receiver` with `wallet` and appends
    /// it in a block of its own at `timestamp`.
    pub fn send(
        &mut self,
        sender: &str,
        receiver: &str,
        amount: u64,
        wallet: &Wallet,
        timestamp: u64,
    ) -> (r: Result<(), ChainError>)
        requires
            old(self).wf(),
        ensures
            final(self).wf(),
            r is Err ==> block_views(final(self).blocks@) == block_views(old(self).blocks@),
            (address_key_hash(sender@) is None || address_key_hash(receiver@) is None) <==> r
                == Err::<(), ChainError>(ChainError::InvalidAddress),
            address_key_hash(sender@) is Some && address_key_hash(receiver@) is Some ==> (r
                == Err::<(), ChainError>(ChainError::InsufficientFunds) <==> total_value(
                transactions::wallet_unspent(old(self), wallet),
            ) < amount),
            address_key_hash(sender@) is Some && address_key_hash(receiver@) is Some && total_value(
                transactions::wallet_unspent(old(self), wallet),
            ) >= amount && wallet.wf() && transactions::payment_owned(
                sender@,
                receiver@,
                amount,
                old(self),
                wallet,
            ) ==> (r is Ok || (r == Err::<(), ChainError>(ChainError::ProofOfWorkExhausted)
                && no_nonce_meets(
                candidate_block(
                    timestamp,
                    seq![transactions::payment_view(sender@, receiver@, amount, old(self), wallet)],
                    old(self).apex_hash@,
                ),
                old(self).difficulty as nat,
            ))),
            r is Ok ==> {
                let b = block_views(final(self).blocks@).last();
                &&& block_views(final(self).blocks@) == block_views(old(self).blocks@).push(b)
                &&& b.transactions == seq![
                    transactions::payment_view(sender@, receiver@, amount, old(self), wallet),
                ]
                &&& b.prev_hash == old(self).apex_hash@
                &&& b.timestamp == timestamp
                &&& mined_with(b, old(self).difficulty as nat)
            },
    {
        let transaction = match transactions::new_transaction(sender, receiver, amount, self, wallet) {
            Ok(t) => t,
            Err(e) => {
                return Err(e);
            },
        };
        let ghost tv = transaction@;
        let mut txs: Vec<Transaction> = Vec::new();
        txs.push(transaction);
        proof {
            let txv = views_of(txs@);
            assert(txv =~= seq![tv]);
            lemma_batch_errors(txv, self.transactions_view(), 0);
            if verify_result(tv, self.transactions_view()) == Ok::<bool, ChainError>(true) {
                assert(batch_check(txv, self.transactions_view(), 1) == Ok::<(), ChainError>(()));
            }
            if wallet.wf() && transactions::payment_owned(sender@, receiver@, amount, self, wallet) {
                let u = transactions::unsigned_payment_for(sender@, receiver@, amount, self, wallet);
                assert forall|k: int| 0 <= k < u.inputs.len() implies (#[trigger] transactions::referenced_lock(
                    self.transactions_view(),
                    u.inputs[k],
                )) is Some by {
                    assert(transactions::referenced_lock(self.transactions_view(), u.inputs[k]) == Some(
                        wallet::key_hash(wallet.public_key@),
                    ));
                }
            }
        }
        self.add_block(txs, timestamp)
    }
}

/// A copy of a string.
fn copy_string(s: &String) -> (r: String)
    ensures
        r@ == s@,
{
    s.clone()
}

pub open spec fn positions_view_map(txs: Seq<TransactionView>, p: Seq<(int, int)>) -> Seq<TransactionView> {
    p.map_values(|q: (int, int)| txs[q.0])
}

/// `n` is the number of outputs that a greedy selection for `amount` takes:
/// it stops at the first prefix whose sum reaches the amount.
pub open spec fn selected(s: Seq<UnspentView>, amount: u64, n: int) -> bool {
    &&& 0 <= n <= s.len()
    &&& forall|j: int| 0 <= j < n ==> total_value(#[trigger] s.take(j)) < amount
    &&& (n == s.len() || total_value(s.take(n)) >= amount)
}

pub open spec fn min_nat(a: nat, b: nat) -> nat {
    if a < b { a } else { b }
}

proof fn lemma_output_positions_owned(txs: Seq<TransactionView>, key_hash: Seq<u8>, a: int, m: int)
    requires
        0 <= a < txs.len(),
        m <= txs[a].outputs.len(),
    ensures
        forall|q: int| 0 <= q < output_positions(txs, key_hash, a, m).len() ==> {
            let p = #[trigger] output_positions(txs, key_hash, a, m)[q];
            p.0 == a && 0 <= p.1 < txs[a].outputs.len() && owned_unspent(txs, key_hash, p.0, p.1)
        },
    decreases m,
{
    if m > 0 {
        lemma_output_positions_owned(txs, key_hash, a, m - 1);
        let front = output_positions(txs, key_hash, a, m - 1);
        assert forall|q: int| 0 <= q < output_positions(txs, key_hash, a, m).len() implies {
            let p = #[trigger] output_positions(txs, key_hash, a, m)[q];
            p.0 == a && 0 <= p.1 < txs[a].outputs.len() && owned_unspent(txs, key_hash, p.0, p.1)
        } by {
            if q < front.len() {
                assert(output_positions(txs, key_hash, a, m)[q] == front[q]);
            }
        }
    }
}

proof fn lemma_unspent_positions_owned(txs: Seq<TransactionView>, key_hash: Seq<u8>, n: int)
    requires
        n <= txs.len(),
    ensures
        forall|q: int| 0 <= q < unspent_positions(txs, key_hash, n).len() ==> {
            let p = #[trigger] unspent_positions(txs, key_hash, n)[q];
            0 <= p.0 < n && 0 <= p.1 < txs[p.0].outputs.len() && owned_unspent(txs, key_hash, p.0, p.1)
        },
    decreases n,
{
    if n > 0 {
        lemma_unspent_positions_owned(txs, key_hash, n - 1);
        lemma_output_positions_owned(txs, key_hash, n - 1, txs[n - 1].outputs.len() as int);
        let front = unspent_positions(txs, key_hash, n - 1);
        let back = output_positions(txs, key_hash, n - 1, txs[n - 1].outputs.len() as int);
        assert forall|q: int| 0 <= q < unspent_positions(txs, key_hash, n).len() implies {
            let p = #[trigger] unspent_positions(txs, key_hash, n)[q];
            0 <= p.0 < n && 0 <= p.1 < txs[p.0].outputs.len() && owned_unspent(txs, key_hash, p.0, p.1)
        } by {
            if q < front.len() {
                assert(unspent_positions(txs, key_hash, n)[q] == front[q]);
            } else {
                assert(unspent_positions(txs, key_hash, n)[q] == back[q - front.len()]);
            }
        }
    }
}

/// Once a transaction that is not a reward spends output `k` of the
/// transaction with id `id`, and no transaction met before it in the walk
/// (none newer) has that id, the output is in no list of unspent outputs:
/// its value counts in no balance again.
pub proof fn lemma_spent_output_excluded(txs: Seq<TransactionView>, key_hash: Seq<u8>, c: int, j: int)
    requires
        0 <= c < txs.len(),
        !is_coinbase_view(txs[c]),
        0 <= j < txs[c].inputs.len(),
        forall|a: int| 0 <= a <= c ==> (#[trigger] txs[a].id) != txs[c].inputs[j].prev_tx_id,
    ensures
        forall|q: int| 0 <= q < unspent_outputs(txs, key_hash).len() ==> !(
            (#[trigger] unspent_outputs(txs, key_hash)[q]).transaction_id == txs[c].inputs[j].prev_tx_id
                && unspent_outputs(txs, key_hash)[q].output_index == txs[c].inputs[j].output_index),
{
    let positions = unspent_positions(txs, key_hash, txs.len() as int);
    lemma_unspent_positions_owned(txs, key_hash, txs.len() as int);
    let id = txs[c].inputs[j].prev_tx_id;
    let k = txs[c].inputs[j].output_index as int;
    assert forall|q: int| 0 <= q < unspent_outputs(txs, key_hash).len() implies !(
        (#[trigger] unspent_outputs(txs, key_hash)[q]).transaction_id == id
            && unspent_outputs(txs, key_hash)[q].output_index == k) by {
        let p = positions[q];
        assert(unspent_outputs(txs, key_hash)[q] == unspent_at(txs, p));
        if txs[p.0].id == id && p.1 == k {
            assert(p.0 > c);
            assert(spent_before(txs, p.0, id, k)) by {
                assert(txs[c].inputs[j].prev_tx_id == id);
            }
        }
    }
}

/// A transaction whose id no other transaction of the walk has is what a
/// search by that id finds.
pub proof fn lemma_find_appended_transaction(txs: Seq<TransactionView>, i: int)
    requires
        0 <= i < txs.len(),
        forall|j: int| 0 <= j < txs.len() && j != i ==> (#[trigger] txs[j].id) != txs[i].id,
    ensures
        lookup(txs, txs[i].id) == Some(txs[i]),
    decreases i,
{
    if i > 0 {
        assert(txs[0].id != txs[i].id);
        let rest = txs.skip(1);
        assert forall|j: int| 0 <= j < rest.len() && j != i - 1 implies (#[trigger] rest[j].id) != rest[i - 1].id by {
            assert(rest[j] == txs[j + 1]);
        }
        lemma_find_appended_transaction(rest, i - 1);
    }
}

/// An id that no transaction of the walk has finds nothing.
pub proof fn lemma_fabricated_id_not_found(txs: Seq<TransactionView>, id: Seq<u8>)
    requires
        forall|j: int| 0 <= j < txs.len() ==> (#[trigger] txs[j].id) != id,
    ensures
        lookup(txs, id) is None,
    decreases txs.len(),
{
    if txs.len() > 0 {
        let rest = txs.skip(1);
        assert forall|j: int| 0 <= j < rest.len() implies (#[trigger] rest[j].id) != id by {
            assert(rest[j] == txs[j + 1]);
        }
        lemma_fabricated_id_not_found(rest, id);
    }
}

proof fn lemma_total_concat(a: Seq<UnspentView>, b: Seq<UnspentView>)
    ensures
        total_value(a + b) == total_value(a) + total_value(b),
    decreases b.len(),
{
    if b.len() > 0 {
        lemma_total_concat(a, b.drop_last());
        assert((a + b).drop_last() =~= a + b.drop_last());
    } else {
        assert(a + b =~= a);
    }
}

proof fn lemma_spent_shift(t: TransactionView, txs: Seq<TransactionView>, a: int, id: Seq<u8>, k: int)
    requires
        is_coinbase_view(t),
        0 <= a <= txs.len(),
    ensures
        spent_before(seq![t] + txs, a + 1, id, k) == spent_before(txs, a, id, k),
{
    let u = seq![t] + txs;
    if spent_before(u, a + 1, id, k) {
        let (c, j) = choose|c: int, j: int|
            0 <= c < a + 1 && 0 <= j < u[c].inputs.len() && !is_coinbase_view(u[c])
                && (#[trigger] u[c].inputs[j]).prev_tx_id == id && u[c].inputs[j].output_index == k;
        assert(c > 0);
        assert(u[c] == txs[c - 1]);
        assert(txs[c - 1].inputs[j] == u[c].inputs[j]);
    }
    if spent_before(txs, a, id, k) {
        let (c, j) = choose|c: int, j: int|
            0 <= c < a && 0 <= j < txs[c].inputs.len() && !is_coinbase_view(txs[c])
                && (#[trigger] txs[c].inputs[j]).prev_tx_id == id && txs[c].inputs[j].output_index == k;
        assert(u[c + 1] == txs[c]);
        assert(u[c + 1].inputs[j] == txs[c].inputs[j]);
    }
}

proof fn lemma_output_positions_shift(
    t: TransactionView,
    txs: Seq<TransactionView>,
    key_hash: Seq<u8>,
    a: int,
    m: int,
)
    requires
        is_coinbase_view(t),
        0 <= a < txs.len(),
        m <= txs[a].outputs.len(),
    ensures
        output_positions(seq![t] + txs, key_hash, a + 1, m).map_values(
            |p: (int, int)| unspent_at(seq![t] + txs, p),
        ) == output_positions(txs, key_hash, a, m).map_values(|p: (int, int)| unspent_at(txs, p)),
    decreases m,
{
    let u = seq![t] + txs;
    if m > 0 {
        lemma_output_positions_shift(t, txs, key_hash, a, m - 1);
        assert(u[a + 1] == txs[a]);
        lemma_spent_shift(t, txs, a, txs[a].id, m - 1);
        assert(owned_unspent(u, key_hash, a + 1, m - 1) == owned_unspent(txs, key_hash, a, m - 1));
        assert(unspent_at(u, (a + 1, m - 1)) == unspent_at(txs, (a, m - 1)));
        let x = output_positions(u, key_hash, a + 1, m - 1);
        let y = output_positions(txs, key_hash, a, m - 1);
        if owned_unspent(txs, key_hash, a, m - 1) {
            assert((x + seq![(a + 1, m - 1)]).map_values(|p: (int, int)| unspent_at(u, p)) =~= x.map_values(
                |p: (int, int)| unspent_at(u, p),
            ).push(unspent_at(u, (a + 1, m - 1))));
            assert((y + seq![(a, m - 1)]).map_values(|p: (int, int)| unspent_at(txs, p)) =~= y.map_values(
                |p: (int, int)| unspent_at(txs, p),
            ).push(unspent_at(txs, (a, m - 1))));
        } else {
            assert(x + Seq::<(int, int)>::empty() =~= x);
            assert(y + Seq::<(int, int)>::empty() =~= y);
        }
    } else {
        assert(output_positions(u, key_hash, a + 1, m).map_values(|p: (int, int)| unspent_at(u, p))
            =~= Seq::<UnspentView>::empty());
        assert(output_positions(txs, key_hash, a, m).map_values(|p: (int, int)| unspent_at(txs, p))
            =~= Seq::<UnspentView>::empty());
    }
}

proof fn lemma_unspent_positions_shift(t: TransactionView, txs: Seq<TransactionView>, key_hash: Seq<u8>, n: int)
    requires
        is_coinbase_view(t),
        0 <= n <= txs.len(),
    ensures
        unspent_positions(seq![t] + txs, key_hash, n + 1).map_values(
            |p: (int, int)| unspent_at(seq![t] + txs, p),
        ) == output_positions(seq![t] + txs, key_hash, 0, t.outputs.len() as int).map_values(
            |p: (int, int)| unspent_at(seq![t] + txs, p),
        ) + unspent_positions(txs, key_hash, n).map_values(|p: (int, int)| unspent_at(txs, p)),
    decreases n,
{
    let u = seq![t] + txs;
    let f = |p: (int, int)| unspent_at(u, p);
    let g = |p: (int, int)| unspent_at(txs, p);
    if n > 0 {
        lemma_unspent_positions_shift(t, txs, key_hash, n - 1);
        assert(u[n] == txs[n - 1]);
        lemma_output_positions_shift(t, txs, key_hash, n - 1, txs[n - 1].outputs.len() as int);
        let x = unspent_positions(u, key_hash, n);
        let xo = output_positions(u, key_hash, n, u[n].outputs.len() as int);
        let y = unspent_positions(txs, key_hash, n - 1);
        let yo = output_positions(txs, key_hash, n - 1, txs[n - 1].outputs.len() as int);
        assert((x + xo).map_values(f) =~= x.map_values(f) + xo.map_values(f));
        assert((y + yo).map_values(g) =~= y.map_values(g) + yo.map_values(g));
        let head = output_positions(u, key_hash, 0, t.outputs.len() as int).map_values(f);
        assert(head + (y.map_values(g) + yo.map_values(g)) =~= (head + y.map_values(g)) + yo.map_values(g));
    } else {
        assert(u[0] == t);
        let x0 = unspent_positions(u, key_hash, 0);
        assert(x0 =~= Seq::<(int, int)>::empty());
        let xo = output_positions(u, key_hash, 0, t.outputs.len() as int);
        assert((x0 + xo).map_values(f) =~= xo.map_values(f));
        assert(unspent_positions(txs, key_hash, 0).map_values(g) =~= Seq::<UnspentView>::empty());
        assert(xo.map_values(f) + Seq::<UnspentView>::empty() =~= xo.map_values(f));
    }
}

/// A reward transaction that pays `reward` to a key hash, put in front of a
/// walk (a new block holding it), adds exactly `reward` to that key hash's
/// unspent outputs, and takes nothing from them.
pub proof fn lemma_reward_adds_its_value(t: TransactionView, txs: Seq<TransactionView>, reward: u64, key_hash: Seq<u8>)
    requires
        is_coinbase_view(t),
        t.outputs == seq![transactions::OutputView { value: reward, lock: key_hash }],
    ensures
        total_value(unspent_outputs(seq![t] + txs, key_hash)) == reward + total_value(
            unspent_outputs(txs, key_hash),
        ),
{
    let u = seq![t] + txs;
    lemma_unspent_positions_shift(t, txs, key_hash, txs.len() as int);
    assert(u.len() == txs.len() + 1);
    assert(u[0] == t);
    assert(!spent_before(u, 0, t.id, 0));
    assert(output_positions(u, key_hash, 0, 0) =~= Seq::<(int, int)>::empty());
    assert(output_positions(u, key_hash, 0, 1) =~= seq![(0int, 0int)]);
    let head = output_positions(u, key_hash, 0, 1).map_values(|p: (int, int)| unspent_at(u, p));
    assert(head =~= seq![unspent_at(u, (0, 0))]);
    lemma_total_concat(head, unspent_outputs(txs, key_hash));
    assert(head.drop_last() =~= Seq::<UnspentView>::empty());
    assert(total_value(head.drop_last()) == 0);
    assert(head.last().value == reward);
    assert(total_value(head) == reward);
}

} // verus!
