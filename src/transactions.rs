use vstd::prelude::*;

use crate::encoding::{push_transaction, transaction_bytes};
use crate::utils::{bytes_equal, copy_bytes, digest_value, hash_bytes, minimal_be, minimal_be_bytes, U256};
use crate::wallet::{
    address_key_hash, decode_address, ecdsa_sign, ecdsa_signature, ecdsa_verify, is_secret_key,
    public_key_of, signature_valid,
};
use crate::wallet::{hash_public_key, key_hash, Wallet};
use crate::{selected, total_value, unspent_outputs, BlockChain, ChainError, UnspentOutput, UnspentView};

verus! {

pub ghost struct OutputView {
    pub value: u64,
    pub lock: Seq<u8>,
}

pub ghost struct InputView {
    pub prev_tx_id: Seq<u8>,
    pub output_index: usize,
    pub signature: Seq<u8>,
    pub public_key: Seq<u8>,
}

pub ghost struct TransactionView {
    pub id: Seq<u8>,
    pub inputs: Seq<InputView>,
    pub outputs: Seq<OutputView>,
}

/// A value paid to whoever holds the key whose hash is `public_key_hash`.
#[derive(Debug)]
pub struct Output {
    pub value: u64,
    pub public_key_hash: Vec<u8>,
}

impl View for Output {
    type V = OutputView;

    open spec fn view(&self) -> OutputView {
        OutputView { value: self.value, lock: self.public_key_hash@ }
    }
}

/// A reference to output `output_index` of transaction `transaction_id`, with
/// the proof that the spender may use it.
#[derive(Debug)]
pub struct Input {
    pub transaction_id: U256,
    pub output_index: usize,
    pub signature: Vec<u8>,
    pub public_key: Vec<u8>,
}

impl View for Input {
    type V = InputView;

    open spec fn view(&self) -> InputView {
        InputView {
            prev_tx_id: self.transaction_id@,
            output_index: self.output_index,
            signature: self.signature@,
            public_key: self.public_key@,
        }
    }
}

#[derive(Debug)]
pub struct Transaction {
    pub id: U256,
    pub inputs: Vec<Input>,
    pub outputs: Vec<Output>,
}

impl View for Transaction {
    type V = TransactionView;

    open spec fn view(&self) -> TransactionView {
        TransactionView {
            id: self.id@,
            inputs: self.inputs@.map_values(|i: Input| i@),
            outputs: self.outputs@.map_values(|o: Output| o@),
        }
    }
}

pub open spec fn zero_id() -> Seq<u8> {
    Seq::new(32, |i: int| 0u8)
}

/// The distinguished shape of a reward transaction: one input that refers to
/// output 0 of transaction 0.
pub open spec fn is_coinbase_view(t: TransactionView) -> bool {
    &&& t.inputs.len() == 1
    &&& t.inputs[0].prev_tx_id == zero_id()
    &&& t.inputs[0].output_index == 0
}

/// Hash of the transaction's encoding, with its id held at zero.
pub open spec fn content_hash(t: TransactionView) -> Seq<u8> {
    digest_value(transaction_bytes(TransactionView { id: zero_id(), ..t }))
}

impl Output {
    pub fn cloned(&self) -> (r: Output)
        ensures
            r@ == self@,
    {
        Output { value: self.value, public_key_hash: copy_bytes(&self.public_key_hash) }
    }

    /// Whether the output is locked to `public_key_hash`.
    pub fn is_locked_with_key(&self, public_key_hash: &Vec<u8>) -> (r: bool)
        ensures
            r == (self.public_key_hash@ == public_key_hash@),
    {
        bytes_equal(&self.public_key_hash, public_key_hash)
    }
}

impl Input {
    pub fn new(
        transaction_id: U256,
        output_index: usize,
        signature: Vec<u8>,
        public_key: Vec<u8>,
    ) -> (r: Input)
        ensures
            r@ == (InputView {
                prev_tx_id: transaction_id@,
                output_index,
                signature: signature@,
                public_key: public_key@,
            }),
    {
        Input { transaction_id, output_index, signature, public_key }
    }

    /// Whether the input's unlock key hashes to `public_key_hash`.
    pub fn uses_key(&self, public_key_hash: &Vec<u8>) -> (r: bool)
        ensures
            r == (key_hash(self.public_key@) == public_key_hash@),
    {
        let h = hash_public_key(&self.public_key);
        bytes_equal(&h, public_key_hash)
    }

    pub fn cloned(&self) -> (r: Input)
        ensures
            r@ == self@,
            r.transaction_id.wf() == self.transaction_id.wf(),
    {
        Input {
            transaction_id: self.transaction_id.cloned(),
            output_index: self.output_index,
            signature: copy_bytes(&self.signature),
            public_key: copy_bytes(&self.public_key),
        }
    }
}

impl Transaction {
    pub open spec fn wf(&self) -> bool {
        &&& self.id.wf()
        &&& forall|k: int|
            0 <= k < self.inputs@.len() ==> (#[trigger] self.inputs@[k]).transaction_id.wf()
    }

    /// A transaction with the given inputs and outputs and a zero id.
    pub fn new(inputs: Vec<Input>, outputs: Vec<Output>) -> (r: Transaction)
        ensures
            r@ == (TransactionView {
                id: zero_id(),
                inputs: inputs@.map_values(|i: Input| i@),
                outputs: outputs@.map_values(|o: Output| o@),
            }),
            r.id.wf(),
            r.inputs@ == inputs@,
    {
        Transaction { id: U256::zero(), inputs, outputs }
    }

    pub fn is_coinbase(&self) -> (r: bool)
        ensures
            r == is_coinbase_view(self@),
    {
        if self.inputs.len() != 1 {
            return false;
        }
        let zero = U256::zero();
        let r = self.inputs[0].transaction_id.same(&zero) && self.inputs[0].output_index == 0;
        assert(self@.inputs[0] == self.inputs@[0]@);
        r
    }

    /// The content hash: SHA-256 of the encoding with the id held at zero.
    pub fn hash(&self) -> (r: U256)
        requires
            self.wf(),
        ensures
            r.wf(),
            r@ == content_hash(self@),
    {
        let zero = U256::zero();
        let mut bytes: Vec<u8> = Vec::new();
        push_transaction(&mut bytes, &zero, &self.inputs, &self.outputs);
        assert(bytes@ =~= transaction_bytes(TransactionView { id: zero_id(), ..self@ }));
        hash_bytes(&bytes)
    }
}

/// The copy with every signature and unlock key cleared.
pub open spec fn trimmed_view(t: TransactionView) -> TransactionView {
    TransactionView {
        inputs: t.inputs.map_values(
            |i: InputView| InputView { signature: Seq::empty(), public_key: Seq::empty(), ..i },
        ),
        ..t
    }
}

/// The trimmed copy in which input `k` carries, as its key, the lock of the
/// output it spends: what input `k` signs.
pub open spec fn signing_view(t: TransactionView, k: int, lock: Seq<u8>) -> TransactionView {
    let trimmed = trimmed_view(t);
    TransactionView {
        inputs: trimmed.inputs.update(k, InputView { public_key: lock, ..trimmed.inputs[k] }),
        ..trimmed
    }
}

/// The bytes that input `k` signs: the shortest big-endian form of the
/// content hash of its signing view.
pub open spec fn signing_payload(t: TransactionView, k: int, lock: Seq<u8>) -> Seq<u8> {
    minimal_be(content_hash(signing_view(t, k, lock)))
}

/// The first of the transactions with the given id.
pub open spec fn lookup(prev: Seq<TransactionView>, id: Seq<u8>) -> Option<TransactionView>
    decreases prev.len(),
{
    if prev.len() == 0 {
        None
    } else if prev[0].id == id {
        Some(prev[0])
    } else {
        lookup(prev.skip(1), id)
    }
}

/// The lock of the output that an input spends, if it is among `prev`.
pub open spec fn referenced_lock(prev: Seq<TransactionView>, i: InputView) -> Option<Seq<u8>> {
    match lookup(prev, i.prev_tx_id) {
        Some(p) => if i.output_index < p.outputs.len() {
            Some(p.outputs[i.output_index as int].lock)
        } else {
            None
        },
        None => None,
    }
}

/// Whether input `k` may spend the output whose lock is `lock`: its unlock key
/// hashes to the lock, and its signature checks under that key.
pub open spec fn input_unlocks(t: TransactionView, k: int, lock: Seq<u8>) -> bool {
    &&& key_hash(t.inputs[k].public_key) == lock
    &&& signature_valid(signing_payload(t, k, lock), t.inputs[k].signature, t.inputs[k].public_key)
}

/// Whether inputs `k..` all unlock the outputs they spend.
pub open spec fn signatures_check(t: TransactionView, prev: Seq<TransactionView>, k: int) -> bool
    decreases t.inputs.len() - k,
{
    if k < 0 || k >= t.inputs.len() {
        true
    } else {
        input_unlocks(t, k, referenced_lock(prev, t.inputs[k])->Some_0) && signatures_check(
            t,
            prev,
            k + 1,
        )
    }
}

/// Outcome of checking a transaction against the transactions it spends from:
/// a reward transaction has nothing to check; otherwise a reference that is
/// not among them is an error, before any signature is looked at.
pub open spec fn verify_result(t: TransactionView, prev: Seq<TransactionView>) -> Result<
    bool,
    ChainError,
> {
    if is_coinbase_view(t) {
        Ok(true)
    } else if !all_referenced(t, prev) {
        Err(ChainError::PreviousTransactionMissing)
    } else {
        Ok(signatures_check(t, prev, 0))
    }
}

pub open spec fn all_referenced(t: TransactionView, prev: Seq<TransactionView>) -> bool {
    forall|k: int| 0 <= k < t.inputs.len() ==> (#[trigger] referenced_lock(prev, t.inputs[k])) is Some
}

/// `after` is `before` with input `k` signed by `secret` for each `k`.
pub open spec fn signed_with(
    before: TransactionView,
    after: TransactionView,
    secret: Seq<u8>,
    prev: Seq<TransactionView>,
) -> bool {
    &&& after.id == before.id
    &&& after.outputs == before.outputs
    &&& after.inputs.len() == before.inputs.len()
    &&& all_referenced(before, prev)
    &&& forall|k: int|
        0 <= k < before.inputs.len() ==> #[trigger] after.inputs[k] == InputView {
            signature: ecdsa_signature(
                secret,
                signing_payload(before, k, referenced_lock(prev, before.inputs[k])->Some_0),
            ),
            ..before.inputs[k]
        }
    &&& forall|k: int|
        0 <= k < before.inputs.len() ==> signature_valid(
            signing_payload(before, k, referenced_lock(prev, before.inputs[k])->Some_0),
            #[trigger] after.inputs[k].signature,
            public_key_of(secret),
        )
}

pub open spec fn views_of(s: Seq<Transaction>) -> Seq<TransactionView> {
    s.map_values(|t: Transaction| t@)
}

/// The lock of the output that `input` spends, looked up among `prev`.
fn find_lock(prev: &Vec<Transaction>, input: &Input) -> (r: Option<Vec<u8>>)
    ensures
        r matches Some(l) ==> referenced_lock(views_of(prev@), input@) == Some(l@),
        r is None ==> referenced_lock(views_of(prev@), input@) is None,
{
    let ghost views = views_of(prev@);
    assert(views.skip(0) =~= views);
    let mut k: usize = 0;
    while k < prev.len()
        invariant
            k <= prev@.len(),
            views == views_of(prev@),
            lookup(views, input@.prev_tx_id) == lookup(views.skip(k as int), input@.prev_tx_id),
        decreases prev@.len() - k,
    {
        assert(views.skip(k as int).skip(1) =~= views.skip(k + 1));
        if prev[k].id.same(&input.transaction_id) {
            let p = &prev[k];
            if input.output_index < p.outputs.len() {
                return Some(copy_bytes(&p.outputs[input.output_index].public_key_hash));
            } else {
                return None;
            }
        }
        k = k + 1;
    }
    None
}

impl Output {
    /// An output of `value` locked to the key hash that `address` carries;
    /// `None` when the address does not carry one.
    pub fn new(value: u64, address: &str) -> (r: Option<Output>)
        ensures
            r is Some <==> address_key_hash(address@) is Some,
            r matches Some(o) ==> o@ == (OutputView {
                value,
                lock: address_key_hash(address@)->Some_0,
            }),
    {
        let mut output = Output { value, public_key_hash: Vec::new() };
        if output.lock(address) {
            Some(output)
        } else {
            None
        }
    }

    /// Locks the output to the key hash that `address` carries; leaves it as
    /// it was and answers false when the address does not carry one.
    pub fn lock(&mut self, address: &str) -> (r: bool)
        ensures
            r == address_key_hash(address@) is Some,
            r ==> final(self)@ == (OutputView {
                value: old(self).value,
                lock: address_key_hash(address@)->Some_0,
            }),
            !r ==> final(self)@ == old(self)@,
    {
        match decode_address(address) {
            Some(h) => {
                self.public_key_hash = h;
                true
            },
            None => false,
        }
    }
}

impl Transaction {
    pub fn cloned(&self) -> (r: Transaction)
        ensures
            r@ == self@,
            self.wf() ==> r.wf(),
    {
        let mut inputs: Vec<Input> = Vec::new();
        let mut k: usize = 0;
        while k < self.inputs.len()
            invariant
                k <= self.inputs@.len(),
                inputs@.len() == k,
                forall|j: int| 0 <= j < k ==> (#[trigger] inputs@[j])@ == self.inputs@[j]@
                    && inputs@[j].transaction_id.wf() == self.inputs@[j].transaction_id.wf(),
            decreases self.inputs@.len() - k,
        {
            inputs.push(self.inputs[k].cloned());
            k = k + 1;
        }
        let mut outputs: Vec<Output> = Vec::new();
        let mut k: usize = 0;
        while k < self.outputs.len()
            invariant
                k <= self.outputs@.len(),
                outputs@.len() == k,
                forall|j: int| 0 <= j < k ==> (#[trigger] outputs@[j])@ == self.outputs@[j]@,
            decreases self.outputs@.len() - k,
        {
            outputs.push(self.outputs[k].cloned());
            k = k + 1;
        }
        let r = Transaction { id: self.id.cloned(), inputs, outputs };
        assert(self.wf() ==> r.wf()) by {
            if self.wf() {
                assert forall|j: int| 0 <= j < r.inputs@.len() implies (#[trigger] r.inputs@[j]).transaction_id.wf() by {
                    assert(self.inputs@[j].transaction_id.wf());
                }
            }
        }
        assert(r@.inputs =~= self@.inputs);
        assert(r@.outputs =~= self@.outputs);
        r
    }

    /// The same transaction with every signature and unlock key cleared.
    pub fn trimmed_copy(&self) -> (r: Transaction)
        ensures
            r@ == trimmed_view(self@),
            self.wf() ==> r.wf(),
    {
        let mut inputs: Vec<Input> = Vec::new();
        let mut k: usize = 0;
        while k < self.inputs.len()
            invariant
                k <= self.inputs@.len(),
                inputs@.len() == k,
                forall|j: int| 0 <= j < k ==> (#[trigger] inputs@[j])@ == trimmed_view(self@).inputs[j]
                    && inputs@[j].transaction_id.wf() == self.inputs@[j].transaction_id.wf(),
            decreases self.inputs@.len() - k,
        {
            let input = &self.inputs[k];
            inputs.push(Input {
                transaction_id: input.transaction_id.cloned(),
                output_index: input.output_index,
                signature: Vec::new(),
                public_key: Vec::new(),
            });
            assert(inputs@[k as int]@ =~= trimmed_view(self@).inputs[k as int]);
            k = k + 1;
        }
        let mut outputs: Vec<Output> = Vec::new();
        let mut k: usize = 0;
        while k < self.outputs.len()
            invariant
                k <= self.outputs@.len(),
                outputs@.len() == k,
                forall|j: int| 0 <= j < k ==> (#[trigger] outputs@[j])@ == self.outputs@[j]@,
            decreases self.outputs@.len() - k,
        {
            outputs.push(self.outputs[k].cloned());
            k = k + 1;
        }
        let r = Transaction { id: self.id.cloned(), inputs, outputs };
        assert(self.wf() ==> r.wf()) by {
            if self.wf() {
                assert forall|j: int| 0 <= j < r.inputs@.len() implies (#[trigger] r.inputs@[j]).transaction_id.wf() by {
                    assert(self.inputs@[j].transaction_id.wf());
                }
            }
        }
        assert(r@.inputs =~= trimmed_view(self@).inputs);
        assert(r@.outputs =~= self@.outputs);
        r
    }

    /// The bytes that input `k` signs, given the lock of the output it spends.
    fn signing_bytes(&self, k: usize, lock: &Vec<u8>) -> (r: Vec<u8>)
        requires
            self.wf(),
            k < self.inputs@.len(),
        ensures
            r@ == signing_payload(self@, k as int, lock@),
    {
        let ghost target = signing_view(self@, k as int, lock@);
        let mut copy = self.trimmed_copy();
        let mut inputs: Vec<Input> = Vec::new();
        let mut j: usize = 0;
        while j < self.inputs.len()
            invariant
                j <= self.inputs@.len(),
                k < self.inputs@.len(),
                self.wf(),
                target == signing_view(self@, k as int, lock@),
                inputs@.len() == j,
                forall|m: int| 0 <= m < j ==> (#[trigger] inputs@[m])@ == target.inputs[m]
                    && inputs@[m].transaction_id.wf(),
            decreases self.inputs@.len() - j,
        {
            let input = &self.inputs[j];
            let key = if j == k { copy_bytes(lock) } else { Vec::new() };
            inputs.push(Input {
                transaction_id: input.transaction_id.cloned(),
                output_index: input.output_index,
                signature: Vec::new(),
                public_key: key,
            });
            assert(inputs@[j as int]@ =~= target.inputs[j as int]);
            j = j + 1;
        }
        copy.inputs = inputs;
        assert(copy@.inputs =~= target.inputs);
        assert(copy@.outputs =~= target.outputs);
        let digest = copy.hash();
        assert(TransactionView { id: zero_id(), ..copy@ } == TransactionView { id: zero_id(), ..target });
        minimal_be_bytes(&digest.bytes)
    }

    /// Signs every input with `private_key`, each against the lock of the
    /// output it spends, looked up among `prev_transactions`. A reward
    /// transaction is left as it is. On an error nothing changes.
    pub fn sign(&mut self, private_key: &Vec<u8>, prev_transactions: &Vec<Transaction>) -> (r: Result<
        (),
        ChainError,
    >)
        requires
            old(self).wf(),
        ensures
            final(self).wf(),
            is_coinbase_view(old(self)@) ==> r is Ok && final(self)@ == old(self)@,
            !is_coinbase_view(old(self)@) ==> {
                &&& (r == Err::<(), ChainError>(ChainError::PreviousTransactionMissing)
                    <==> !all_referenced(old(self)@, views_of(prev_transactions@)))
                &&& (r == Err::<(), ChainError>(ChainError::InvalidKey) <==> (all_referenced(
                    old(self)@,
                    views_of(prev_transactions@),
                ) && old(self)@.inputs.len() > 0 && !is_secret_key(private_key@)))
            },
            r is Err ==> final(self)@ == old(self)@,
            r is Err ==> r == Err::<(), ChainError>(ChainError::PreviousTransactionMissing) || r == Err::<
                (),
                ChainError,
            >(ChainError::InvalidKey),
            r is Ok && !is_coinbase_view(old(self)@) ==> signed_with(
                old(self)@,
                final(self)@,
                private_key@,
                views_of(prev_transactions@),
            ),
    {
        if self.is_coinbase() {
            return Ok(());
        }
        let ghost before = self@;
        let ghost prev = views_of(prev_transactions@);
        let mut locks: Vec<Vec<u8>> = Vec::new();
        let mut k: usize = 0;
        while k < self.inputs.len()
            invariant
                k <= self.inputs@.len(),
                before == self@,
                before == old(self)@,
                !is_coinbase_view(before),
                self.wf(),
                prev == views_of(prev_transactions@),
                locks@.len() == k,
                forall|j: int| 0 <= j < k ==> referenced_lock(prev, before.inputs[j]) == Some(
                    (#[trigger] locks@[j])@,
                ),
            decreases self.inputs@.len() - k,
        {
            match find_lock(prev_transactions, &self.inputs[k]) {
                Some(l) => locks.push(l),
                None => {
                    assert(!all_referenced(before, prev) ) by {
                        assert(referenced_lock(prev, before.inputs[k as int]) is None);
                    }
                    return Err(ChainError::PreviousTransactionMissing);
                },
            }
            k = k + 1;
        }
        assert(all_referenced(before, prev)) by {
            assert forall|j: int| 0 <= j < before.inputs.len() implies (#[trigger] referenced_lock(prev, before.inputs[j])) is Some by {
                assert(referenced_lock(prev, before.inputs[j]) == Some(locks@[j]@));
            }
        }
        let mut inputs: Vec<Input> = Vec::new();
        let mut k: usize = 0;
        while k < self.inputs.len()
            invariant
                k <= self.inputs@.len(),
                before == self@,
                before == old(self)@,
                !is_coinbase_view(before),
                all_referenced(before, prev),
                self.wf(),
                prev == views_of(prev_transactions@),
                locks@.len() == self.inputs@.len(),
                forall|j: int| 0 <= j < locks@.len() ==> referenced_lock(prev, before.inputs[j]) == Some(
                    (#[trigger] locks@[j])@,
                ),
                inputs@.len() == k,
                k > 0 ==> is_secret_key(private_key@),
                forall|j: int| 0 <= j < k ==> {
                    &&& (#[trigger] inputs@[j])@ == InputView {
                        signature: ecdsa_signature(
                            private_key@,
                            signing_payload(before, j, locks@[j]@),
                        ),
                        ..before.inputs[j]
                    }
                    &&& signature_valid(
                        signing_payload(before, j, locks@[j]@),
                        inputs@[j]@.signature,
                        public_key_of(private_key@),
                    )
                    &&& inputs@[j].transaction_id.wf()
                },
            decreases self.inputs@.len() - k,
        {
            let payload = self.signing_bytes(k, &locks[k]);
            match ecdsa_sign(private_key, &payload) {
                Some(signature) => {
                    let input = &self.inputs[k];
                    inputs.push(Input {
                        transaction_id: input.transaction_id.cloned(),
                        output_index: input.output_index,
                        signature,
                        public_key: copy_bytes(&input.public_key),
                    });
                    assert(inputs@[k as int]@ =~= InputView {
                        signature: ecdsa_signature(
                            private_key@,
                            signing_payload(before, k as int, locks@[k as int]@),
                        ),
                        ..before.inputs[k as int]
                    });
                },
                None => {
                    return Err(ChainError::InvalidKey);
                },
            }
            k = k + 1;
        }
        self.inputs = inputs;
        assert(self@.outputs == before.outputs);
        Ok(())
    }

    /// Checks the transaction against `prev_transactions`: an error when an
    /// output it spends is not among them; otherwise `Ok(false)` unless every
    /// input's unlock key hashes to the lock of the output it spends and its
    /// signature checks under that key. A reward transaction checks trivially.
    pub fn verify(&self, prev_transactions: &Vec<Transaction>) -> (r: Result<bool, ChainError>)
        requires
            self.wf(),
        ensures
            r == verify_result(self@, views_of(prev_transactions@)),
    {
        if self.is_coinbase() {
            return Ok(true);
        }
        let ghost prev = views_of(prev_transactions@);
        let mut locks: Vec<Vec<u8>> = Vec::new();
        let mut k: usize = 0;
        while k < self.inputs.len()
            invariant
                k <= self.inputs@.len(),
                prev == views_of(prev_transactions@),
                !is_coinbase_view(self@),
                locks@.len() == k,
                forall|j: int| 0 <= j < k ==> referenced_lock(prev, self@.inputs[j]) == Some(
                    (#[trigger] locks@[j])@,
                ),
            decreases self.inputs@.len() - k,
        {
            assert(self@.inputs[k as int] == self.inputs@[k as int]@);
            match find_lock(prev_transactions, &self.inputs[k]) {
                Some(l) => locks.push(l),
                None => {
                    assert(referenced_lock(prev, self@.inputs[k as int]) is None);
                    assert(!all_referenced(self@, prev));
                    return Err(ChainError::PreviousTransactionMissing);
                },
            }
            k = k + 1;
        }
        assert(all_referenced(self@, prev)) by {
            assert forall|j: int| 0 <= j < self@.inputs.len() implies (#[trigger] referenced_lock(prev, self@.inputs[j])) is Some by {
                assert(referenced_lock(prev, self@.inputs[j]) == Some(locks@[j]@));
            }
        }
        let mut k: usize = self.inputs.len();
        let mut ok = true;
        while k > 0
            invariant
                k <= self.inputs@.len(),
                self.wf(),
                prev == views_of(prev_transactions@),
                locks@.len() == self.inputs@.len(),
                forall|j: int| 0 <= j < locks@.len() ==> referenced_lock(prev, self@.inputs[j]) == Some(
                    (#[trigger] locks@[j])@,
                ),
                ok == signatures_check(self@, prev, k as int),
                !is_coinbase_view(self@),
                all_referenced(self@, prev),
            decreases k,
        {
            k = k - 1;
            let input = &self.inputs[k];
            assert(self@.inputs[k as int] == input@);
            let lock = &locks[k];
            assert(referenced_lock(prev, self@.inputs[k as int])->Some_0 == lock@);
            let owner = hash_public_key(&input.public_key);
            let unlocks = bytes_equal(&owner, lock) && ecdsa_verify(
                &self.signing_bytes(k, lock),
                &input.signature,
                &input.public_key,
            );
            ok = unlocks && ok;
        }
        Ok(ok)
    }
}

/// The reward transaction paying `reward` to `lock`, with its content hash as id.
pub open spec fn reward_transaction(lock: Seq<u8>, reward: u64) -> TransactionView {
    let t = TransactionView {
        id: zero_id(),
        inputs: seq![
            InputView {
                prev_tx_id: zero_id(),
                output_index: 0,
                signature: Seq::empty(),
                public_key: Seq::empty(),
            },
        ],
        outputs: seq![OutputView { value: reward, lock }],
    };
    TransactionView { id: content_hash(t), ..t }
}

/// A reward transaction: one input referring to output 0 of transaction 0,
/// one output of `reward` locked to `receiver`, and its content hash as id.
/// The memo is not recorded in the transaction.
pub fn new_coinbase_transaction(receiver: &str, data: String, reward: u64) -> (r: Result<
    Transaction,
    ChainError,
>)
    ensures
        r is Err <==> address_key_hash(receiver@) is None,
        r is Err ==> r == Err::<Transaction, ChainError>(ChainError::InvalidAddress),
        r matches Ok(t) ==> {
            &&& t.wf()
            &&& is_coinbase_view(t@)
            &&& t@.inputs == seq![InputView {
                prev_tx_id: zero_id(),
                output_index: 0,
                signature: Seq::empty(),
                public_key: Seq::empty(),
            }]
            &&& t@.outputs == seq![OutputView { value: reward, lock: address_key_hash(receiver@)->Some_0 }]
            &&& t@.id == content_hash(t@)
            &&& t@ == reward_transaction(address_key_hash(receiver@)->Some_0, reward)
        },
{
    let output = match Output::new(reward, receiver) {
        Some(o) => o,
        None => {
            return Err(ChainError::InvalidAddress);
        },
    };
    let mut inputs: Vec<Input> = Vec::new();
    inputs.push(Input {
        transaction_id: U256::zero(),
        output_index: 0,
        signature: Vec::new(),
        public_key: Vec::new(),
    });
    let mut outputs: Vec<Output> = Vec::new();
    outputs.push(output);
    let mut transaction = Transaction::new(inputs, outputs);
    let id = transaction.hash();
    let ghost before = transaction@;
    transaction.id = id;
    assert(transaction@.inputs =~= seq![InputView {
        prev_tx_id: zero_id(),
        output_index: 0,
        signature: Seq::empty(),
        public_key: Seq::empty(),
    }]);
    assert(transaction@.outputs =~= seq![OutputView { value: reward, lock: address_key_hash(receiver@)->Some_0 }]);
    assert(TransactionView { id: zero_id(), ..transaction@ } == TransactionView { id: zero_id(), ..before });
    Ok(transaction)
}

/// Outputs of a payment: `amount` to the receiver, then the change, if any,
/// back to the sender.
pub open spec fn payment_outputs(amount: u64, accumulated: nat, receiver: Seq<u8>, sender: Seq<u8>) -> Seq<
    OutputView,
> {
    if accumulated > amount {
        seq![
            OutputView { value: amount, lock: receiver },
            OutputView { value: (accumulated - amount) as u64, lock: sender },
        ]
    } else {
        seq![OutputView { value: amount, lock: receiver }]
    }
}

/// A payment before signing: one input per selected output, each carrying
/// the payer's public key, and a zero id.
pub open spec fn unsigned_payment(
    selection: Seq<UnspentView>,
    public_key: Seq<u8>,
    outputs: Seq<OutputView>,
) -> TransactionView {
    TransactionView {
        id: zero_id(),
        inputs: selection.map_values(
            |u: UnspentView|
                InputView {
                    prev_tx_id: u.transaction_id,
                    output_index: u.output_index as usize,
                    signature: Seq::empty(),
                    public_key,
                },
        ),
        outputs,
    }
}

/// The unsigned payment that takes the first `n` outputs of `s`.
pub open spec fn pending_payment(
    s: Seq<UnspentView>,
    n: int,
    public_key: Seq<u8>,
    amount: u64,
    receiver: Seq<u8>,
    sender: Seq<u8>,
) -> TransactionView {
    unsigned_payment(s.take(n), public_key, payment_outputs(amount, total_value(s.take(n)), receiver, sender))
}

/// The unspent outputs locked to the wallet's key.
pub open spec fn wallet_unspent(block_chain: &BlockChain, wallet: &Wallet) -> Seq<UnspentView> {
    unspent_outputs(block_chain.transactions_view(), key_hash(wallet.public_key@))
}

/// The unsigned payment from `sender` to `receiver` that takes the first `n`
/// unspent outputs of the wallet.
pub open spec fn payment_of(
    sender: Seq<char>,
    receiver: Seq<char>,
    amount: u64,
    block_chain: &BlockChain,
    wallet: &Wallet,
    n: int,
) -> TransactionView {
    pending_payment(
        wallet_unspent(block_chain, wallet),
        n,
        wallet.public_key@,
        amount,
        address_key_hash(receiver)->Some_0,
        address_key_hash(sender)->Some_0,
    )
}

/// `before` with each input signed by `secret` against the lock of the
/// output it spends; a reward transaction is left as it is.
pub open spec fn signed_view(before: TransactionView, secret: Seq<u8>, prev: Seq<TransactionView>) -> TransactionView {
    if is_coinbase_view(before) {
        before
    } else {
        TransactionView {
            inputs: Seq::new(
                before.inputs.len(),
                |k: int|
                    InputView {
                        signature: ecdsa_signature(
                            secret,
                            signing_payload(before, k, referenced_lock(prev, before.inputs[k])->Some_0),
                        ),
                        ..before.inputs[k]
                    },
            ),
            ..before
        }
    }
}

/// The transaction with its content hash as id.
pub open spec fn with_content_id(t: TransactionView) -> TransactionView {
    TransactionView { id: content_hash(t), ..t }
}

/// How many of the wallet's unspent outputs a payment of `amount` takes.
pub open spec fn payment_count(block_chain: &BlockChain, wallet: &Wallet, amount: u64) -> int {
    choose|n: int| selected(wallet_unspent(block_chain, wallet), amount, n)
}

/// The payment from `sender` to `receiver` before signing.
pub open spec fn unsigned_payment_for(
    sender: Seq<char>,
    receiver: Seq<char>,
    amount: u64,
    block_chain: &BlockChain,
    wallet: &Wallet,
) -> TransactionView {
    payment_of(sender, receiver, amount, block_chain, wallet, payment_count(block_chain, wallet, amount))
}

/// The payment from `sender` to `receiver` as `new_transaction` builds it:
/// signed with the wallet's key, then given its content hash as id.
pub open spec fn payment_view(
    sender: Seq<char>,
    receiver: Seq<char>,
    amount: u64,
    block_chain: &BlockChain,
    wallet: &Wallet,
) -> TransactionView {
    with_content_id(
        signed_view(
            unsigned_payment_for(sender, receiver, amount, block_chain, wallet),
            wallet.private_key@,
            block_chain.transactions_view(),
        ),
    )
}

/// Every output that the payment spends is found in the chain and locked to
/// the wallet's key hash.
pub open spec fn payment_owned(
    sender: Seq<char>,
    receiver: Seq<char>,
    amount: u64,
    block_chain: &BlockChain,
    wallet: &Wallet,
) -> bool {
    let u = unsigned_payment_for(sender, receiver, amount, block_chain, wallet);
    forall|k: int|
        0 <= k < u.inputs.len() ==> referenced_lock(block_chain.transactions_view(), #[trigger] u.inputs[k])
            == Some(key_hash(wallet.public_key@))
}

/// At most one count is a greedy selection.
pub proof fn lemma_selected_unique(s: Seq<UnspentView>, amount: u64, n1: int, n2: int)
    requires
        selected(s, amount, n1),
        selected(s, amount, n2),
    ensures
        n1 == n2,
{
    if n1 < n2 {
        assert(total_value(s.take(n1)) < amount);
    } else if n2 < n1 {
        assert(total_value(s.take(n2)) < amount);
    }
}

proof fn lemma_signatures_ignore_id(t: TransactionView, id: Seq<u8>, prev: Seq<TransactionView>, k: int)
    ensures
        signatures_check(TransactionView { id, ..t }, prev, k) == signatures_check(t, prev, k),
    decreases t.inputs.len() - k,
{
    let u = TransactionView { id, ..t };
    if 0 <= k < t.inputs.len() {
        lemma_signatures_ignore_id(t, id, prev, k + 1);
        let lock = referenced_lock(prev, t.inputs[k])->Some_0;
        assert(TransactionView { id: zero_id(), ..signing_view(u, k, lock) } == TransactionView {
            id: zero_id(),
            ..signing_view(t, k, lock)
        });
        assert(signing_payload(u, k, lock) == signing_payload(t, k, lock));
    }
}

/// What a transaction's check gives does not depend on its id.
pub proof fn lemma_verify_ignores_id(t: TransactionView, id: Seq<u8>, prev: Seq<TransactionView>)
    ensures
        verify_result(TransactionView { id, ..t }, prev) == verify_result(t, prev),
{
    lemma_signatures_ignore_id(t, id, prev, 0);
    let u = TransactionView { id, ..t };
    assert(all_referenced(u, prev) == all_referenced(t, prev));
}

/// Unsigned inputs that spend the given outputs with `public_key`.
fn payment_inputs(taken: &Vec<UnspentOutput>, public_key: &Vec<u8>) -> (r: Vec<Input>)
    requires
        forall|m: int| 0 <= m < taken@.len() ==> (#[trigger] taken@[m]).transaction_id.wf(),
    ensures
        r@.map_values(|x: Input| x@) == unsigned_payment(
            taken@.map_values(|u: UnspentOutput| u@),
            public_key@,
            Seq::empty(),
        ).inputs,
        forall|m: int| 0 <= m < r@.len() ==> (#[trigger] r@[m]).transaction_id.wf(),
{
    let ghost want = unsigned_payment(taken@.map_values(|u: UnspentOutput| u@), public_key@, Seq::empty()).inputs;
    let mut inputs: Vec<Input> = Vec::new();
    let mut k: usize = 0;
    while k < taken.len()
        invariant
            k <= taken@.len(),
            want == unsigned_payment(taken@.map_values(|u: UnspentOutput| u@), public_key@, Seq::empty()).inputs,
            forall|m: int| 0 <= m < taken@.len() ==> (#[trigger] taken@[m]).transaction_id.wf(),
            inputs@.len() == k,
            forall|m: int| 0 <= m < k ==> (#[trigger] inputs@[m])@ == want[m] && inputs@[m].transaction_id.wf(),
        decreases taken@.len() - k,
    {
        let u = &taken[k];
        inputs.push(Input {
            transaction_id: u.transaction_id.cloned(),
            output_index: u.output_index,
            signature: Vec::new(),
            public_key: copy_bytes(public_key),
        });
        assert(inputs@[k as int]@ =~= want[k as int]);
        k = k + 1;
    }
    assert(inputs@.map_values(|x: Input| x@) =~= want);
    inputs
}

/// The payment of `amount` from `sender` to `receiver`: the wallet's unspent
/// outputs taken in the order of a backward walk until they cover the amount,
/// an output to the receiver and, when they exceed it, one of change to the
/// sender; signed with the wallet's key, then given its content hash as id.
#[verifier::rlimit(40)]
pub fn new_transaction(
    sender: &str,
    receiver: &str,
    amount: u64,
    block_chain: &BlockChain,
    wallet: &Wallet,
) -> (r: Result<Transaction, ChainError>)
    requires
        block_chain.wf(),
    ensures
        (address_key_hash(sender@) is None || address_key_hash(receiver@) is None) <==> r
            == Err::<Transaction, ChainError>(ChainError::InvalidAddress),
        address_key_hash(sender@) is Some && address_key_hash(receiver@) is Some ==> (r
            == Err::<Transaction, ChainError>(ChainError::InsufficientFunds) <==> total_value(
            wallet_unspent(block_chain, wallet),
        ) < amount),
        r matches Ok(t) ==> t.wf() && t@ == payment_view(sender@, receiver@, amount, block_chain, wallet),
        r matches Ok(t) ==> ({
            let s = wallet_unspent(block_chain, wallet);
            let n = payment_count(block_chain, wallet, amount);
            &&& selected(s, amount, n)
            &&& total_value(s.take(n)) >= amount
            &&& t@.outputs == payment_outputs(
                amount,
                total_value(s.take(n)),
                address_key_hash(receiver@)->Some_0,
                address_key_hash(sender@)->Some_0,
            )
            &&& t@.inputs.len() == n
            &&& forall|k: int| 0 <= k < n ==> {
                &&& (#[trigger] t@.inputs[k]).prev_tx_id == s[k].transaction_id
                &&& t@.inputs[k].output_index == s[k].output_index as usize
                &&& t@.inputs[k].public_key == wallet.public_key@
            }
        }),
        r matches Ok(t) ==> (wallet.wf() && payment_owned(sender@, receiver@, amount, block_chain, wallet)
            ==> verify_result(t@, block_chain.transactions_view()) == Ok::<bool, ChainError>(true)),
        address_key_hash(sender@) is Some && address_key_hash(receiver@) is Some && total_value(
            wallet_unspent(block_chain, wallet),
        ) >= amount && wallet.wf() && all_referenced(
            unsigned_payment_for(sender@, receiver@, amount, block_chain, wallet),
            block_chain.transactions_view(),
        ) ==> r is Ok,
{
    let receiver_hash = match decode_address(receiver) {
        Some(h) => h,
        None => {
            return Err(ChainError::InvalidAddress);
        },
    };
    let sender_hash = match decode_address(sender) {
        Some(h) => h,
        None => {
            return Err(ChainError::InvalidAddress);
        },
    };
    let ghost s = unspent_outputs(block_chain.transactions_view(), key_hash(wallet.public_key@));
    let key = hash_public_key(&wallet.public_key);
    let (accumulated, taken) = block_chain.get_spendable_outputs(&key, amount);
    let ghost n = taken@.len() as int;
    proof {
        crate::lemma_total_prefix(s, n);
    }
    assert(selected(s, amount, n));
    proof {
        let m = payment_count(block_chain, wallet, amount);
        assert(selected(wallet_unspent(block_chain, wallet), amount, m));
        lemma_selected_unique(s, amount, n, m);
    }
    if accumulated < amount as u128 {
        assert(s.take(n) =~= s);
        return Err(ChainError::InsufficientFunds);
    }
    proof {
        if n > 0 {
            assert(s.take(n).drop_last() =~= s.take(n - 1));
            assert(total_value(s.take(n - 1)) < amount);
        } else {
            assert(s.take(0) =~= Seq::<UnspentView>::empty());
        }
    }
    let ghost outs = payment_outputs(amount, accumulated as nat, receiver_hash@, sender_hash@);
    let ghost unsigned = unsigned_payment(s.take(n), wallet.public_key@, outs);
    assert(unsigned == pending_payment(s, n, wallet.public_key@, amount, receiver_hash@, sender_hash@));
    let inputs = payment_inputs(&taken, &wallet.public_key);
    assert(inputs@.map_values(|x: Input| x@) =~= unsigned.inputs);
    let mut outputs: Vec<Output> = Vec::new();
    outputs.push(Output { value: amount, public_key_hash: receiver_hash });
    if accumulated > amount as u128 {
        outputs.push(Output { value: (accumulated - amount as u128) as u64, public_key_hash: sender_hash });
    }
    let mut transaction = Transaction::new(inputs, outputs);
    assert(transaction@.outputs =~= unsigned.outputs);
    assert(transaction@ == unsigned);
    let prev = block_chain.transactions_backward();
    let ghost chain_view = block_chain.transactions_view();
    let ghost pending = pending_payment(s, n, wallet.public_key@, amount, receiver_hash@, sender_hash@);
    let ghost before_sign = transaction@;
    assert(before_sign == pending);
    assert(views_of(prev@) == chain_view);
    match transaction.sign(&wallet.private_key, &prev) {
        Ok(()) => {},
        Err(e) => {
            proof {
                assert(unsigned_payment_for(sender@, receiver@, amount, block_chain, wallet) == pending);
            }
            return Err(e);
        },
    }
    let ghost signed = transaction@;
    let ghost secret = wallet.private_key@;
    proof {
        assert(unsigned_payment_for(sender@, receiver@, amount, block_chain, wallet) == pending);
        if !is_coinbase_view(pending) {
            assert(signed.inputs =~= signed_view(pending, secret, chain_view).inputs);
        }
        assert(signed == signed_view(pending, secret, chain_view));
        assert forall|k: int| 0 <= k < n implies {
            &&& (#[trigger] signed.inputs[k]).prev_tx_id == s[k].transaction_id
            &&& signed.inputs[k].output_index == s[k].output_index as usize
            &&& signed.inputs[k].public_key == wallet.public_key@
        } by {
            assert(pending.inputs[k].prev_tx_id == s.take(n)[k].transaction_id);
        }
    }
    let id = transaction.hash();
    transaction.id = id;
    assert(transaction@ == with_content_id(signed));
    proof {
        lemma_verify_ignores_id(signed, transaction@.id, chain_view);
        assert(transaction@ == TransactionView { id: transaction@.id, ..signed });
        if wallet.wf() && payment_owned(sender@, receiver@, amount, block_chain, wallet) && !is_coinbase_view(pending) {
            assert forall|k: int| 0 <= k < pending.inputs.len() implies (#[trigger] pending.inputs[k]).public_key
                == public_key_of(secret) by {}
            assert forall|k: int| 0 <= k < pending.inputs.len() implies referenced_lock(chain_view, #[trigger] pending.inputs[k])
                == Some(key_hash(public_key_of(secret))) by {}
            lemma_signed_transaction_verifies(pending, signed, secret, chain_view);
        }
    }
    Ok(transaction)
}

/// A transaction that `sign` signed with a secret key, whose inputs carry
/// that key's public key and spend outputs locked to its hash, checks against
/// the same previous transactions.
pub proof fn lemma_signed_transaction_verifies(
    before: TransactionView,
    after: TransactionView,
    secret: Seq<u8>,
    prev: Seq<TransactionView>,
)
    requires
        !is_coinbase_view(before),
        signed_with(before, after, secret, prev),
        forall|k: int| 0 <= k < before.inputs.len() ==> (#[trigger] before.inputs[k]).public_key
            == public_key_of(secret),
        forall|k: int| 0 <= k < before.inputs.len() ==> referenced_lock(prev, #[trigger] before.inputs[k])
            == Some(key_hash(public_key_of(secret))),
    ensures
        verify_result(after, prev) == Ok::<bool, ChainError>(true),
{
    assert(trimmed_view(after) == trimmed_view(before)) by {
        assert(trimmed_view(after).inputs =~= trimmed_view(before).inputs) by {
            assert forall|k: int| 0 <= k < before.inputs.len() implies trimmed_view(after).inputs[k]
                == trimmed_view(before).inputs[k] by {
                assert(after.inputs[k] == InputView {
                    signature: ecdsa_signature(
                        secret,
                        signing_payload(before, k, referenced_lock(prev, before.inputs[k])->Some_0),
                    ),
                    ..before.inputs[k]
                });
            }
        }
    }
    assert(!is_coinbase_view(after)) by {
        if after.inputs.len() == 1 {
            assert(after.inputs[0].prev_tx_id == before.inputs[0].prev_tx_id);
        }
    }
    assert(all_referenced(after, prev)) by {
        assert forall|k: int| 0 <= k < after.inputs.len() implies (#[trigger] referenced_lock(prev, after.inputs[k])) is Some by {
            assert(after.inputs[k].prev_tx_id == before.inputs[k].prev_tx_id);
            assert(after.inputs[k].output_index == before.inputs[k].output_index);
            assert(referenced_lock(prev, before.inputs[k]) is Some);
        }
    }
    lemma_signed_inputs_verify(before, after, secret, prev, 0);
}

proof fn lemma_signed_inputs_verify(
    before: TransactionView,
    after: TransactionView,
    secret: Seq<u8>,
    prev: Seq<TransactionView>,
    k: int,
)
    requires
        0 <= k,
        signed_with(before, after, secret, prev),
        trimmed_view(after) == trimmed_view(before),
        forall|j: int| 0 <= j < before.inputs.len() ==> (#[trigger] before.inputs[j]).public_key
            == public_key_of(secret),
        forall|j: int| 0 <= j < before.inputs.len() ==> referenced_lock(prev, #[trigger] before.inputs[j])
            == Some(key_hash(public_key_of(secret))),
    ensures
        signatures_check(after, prev, k),
    decreases after.inputs.len() - k,
{
    if k < after.inputs.len() {
        lemma_signed_inputs_verify(before, after, secret, prev, k + 1);
        let lock = referenced_lock(prev, before.inputs[k])->Some_0;
        assert(after.inputs[k].prev_tx_id == before.inputs[k].prev_tx_id);
        assert(after.inputs[k].output_index == before.inputs[k].output_index);
        assert(referenced_lock(prev, after.inputs[k]) == referenced_lock(prev, before.inputs[k]));
        assert(referenced_lock(prev, before.inputs[k]) is Some);
        assert(signing_view(after, k, lock) == signing_view(before, k, lock));
        assert(after.inputs[k].public_key == before.inputs[k].public_key);
        assert(signature_valid(
            signing_payload(before, k, lock),
            after.inputs[k].signature,
            public_key_of(secret),
        ));
        assert(input_unlocks(after, k, lock));
    }
}

} // verus!
