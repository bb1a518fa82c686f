use vstd::prelude::*;

use crate::transactions::{Input, InputView, Output, OutputView, Transaction, TransactionView};
use crate::utils::{strip_zeros, U256};

verus! {

// The fixed-width binary layout of transactions: integers little-endian in
// eight bytes, byte strings and lists preceded by their length, and 256-bit
// integers as a sign byte followed by their 32-bit limbs, least significant
// first, without high zero limbs.

/// The `n` low bytes of `x`, least significant first.
pub open spec fn le_bytes(x: nat, n: nat) -> Seq<u8>
    decreases n,
{
    if n == 0 {
        Seq::empty()
    } else {
        seq![(x % 256) as u8] + le_bytes(x / 256, (n - 1) as nat)
    }
}

pub open spec fn u64_le(x: nat) -> Seq<u8> {
    le_bytes(x, 8)
}

pub open spec fn bytes_field(b: Seq<u8>) -> Seq<u8> {
    u64_le(b.len()) + b
}

/// Number of 32-bit limbs of a big-endian integer, without high zero limbs.
pub open spec fn limb_count(s: Seq<u8>) -> nat {
    ((strip_zeros(s).len() + 3) / 4) as nat
}

pub open spec fn bigint_bytes(s: Seq<u8>) -> Seq<u8> {
    seq![if strip_zeros(s).len() == 0 { 0u8 } else { 1u8 }] + u64_le(limb_count(s)) + Seq::new(
        4 * limb_count(s),
        |i: int| s[s.len() - 1 - i],
    )
}

pub open spec fn input_bytes(i: InputView) -> Seq<u8> {
    bigint_bytes(i.prev_tx_id) + u64_le(i.output_index as nat) + bytes_field(i.signature)
        + bytes_field(i.public_key)
}

pub open spec fn output_bytes(o: OutputView) -> Seq<u8> {
    u64_le(o.value as nat) + bytes_field(o.lock)
}

pub open spec fn inputs_bytes(s: Seq<InputView>) -> Seq<u8>
    decreases s.len(),
{
    if s.len() == 0 {
        Seq::empty()
    } else {
        inputs_bytes(s.drop_last()) + input_bytes(s.last())
    }
}

pub open spec fn outputs_bytes(s: Seq<OutputView>) -> Seq<u8>
    decreases s.len(),
{
    if s.len() == 0 {
        Seq::empty()
    } else {
        outputs_bytes(s.drop_last()) + output_bytes(s.last())
    }
}

pub open spec fn transaction_bytes(t: TransactionView) -> Seq<u8> {
    bigint_bytes(t.id) + u64_le(t.inputs.len()) + inputs_bytes(t.inputs) + u64_le(t.outputs.len())
        + outputs_bytes(t.outputs)
}

pub open spec fn transactions_concat(s: Seq<TransactionView>) -> Seq<u8>
    decreases s.len(),
{
    if s.len() == 0 {
        Seq::empty()
    } else {
        transactions_concat(s.drop_last()) + transaction_bytes(s.last())
    }
}

pub open spec fn transactions_bytes(s: Seq<TransactionView>) -> Seq<u8> {
    u64_le(s.len()) + transactions_concat(s)
}

pub fn push_u64_le(out: &mut Vec<u8>, x: u64)
    ensures
        final(out)@ == old(out)@ + u64_le(x as nat),
{
    let mut v: u64 = x;
    let mut i: usize = 0;
    while i < 8
        invariant
            i <= 8,
            out@ + le_bytes(v as nat, (8 - i) as nat) == old(out)@ + u64_le(x as nat),
        decreases 8 - i,
    {
        let ghost before = out@;
        assert(le_bytes(v as nat, (8 - i) as nat) == seq![(v as nat % 256) as u8] + le_bytes(
            v as nat / 256,
            (8 - i - 1) as nat,
        ));
        out.push((v % 256) as u8);
        assert(out@ + le_bytes((v / 256) as nat, (8 - (i + 1)) as nat) =~= before + le_bytes(
            v as nat,
            (8 - i) as nat,
        ));
        v = v / 256;
        i = i + 1;
    }
    assert(le_bytes(v as nat, 0) =~= Seq::<u8>::empty());
    assert(out@ =~= out@ + le_bytes(v as nat, 0));
}

pub fn push_bytes(out: &mut Vec<u8>, b: &Vec<u8>)
    ensures
        final(out)@ == old(out)@ + b@,
{
    let mut i: usize = 0;
    while i < b.len()
        invariant
            i <= b@.len(),
            out@ == old(out)@ + b@.take(i as int),
        decreases b@.len() - i,
    {
        out.push(b[i]);
        i = i + 1;
        assert(out@ =~= old(out)@ + b@.take(i as int));
    }
    assert(b@.take(b@.len() as int) =~= b@);
}

pub fn push_bytes_field(out: &mut Vec<u8>, b: &Vec<u8>)
    ensures
        final(out)@ == old(out)@ + bytes_field(b@),
{
    push_u64_le(out, b.len() as u64);
    push_bytes(out, b);
    assert(final(out)@ =~= old(out)@ + bytes_field(b@));
}

proof fn lemma_strip_len(s: Seq<u8>, i: int)
    requires
        0 <= i <= s.len(),
        forall|j: int| 0 <= j < i ==> s[j] == 0,
        i == s.len() || s[i] != 0,
    ensures
        strip_zeros(s).len() == s.len() - i,
    decreases i,
{
    if i > 0 {
        lemma_strip_len(s.skip(1), i - 1);
    }
}

pub fn push_bigint(out: &mut Vec<u8>, n: &U256)
    requires
        n.wf(),
    ensures
        final(out)@ == old(out)@ + bigint_bytes(n@),
{
    let s = &n.bytes;
    let mut lead: usize = 0;
    while lead < 32 && s[lead] == 0
        invariant
            lead <= 32,
            s@.len() == 32,
            forall|j: int| 0 <= j < lead ==> s@[j] == 0,
        decreases 32 - lead,
    {
        lead = lead + 1;
    }
    proof {
        lemma_strip_len(s@, lead as int);
    }
    let significant: usize = 32 - lead;
    let limbs: usize = (significant + 3) / 4;
    out.push(if significant == 0 { 0u8 } else { 1u8 });
    push_u64_le(out, limbs as u64);
    let ghost head = out@;
    let mut k: usize = 0;
    while k < 4 * limbs
        invariant
            k <= 4 * limbs <= 32,
            s@.len() == 32,
            out@ == head + Seq::new(k as nat, |i: int| s@[31 - i]),
        decreases 4 * limbs - k,
    {
        out.push(s[31 - k]);
        k = k + 1;
        assert(out@ =~= head + Seq::new(k as nat, |i: int| s@[31 - i]));
    }
    assert(final(out)@ =~= old(out)@ + bigint_bytes(n@));
}

pub fn push_input(out: &mut Vec<u8>, i: &Input)
    requires
        i.transaction_id.wf(),
    ensures
        final(out)@ == old(out)@ + input_bytes(i@),
{
    push_bigint(out, &i.transaction_id);
    push_u64_le(out, i.output_index as u64);
    push_bytes_field(out, &i.signature);
    push_bytes_field(out, &i.public_key);
    assert(final(out)@ =~= old(out)@ + input_bytes(i@));
}

pub fn push_output(out: &mut Vec<u8>, o: &Output)
    ensures
        final(out)@ == old(out)@ + output_bytes(o@),
{
    push_u64_le(out, o.value);
    push_bytes_field(out, &o.public_key_hash);
    assert(final(out)@ =~= old(out)@ + output_bytes(o@));
}

/// Appends the encoding of a transaction whose id is given apart.
pub fn push_transaction(out: &mut Vec<u8>, id: &U256, inputs: &Vec<Input>, outputs: &Vec<Output>)
    requires
        id.wf(),
        forall|k: int| 0 <= k < inputs@.len() ==> (#[trigger] inputs@[k]).transaction_id.wf(),
    ensures
        final(out)@ == old(out)@ + transaction_bytes(
            TransactionView {
                id: id@,
                inputs: inputs@.map_values(|x: Input| x@),
                outputs: outputs@.map_values(|x: Output| x@),
            },
        ),
{
    let ghost ins = inputs@.map_values(|x: Input| x@);
    let ghost outs = outputs@.map_values(|x: Output| x@);
    push_bigint(out, id);
    push_u64_le(out, inputs.len() as u64);
    let ghost head = out@;
    let mut k: usize = 0;
    while k < inputs.len()
        invariant
            k <= inputs@.len(),
            ins == inputs@.map_values(|x: Input| x@),
            forall|j: int| 0 <= j < inputs@.len() ==> (#[trigger] inputs@[j]).transaction_id.wf(),
            out@ == head + inputs_bytes(ins.take(k as int)),
        decreases inputs@.len() - k,
    {
        push_input(out, &inputs[k]);
        assert(ins.take(k + 1).drop_last() =~= ins.take(k as int));
        k = k + 1;
        assert(out@ =~= head + inputs_bytes(ins.take(k as int)));
    }
    assert(ins.take(ins.len() as int) =~= ins);
    push_u64_le(out, outputs.len() as u64);
    let ghost mid = out@;
    let mut k: usize = 0;
    while k < outputs.len()
        invariant
            k <= outputs@.len(),
            outs == outputs@.map_values(|x: Output| x@),
            out@ == mid + outputs_bytes(outs.take(k as int)),
        decreases outputs@.len() - k,
    {
        push_output(out, &outputs[k]);
        assert(outs.take(k + 1).drop_last() =~= outs.take(k as int));
        k = k + 1;
        assert(out@ =~= mid + outputs_bytes(outs.take(k as int)));
    }
    assert(outs.take(outs.len() as int) =~= outs);
    assert(final(out)@ =~= old(out)@ + transaction_bytes(
        TransactionView { id: id@, inputs: ins, outputs: outs },
    ));
}

/// Encoding of a list of transactions.
pub fn serialize_transactions(txs: &Vec<Transaction>) -> (r: Vec<u8>)
    requires
        forall|k: int| 0 <= k < txs@.len() ==> (#[trigger] txs@[k]).wf(),
    ensures
        r@ == transactions_bytes(txs@.map_values(|t: Transaction| t@)),
{
    let ghost views = txs@.map_values(|t: Transaction| t@);
    let mut out: Vec<u8> = Vec::new();
    push_u64_le(&mut out, txs.len() as u64);
    let ghost head = out@;
    let mut k: usize = 0;
    while k < txs.len()
        invariant
            k <= txs@.len(),
            views == txs@.map_values(|t: Transaction| t@),
            forall|j: int| 0 <= j < txs@.len() ==> (#[trigger] txs@[j]).wf(),
            out@ == head + transactions_concat(views.take(k as int)),
        decreases txs@.len() - k,
    {
        let t = &txs[k];
        push_transaction(&mut out, &t.id, &t.inputs, &t.outputs);
        assert(views.take(k + 1).drop_last() =~= views.take(k as int));
        k = k + 1;
        assert(out@ =~= head + transactions_concat(views.take(k as int)));
    }
    assert(views.take(views.len() as int) =~= views);
    assert(out@ =~= transactions_bytes(views));
    out
}

} // verus!
