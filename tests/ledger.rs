use blockchain::block::Block;
use blockchain::constants::{parse_u64, AddressConstants, BlockchainConstants, DatabaseConstants};
use blockchain::encoding::{push_u64_le, serialize_transactions};
use blockchain::proof_of_work::{get_target, validate};
use blockchain::transactions::{new_coinbase_transaction, new_transaction, Input, Output, Transaction};
use blockchain::utils::{create_bigint_from_bytes, create_bigint_from_hash, hash_bytes, minimal_be_bytes, U256};
use blockchain::wallet::{checksum, decode_address, hash_public_key, Wallet};
use blockchain::{BlockChain, ChainError};

fn wallet(seed: u8) -> Wallet {
    Wallet::from_secret_key(&vec![seed; 32]).unwrap()
}

fn address(w: &Wallet) -> String {
    w.get_address(0, 4)
}

fn settings(reward: u64, difficulty: usize) -> BlockchainConstants {
    BlockchainConstants {
        genesis_block_data: String::new(),
        coinbase_reward: reward,
        mining_difficulty: difficulty,
    }
}

fn u256_from(byte: u8) -> U256 {
    let mut bytes = vec![0u8; 32];
    bytes[31] = byte;
    U256 { bytes }
}

#[test]
fn target_has_single_bit() {
    for d in 0..=8usize {
        let t = get_target(d);
        let ones: u32 = t.bytes.iter().map(|b| b.count_ones()).sum();
        assert_eq!(ones, 1);
        assert_eq!(t.bytes[d / 8], 1u8 << (7 - d % 8));
    }
    assert_eq!(get_target(0).bytes[0], 0x80);
    assert_eq!(get_target(8).bytes[1], 0x80);
    assert_eq!(get_target(8).bytes[0], 0);
}

#[test]
fn target_strictly_decreasing() {
    for d in 0..8usize {
        assert!(get_target(d + 1).lt(&get_target(d)));
        assert!(!get_target(d).lt(&get_target(d + 1)));
    }
}

#[test]
fn u256_comparison() {
    let a = u256_from(1);
    let b = u256_from(2);
    assert!(a.lt(&b));
    assert!(!b.lt(&a));
    assert!(!a.lt(&a));
    assert!(a.same(&u256_from(1)));
    assert!(U256::zero().is_zero());
    assert!(!a.is_zero());
}

#[test]
fn hex_digest_parses() {
    let text = b"00000000000000000000000000000000000000000000000000000000000001fF".to_vec();
    let v = create_bigint_from_hash(&text).unwrap();
    assert_eq!(v.bytes[31], 0xff);
    assert_eq!(v.bytes[30], 0x01);
    assert!(create_bigint_from_hash(&b"abc".to_vec()).is_none());
    let mut bad = text.clone();
    bad[0] = b'g';
    assert!(create_bigint_from_hash(&bad).is_none());
}

#[test]
fn sha256_of_empty_input() {
    let h = hash_bytes(&Vec::new());
    assert_eq!(&h.bytes[0..4], &[0xe3, 0xb0, 0xc4, 0x42]);
    assert_eq!(h.bytes[31], 0x55);
}

#[test]
fn minimal_big_endian() {
    assert_eq!(minimal_be_bytes(&vec![0, 0, 1, 2]), vec![1, 2]);
    assert_eq!(minimal_be_bytes(&vec![0, 0, 0]), vec![0]);
    assert_eq!(minimal_be_bytes(&vec![5]), vec![5]);
}

#[test]
fn encoding_layout() {
    let mut out = Vec::new();
    push_u64_le(&mut out, 0x0102);
    assert_eq!(out, vec![2, 1, 0, 0, 0, 0, 0, 0]);
    assert_eq!(serialize_transactions(&Vec::new()), vec![0u8; 8]);
    let t = Transaction::new(
        vec![Input::new(u256_from(1), 3, vec![9], vec![])],
        vec![Output { value: 7, public_key_hash: vec![4, 5] }],
    );
    let bytes = serialize_transactions(&vec![t]);
    let mut expected = vec![1, 0, 0, 0, 0, 0, 0, 0];
    // zero id: sign 0, no limbs
    expected.extend([0, 0, 0, 0, 0, 0, 0, 0, 0]);
    expected.extend([1, 0, 0, 0, 0, 0, 0, 0]);
    // id 1: sign 1, one limb
    expected.extend([1, 1, 0, 0, 0, 0, 0, 0, 0, 1, 0, 0, 0]);
    expected.extend([3, 0, 0, 0, 0, 0, 0, 0]);
    expected.extend([1, 0, 0, 0, 0, 0, 0, 0, 9]);
    expected.extend([0, 0, 0, 0, 0, 0, 0, 0]);
    expected.extend([1, 0, 0, 0, 0, 0, 0, 0]);
    expected.extend([7, 0, 0, 0, 0, 0, 0, 0]);
    expected.extend([2, 0, 0, 0, 0, 0, 0, 0, 4, 5]);
    assert_eq!(bytes, expected);
}

#[test]
fn wallet_keys_and_address() {
    assert!(Wallet::from_secret_key(&vec![0u8; 32]).is_none());
    assert!(Wallet::from_secret_key(&vec![1u8; 31]).is_none());
    let w = wallet(1);
    assert_eq!(w.public_key.len(), 33);
    let a = address(&w);
    let h = hash_public_key(&w.public_key);
    assert_eq!(h.len(), 20);
    assert_eq!(decode_address(&a).unwrap(), h);
    let o = Output::new(5, &a).unwrap();
    assert!(o.is_locked_with_key(&h));
    assert!(!o.is_locked_with_key(&hash_public_key(&wallet(2).public_key)));
    assert_eq!(checksum(&vec![1, 2, 3], 4).len(), 4);
}

#[test]
fn invalid_address_is_refused() {
    assert!(Output::new(5, "0OIl").is_none());
    assert_eq!(
        new_coinbase_transaction("0OIl", String::new(), 100).unwrap_err(),
        ChainError::InvalidAddress
    );
    let mut o = Output { value: 1, public_key_hash: vec![7] };
    assert!(!o.lock("0OIl"));
    assert_eq!(o.public_key_hash, vec![7]);
}

#[test]
fn coinbase_shape_and_verification() {
    let a = address(&wallet(1));
    let t = new_coinbase_transaction(&a, String::new(), 100).unwrap();
    assert!(t.is_coinbase());
    assert_eq!(t.outputs.len(), 1);
    assert_eq!(t.outputs[0].value, 100);
    assert!(t.id.same(&t.hash()));
    assert_eq!(t.verify(&Vec::new()), Ok(true));
}

#[test]
fn mined_block_validates_and_mutations_fail() {
    let a = address(&wallet(1));
    let t = new_coinbase_transaction(&a, String::new(), 100).unwrap();
    let block = Block::new(vec![t], U256::zero(), 1_700_000_000, 4).unwrap();
    assert_eq!(validate(&block, 4), Ok(()));
    assert!(block.hash.lt(&get_target(4)));

    let mut changed = block.cloned();
    changed.nonce = changed.nonce.wrapping_add(1);
    assert_eq!(validate(&changed, 4), Err(ChainError::InvalidBlock));

    let mut changed = block.cloned();
    changed.timestamp += 1;
    assert_eq!(validate(&changed, 4), Err(ChainError::InvalidBlock));

    let mut changed = block.cloned();
    changed.prev_hash = u256_from(1);
    assert_eq!(validate(&changed, 4), Err(ChainError::InvalidBlock));

    let mut changed = block.cloned();
    changed.transactions[0].outputs[0].value = 101;
    assert_eq!(validate(&changed, 4), Err(ChainError::InvalidBlock));
}

fn two_input_payment() -> (Transaction, Vec<Transaction>, Wallet) {
    let w = wallet(1);
    let a = address(&w);
    let mut funding = Transaction::new(
        vec![Input::new(u256_from(9), 0, vec![], vec![])],
        vec![Output::new(30, &a).unwrap(), Output::new(20, &a).unwrap()],
    );
    funding.id = funding.hash();
    let t = Transaction::new(
        vec![
            Input::new(funding.id.cloned(), 0, vec![], w.public_key.clone()),
            Input::new(funding.id.cloned(), 1, vec![], w.public_key.clone()),
        ],
        vec![Output::new(50, &address(&wallet(2))).unwrap()],
    );
    (t, vec![funding], w)
}

#[test]
fn signed_transaction_verifies() {
    let (mut t, prev, w) = two_input_payment();
    assert_eq!(t.sign(&w.private_key, &prev), Ok(()));
    assert!(!t.inputs[0].signature.is_empty());
    assert_eq!(t.verify(&prev), Ok(true));
}

#[test]
fn flipped_signature_bit_fails() {
    let (mut t, prev, w) = two_input_payment();
    t.sign(&w.private_key, &prev).unwrap();
    let last = t.inputs[1].signature.len() - 1;
    t.inputs[1].signature[last] ^= 1;
    assert_eq!(t.verify(&prev), Ok(false));
}

#[test]
fn swapped_signatures_fail() {
    let (mut t, prev, w) = two_input_payment();
    t.sign(&w.private_key, &prev).unwrap();
    let first = t.inputs[0].signature.clone();
    t.inputs[0].signature = t.inputs[1].signature.clone();
    t.inputs[1].signature = first;
    assert_eq!(t.verify(&prev), Ok(false));
}

#[test]
fn missing_previous_transaction() {
    let (mut t, prev, w) = two_input_payment();
    assert_eq!(t.sign(&w.private_key, &Vec::new()), Err(ChainError::PreviousTransactionMissing));
    t.sign(&w.private_key, &prev).unwrap();
    assert_eq!(t.verify(&Vec::new()), Err(ChainError::PreviousTransactionMissing));
    let bad = vec![0xffu8; 32];
    let (mut u, prev, _) = two_input_payment();
    assert_eq!(u.sign(&bad, &prev), Err(ChainError::InvalidKey));
}

#[test]
fn trimmed_copy_clears_signatures() {
    let (mut t, prev, w) = two_input_payment();
    t.sign(&w.private_key, &prev).unwrap();
    let c = t.trimmed_copy();
    assert!(c.inputs.iter().all(|i| i.signature.is_empty() && i.public_key.is_empty()));
    assert_eq!(c.outputs[0].value, 50);
    assert!(c.id.same(&t.id));
}

#[test]
fn end_to_end_payments() {
    let a = wallet(1);
    let b = wallet(2);
    let c = wallet(3);
    let (addr_a, addr_b) = (address(&a), address(&b));
    let mut chain = BlockChain::new(&addr_a, &settings(100, 0), 1).unwrap();
    assert_eq!(chain.get_balance(&addr_a), Some(100));
    assert_eq!(chain.get_balance(&addr_b), Some(0));

    assert_eq!(chain.send(&addr_a, &addr_b, 40, &a, 2), Ok(()));
    assert_eq!(chain.blocks.len(), 2);
    assert_eq!(chain.get_balance(&addr_a), Some(60));
    assert_eq!(chain.get_balance(&addr_b), Some(40));

    assert_eq!(chain.send(&addr_a, &addr_b, 1000, &a, 3), Err(ChainError::InsufficientFunds));
    assert_eq!(chain.blocks.len(), 2);

    let forged = Wallet { private_key: c.private_key.clone(), public_key: a.public_key.clone() };
    assert_eq!(chain.send(&addr_a, &addr_b, 10, &forged, 4), Err(ChainError::InvalidSignature));
    assert_eq!(chain.blocks.len(), 2);
    assert_eq!(chain.get_balance(&addr_a), Some(60));
}

#[test]
fn spent_output_leaves_unspent_set() {
    let a = wallet(1);
    let b = wallet(2);
    let (addr_a, addr_b) = (address(&a), address(&b));
    let mut chain = BlockChain::new(&addr_a, &settings(100, 0), 1).unwrap();
    let key_a = hash_public_key(&a.public_key);
    let genesis_id = chain.blocks[0].transactions[0].id.cloned();
    let before = chain.get_unspent_outputs(&key_a);
    assert_eq!(before.len(), 1);
    assert!(before[0].transaction_id.same(&genesis_id));

    chain.send(&addr_a, &addr_b, 40, &a, 2).unwrap();
    chain.send(&addr_a, &addr_b, 10, &a, 3).unwrap();
    for _ in 0..2 {
        let after = chain.get_unspent_outputs(&key_a);
        assert!(after.iter().all(|u| !(u.transaction_id.same(&genesis_id) && u.output_index == 0)));
        let total: u64 = after.iter().map(|u| u.value).sum();
        assert_eq!(total, 50);
    }
    assert_eq!(chain.get_balance(&addr_a), Some(50));
    assert_eq!(chain.get_balance(&addr_b), Some(50));
    assert_eq!(chain.get_unspent_transactions(&key_a).len(), 1);
}

#[test]
fn find_transaction_by_id() {
    let a = wallet(1);
    let b = wallet(2);
    let (addr_a, addr_b) = (address(&a), address(&b));
    let mut chain = BlockChain::new(&addr_a, &settings(100, 0), 1).unwrap();
    chain.send(&addr_a, &addr_b, 40, &a, 2).unwrap();
    for block in &chain.blocks {
        for t in &block.transactions {
            let found = chain.find_transaction(&t.id).unwrap();
            assert!(found.id.same(&t.id));
            assert_eq!(found.outputs.len(), t.outputs.len());
        }
    }
    let mut fabricated = vec![0x5au8; 32];
    fabricated[0] = 0x12;
    assert!(chain.find_transaction(&U256 { bytes: fabricated }).is_none());
}

#[test]
fn spendable_outputs_are_greedy() {
    let a = wallet(1);
    let b = wallet(2);
    let (addr_a, addr_b) = (address(&a), address(&b));
    let mut chain = BlockChain::new(&addr_a, &settings(100, 0), 1).unwrap();
    chain.send(&addr_a, &addr_b, 40, &a, 2).unwrap();
    let key_a = hash_public_key(&a.public_key);
    let (acc, taken) = chain.get_spendable_outputs(&key_a, 10);
    assert_eq!(acc, 60);
    assert_eq!(taken.len(), 1);
    let (acc, taken) = chain.get_spendable_outputs(&key_a, 0);
    assert_eq!(acc, 0);
    assert!(taken.is_empty());
    let (acc, _) = chain.get_spendable_outputs(&key_a, 1000);
    assert_eq!(acc, 60);
}

#[test]
fn payment_has_change_output() {
    let a = wallet(1);
    let b = wallet(2);
    let (addr_a, addr_b) = (address(&a), address(&b));
    let chain = BlockChain::new(&addr_a, &settings(100, 0), 1).unwrap();
    let t = new_transaction(&addr_a, &addr_b, 40, &chain, &a).unwrap();
    assert_eq!(t.inputs.len(), 1);
    assert_eq!(t.outputs.len(), 2);
    assert_eq!(t.outputs[0].value, 40);
    assert_eq!(t.outputs[1].value, 60);
    assert!(t.id.same(&t.hash()));
    assert_eq!(chain.verify_transaction(&t), Ok(true));
    let exact = new_transaction(&addr_a, &addr_b, 100, &chain, &a).unwrap();
    assert_eq!(exact.outputs.len(), 1);
    assert_eq!(
        new_transaction(&addr_a, "0OIl", 1, &chain, &a).unwrap_err(),
        ChainError::InvalidAddress
    );
}

#[test]
fn balance_of_invalid_address() {
    let a = wallet(1);
    let chain = BlockChain::new(&address(&a), &settings(100, 0), 1).unwrap();
    assert_eq!(chain.get_balance("0OIl"), None);
}

#[test]
fn coinbase_reward_counts_for_receiver() {
    let a = wallet(1);
    let chain = BlockChain::new(&address(&a), &settings(250, 0), 1).unwrap();
    assert_eq!(chain.get_balance(&address(&a)), Some(250));
    assert!(chain.blocks[0].transactions[0].is_coinbase());
}

#[test]
fn iterator_walks_backward() {
    let a = wallet(1);
    let b = wallet(2);
    let (addr_a, addr_b) = (address(&a), address(&b));
    let mut chain = BlockChain::new(&addr_a, &settings(100, 0), 1).unwrap();
    chain.send(&addr_a, &addr_b, 40, &a, 2).unwrap();
    let mut it = chain.get_iterator();
    assert!(it.current_hash.same(&chain.apex_hash));
    let newest = it.next_block(&chain).unwrap();
    assert!(newest.hash.same(&chain.apex_hash));
    let genesis = it.next_block(&chain).unwrap();
    assert!(genesis.prev_hash.is_zero());
    assert!(newest.prev_hash.same(&genesis.hash));
    assert!(it.next_block(&chain).is_none());
}

#[test]
fn reopen_from_blocks() {
    let a = wallet(1);
    let b = wallet(2);
    let (addr_a, addr_b) = (address(&a), address(&b));
    let mut chain = BlockChain::new(&addr_a, &settings(100, 0), 1).unwrap();
    chain.send(&addr_a, &addr_b, 40, &a, 2).unwrap();
    let blocks: Vec<Block> = chain.blocks.iter().map(|b| b.cloned()).collect();
    let reopened = BlockChain::from_blocks(blocks, 0).unwrap();
    assert!(reopened.apex_hash.same(&chain.apex_hash));
    assert_eq!(reopened.get_balance(&addr_b), Some(40));
    let reversed: Vec<Block> = chain.blocks.iter().rev().map(|b| b.cloned()).collect();
    assert!(BlockChain::from_blocks(reversed, 0).is_none());
    assert!(BlockChain::from_blocks(Vec::new(), 0).is_none());
}

#[test]
fn append_rejects_unknown_reference() {
    let a = wallet(1);
    let mut chain = BlockChain::new(&address(&a), &settings(100, 0), 1).unwrap();
    let mut t = Transaction::new(
        vec![Input::new(u256_from(7), 0, vec![1], a.public_key.clone())],
        vec![Output::new(1, &address(&a)).unwrap()],
    );
    t.id = t.hash();
    assert_eq!(chain.add_block(vec![t], 2), Err(ChainError::PreviousTransactionMissing));
    assert_eq!(chain.blocks.len(), 1);
}

#[test]
fn settings_defaults_and_values() {
    let empty: Vec<(String, String)> = Vec::new();
    let db = DatabaseConstants::new(&empty);
    assert_eq!(db.blockchain_db_path, "blockchain");
    assert_eq!(db.wallets_db_path, "wallets");
    assert_eq!(db.blocks_bucket, "blocks");
    assert_eq!(db.wallets_bucket, "wallets");
    let bc = BlockchainConstants::new(&empty);
    assert_eq!(bc.coinbase_reward, 100);
    assert_eq!(bc.mining_difficulty, 0);
    assert_eq!(bc.genesis_block_data, "Idk what to put here");
    let ad = AddressConstants::new(&empty);
    assert_eq!(ad.version, 0);
    assert_eq!(ad.checksum_length, 4);

    let envs = vec![
        ("BLOCKS_BUCKET".to_string(), "b2".to_string()),
        ("COINBASE_REWARD".to_string(), "250".to_string()),
        ("MINING_DIFFICULTY".to_string(), "300".to_string()),
        ("ADDRESS_VERSION".to_string(), "7".to_string()),
        ("ADDRESS_CHECKSUM_LENGTH".to_string(), "x".to_string()),
    ];
    assert_eq!(DatabaseConstants::new(&envs).blocks_bucket, "b2");
    let bc = BlockchainConstants::new(&envs);
    assert_eq!(bc.coinbase_reward, 250);
    assert_eq!(bc.mining_difficulty, 0);
    let ad = AddressConstants::new(&envs);
    assert_eq!(ad.version, 7);
    assert_eq!(ad.checksum_length, 4);
}

#[test]
fn decimal_parsing() {
    assert_eq!(parse_u64("0"), Some(0));
    assert_eq!(parse_u64("18446744073709551615"), Some(u64::MAX));
    assert_eq!(parse_u64("18446744073709551616"), None);
    assert_eq!(parse_u64(""), None);
    assert_eq!(parse_u64("12a"), None);
}

#[test]
fn bigint_from_short_bytes() {
    let v = create_bigint_from_bytes(&vec![1, 2]);
    assert_eq!(v.bytes.len(), 32);
    assert_eq!(v.bytes[30], 1);
    assert_eq!(v.bytes[31], 2);
    assert!(v.bytes[..30].iter().all(|b| *b == 0));
}

#[test]
fn input_uses_key() {
    let w = wallet(1);
    let i = Input::new(u256_from(1), 0, vec![], w.public_key.clone());
    assert!(i.uses_key(&hash_public_key(&w.public_key)));
    assert!(!i.uses_key(&hash_public_key(&wallet(2).public_key)));
}

#[test]
fn encoding_matches_bincode() {
    let t = Transaction::new(
        vec![
            Input::new(u256_from(1), 3, vec![9], vec![]),
            Input::new(create_bigint_from_bytes(&vec![1, 0, 0, 0, 0, 2]), 0, vec![], vec![7, 7]),
        ],
        vec![Output { value: 7, public_key_hash: vec![4, 5] }],
    );
    let ours = serialize_transactions(&vec![t]);
    // A 256-bit integer as num-bigint's serde form: sign, then 32-bit limbs, low first.
    type Big = (i8, Vec<u32>);
    let id: Big = (0, vec![]);
    let inputs: Vec<(Big, u64, Vec<u8>, Vec<u8>)> = vec![
        ((1, vec![1]), 3, vec![9], vec![]),
        ((1, vec![2, 0x0100]), 0, vec![], vec![7, 7]),
    ];
    let outputs: Vec<(u64, Vec<u8>)> = vec![(7, vec![4, 5])];
    let theirs = bincode::serialize(&vec![(id, inputs, outputs)]).unwrap();
    assert_eq!(ours, theirs);
}

#[test]
fn spending_another_owners_output_is_refused() {
    let a = wallet(1);
    let b = wallet(2);
    let (addr_a, addr_b) = (address(&a), address(&b));
    let mut chain = BlockChain::new(&addr_a, &settings(100, 0), 1).unwrap();
    let genesis_id = chain.blocks[0].transactions[0].id.cloned();
    let mut t = Transaction::new(
        vec![Input::new(genesis_id, 0, vec![], b.public_key.clone())],
        vec![Output::new(100, &addr_b).unwrap()],
    );
    let prev = chain.transactions_backward();
    t.sign(&b.private_key, &prev).unwrap();
    t.id = t.hash();
    assert_eq!(t.verify(&prev), Ok(false));
    assert_eq!(chain.add_block(vec![t], 2), Err(ChainError::InvalidSignature));
    assert_eq!(chain.blocks.len(), 1);
    assert_eq!(chain.get_balance(&addr_a), Some(100));
}

#[test]
fn missing_reference_comes_before_bad_signature() {
    let (mut t, prev, w) = two_input_payment();
    t.sign(&w.private_key, &prev).unwrap();
    t.inputs[0].signature[3] ^= 1;
    t.inputs[1].transaction_id = u256_from(77);
    assert_eq!(t.verify(&prev), Err(ChainError::PreviousTransactionMissing));
}
