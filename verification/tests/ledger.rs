use parity_scale_codec::Encode;
use sp_core::Pair;
use sp_runtime::traits::BlakeTwo256;
use utxo_runtime::types::{Event, Transaction, TransactionInput, TransactionOutput, UtxoError};
use utxo_runtime::utxo::{BlockAuthor, Issuance, Module, Trait};

fn blake_of<T: Encode>(x: &T) -> [u8; 32] {
    <BlakeTwo256 as sp_runtime::traits::Hash>::hash_of(x).0
}

fn keypair(seed: u8) -> sp_core::sr25519::Pair {
    sp_core::sr25519::Pair::from_seed(&[seed; 32])
}

fn public(seed: u8) -> [u8; 32] {
    keypair(seed).public().0
}

fn utxo_key(o: &TransactionOutput) -> [u8; 32] {
    blake_of(&(o.value, o.pubkey))
}

fn tuple_form(tx: &Transaction) -> (Vec<([u8; 32], [u8; 64])>, Vec<(u128, [u8; 32])>) {
    (
        tx.inputs.iter().map(|i| (i.outpoint, i.sigscript)).collect(),
        tx.outputs.iter().map(|o| (o.value, o.pubkey)).collect(),
    )
}

fn output_key(tx: &Transaction, index: u64) -> [u8; 32] {
    blake_of(&(tuple_form(tx).encode(), index))
}

/// Signs every input of `tx` with the key of seed `seeds[i]`.
fn sign(mut tx: Transaction, seeds: &[u8]) -> Transaction {
    let msg = Module::get_simple_transaction(&tx);
    for (input, seed) in tx.inputs.iter_mut().zip(seeds.iter()) {
        input.sigscript = keypair(*seed).sign(&msg).0;
    }
    tx
}

fn genesis(outputs: &[TransactionOutput]) -> Module {
    Module::new(&outputs.to_vec())
}

fn out(value: u128, seed: u8) -> TransactionOutput {
    TransactionOutput { value, pubkey: public(seed) }
}

fn input(outpoint: [u8; 32]) -> TransactionInput {
    TransactionInput { outpoint, sigscript: [0u8; 64] }
}

#[test]
fn genesis_outputs_are_keyed_by_their_hash() {
    let a = out(100, 1);
    let b = out(7, 2);
    let m = genesis(&[a, b]);
    assert_eq!(m.utxo(&utxo_key(&a)), Some(a));
    assert_eq!(m.utxo(&utxo_key(&b)), Some(b));
    assert_eq!(m.utxo(&[9u8; 32]), None);
    assert_eq!(m.reward_total(), 0);
}

#[test]
fn simple_transaction_zeroes_signatures() {
    let a = out(100, 1);
    let tx = Transaction {
        inputs: vec![TransactionInput { outpoint: utxo_key(&a), sigscript: [7u8; 64] }],
        outputs: vec![out(60, 2)],
    };
    let stripped = Transaction { inputs: vec![input(utxo_key(&a))], outputs: tx.outputs.clone() };
    assert_eq!(Module::get_simple_transaction(&tx), tuple_form(&stripped).encode());
}

#[test]
fn encoding_matches_scale() {
    let tx = Transaction {
        inputs: vec![TransactionInput { outpoint: [3u8; 32], sigscript: [4u8; 64] }; 70],
        outputs: vec![out(u128::MAX, 5), out(1, 6)],
    };
    assert_eq!(utxo_runtime::encoding::encode_transaction(&tx), tuple_form(&tx).encode());
    let o = out(0x0102030405060708090a0b0c0d0e0f10, 9);
    assert_eq!(utxo_runtime::encoding::encode_output(&o), (o.value, o.pubkey).encode());
    assert_eq!(
        utxo_runtime::encoding::encode_reward_key_preimage(&o, 77),
        ((o.value, o.pubkey), 77u64).encode()
    );
    for len in [0usize, 1, 63, 64, 16383, 16384, 70000] {
        let bytes = vec![0xabu8; len];
        assert_eq!(
            utxo_runtime::encoding::encode_output_key_preimage(&bytes, 3),
            (bytes.clone(), 3u64).encode()
        );
    }
}

#[test]
fn spend_moves_value_and_collects_fee() {
    let a = out(100, 1);
    let m0 = genesis(&[a]);
    let mut m = genesis(&[a]);
    let tx = sign(
        Transaction { inputs: vec![input(utxo_key(&a))], outputs: vec![out(60, 2), out(30, 3)] },
        &[1],
    );
    let v = m0.validate_transaction(&tx).unwrap();
    assert!(v.requires.is_empty());
    assert_eq!(v.priority, 10);
    assert_eq!(v.longevity, u64::MAX);
    assert!(v.propagate);
    assert_eq!(v.provides, vec![output_key(&tx, 0).to_vec(), output_key(&tx, 1).to_vec()]);

    assert_eq!(m.spend(tx.clone()), Ok(Event::TransactionSuccess(tx.clone())));
    assert_eq!(m.reward_total(), 10);
    assert_eq!(m.utxo(&utxo_key(&a)), None);
    assert_eq!(m.utxo(&output_key(&tx, 0)), Some(out(60, 2)));
    assert_eq!(m.utxo(&output_key(&tx, 1)), Some(out(30, 3)));
    // Value is conserved: 60 + 30 in outputs, 10 in the reward.
    assert_eq!(60 + 30 + m.reward_total(), 100);
}

#[test]
fn spend_leaves_other_utxos_alone() {
    let a = out(100, 1);
    let b = out(40, 2);
    let mut m = genesis(&[a, b]);
    let tx = sign(Transaction { inputs: vec![input(utxo_key(&a))], outputs: vec![out(100, 3)] }, &[1]);
    assert!(m.spend(tx.clone()).is_ok());
    assert_eq!(m.utxo(&utxo_key(&b)), Some(b));
    assert_eq!(m.utxo(&utxo_key(&a)), None);
    assert_eq!(m.utxo(&output_key(&tx, 0)), Some(out(100, 3)));
}

#[test]
fn spent_transaction_cannot_be_replayed() {
    let a = out(100, 1);
    let mut m = genesis(&[a]);
    let tx = sign(Transaction { inputs: vec![input(utxo_key(&a))], outputs: vec![out(100, 2)] }, &[1]);
    assert!(m.spend(tx.clone()).is_ok());
    assert_eq!(m.spend(tx.clone()), Err(UtxoError::OutputAlreadyExists));
    assert_eq!(m.reward_total(), 0);
    assert_eq!(m.utxo(&output_key(&tx, 0)), Some(out(100, 2)));
}

#[test]
fn chained_spend_of_new_output() {
    let a = out(100, 1);
    let mut m = genesis(&[a]);
    let tx1 = sign(Transaction { inputs: vec![input(utxo_key(&a))], outputs: vec![out(100, 2)] }, &[1]);
    assert!(m.spend(tx1.clone()).is_ok());
    let tx2 = sign(
        Transaction { inputs: vec![input(output_key(&tx1, 0))], outputs: vec![out(95, 3)] },
        &[2],
    );
    assert_eq!(m.spend(tx2.clone()), Ok(Event::TransactionSuccess(tx2.clone())));
    assert_eq!(m.reward_total(), 5);
    assert_eq!(m.utxo(&output_key(&tx2, 0)), Some(out(95, 3)));
}

#[test]
fn empty_inputs_or_outputs_are_refused() {
    let a = out(100, 1);
    let m = genesis(&[a]);
    let no_inputs = Transaction { inputs: vec![], outputs: vec![out(1, 2)] };
    assert_eq!(m.validate_transaction(&no_inputs), Err(UtxoError::NoInputs));
    let no_outputs = Transaction { inputs: vec![input(utxo_key(&a))], outputs: vec![] };
    assert_eq!(m.validate_transaction(&no_outputs), Err(UtxoError::NoOutputs));
    assert_eq!(UtxoError::NoInputs.message(), "no inputs");
    assert_eq!(UtxoError::NoOutputs.message(), "no outputs");
}

#[test]
fn duplicates_are_refused() {
    let a = out(100, 1);
    let m = genesis(&[a]);
    let dup_in = Transaction {
        inputs: vec![input(utxo_key(&a)), input(utxo_key(&a))],
        outputs: vec![out(1, 2)],
    };
    assert_eq!(m.validate_transaction(&dup_in), Err(UtxoError::DuplicateInput));
    let dup_out = Transaction { inputs: vec![input(utxo_key(&a))], outputs: vec![out(1, 2), out(1, 2)] };
    assert_eq!(m.validate_transaction(&dup_out), Err(UtxoError::DuplicateOutput));
    assert_eq!(UtxoError::DuplicateInput.message(), "each input must only be used once");
    assert_eq!(UtxoError::DuplicateOutput.message(), "each output must be defined only once");
}

#[test]
fn bad_signature_is_refused() {
    let a = out(100, 1);
    let mut m = genesis(&[a]);
    // Signed by the wrong key.
    let tx = sign(Transaction { inputs: vec![input(utxo_key(&a))], outputs: vec![out(50, 2)] }, &[2]);
    assert_eq!(m.validate_transaction(&tx), Err(UtxoError::InvalidSignature));
    assert_eq!(m.spend(tx), Err(UtxoError::InvalidSignature));
    assert_eq!(m.utxo(&utxo_key(&a)), Some(a));
    // A signature over a different transaction does not carry over.
    let good = sign(Transaction { inputs: vec![input(utxo_key(&a))], outputs: vec![out(50, 2)] }, &[1]);
    let mut tampered = good.clone();
    tampered.outputs[0].value = 99;
    assert_eq!(m.validate_transaction(&tampered), Err(UtxoError::InvalidSignature));
    assert_eq!(UtxoError::InvalidSignature.message(), "signature must be valid");
}

#[test]
fn zero_valued_output_is_refused() {
    let a = out(100, 1);
    let m = genesis(&[a]);
    let tx = sign(Transaction { inputs: vec![input(utxo_key(&a))], outputs: vec![out(0, 2)] }, &[1]);
    assert_eq!(m.validate_transaction(&tx), Err(UtxoError::ZeroOutputValue));
    assert_eq!(UtxoError::ZeroOutputValue.message(), "output value must be nonzero");
}

#[test]
fn overspending_is_refused() {
    let a = out(100, 1);
    let mut m = genesis(&[a]);
    let tx = sign(Transaction { inputs: vec![input(utxo_key(&a))], outputs: vec![out(101, 2)] }, &[1]);
    assert_eq!(m.validate_transaction(&tx), Err(UtxoError::OutputExceedsInput));
    assert_eq!(m.spend(tx), Err(UtxoError::OutputExceedsInput));
    assert_eq!(m.reward_total(), 0);
    assert_eq!(UtxoError::OutputExceedsInput.message(), "output value must not exceed input value");
}

#[test]
fn value_overflows_are_refused() {
    let a = out(u128::MAX, 1);
    let b = out(u128::MAX, 2);
    let m = genesis(&[a, b]);
    let tx = sign(
        Transaction { inputs: vec![input(utxo_key(&a)), input(utxo_key(&b))], outputs: vec![out(1, 3)] },
        &[1, 2],
    );
    assert_eq!(m.validate_transaction(&tx), Err(UtxoError::InputValueOverflow));
    let tx = sign(
        Transaction { inputs: vec![input(utxo_key(&a))], outputs: vec![out(u128::MAX, 3), out(1, 4)] },
        &[1],
    );
    assert_eq!(m.validate_transaction(&tx), Err(UtxoError::OutputValueOverflow));
    assert_eq!(UtxoError::InputValueOverflow.message(), "input value overflow");
    assert_eq!(UtxoError::OutputValueOverflow.message(), "output value overflow");
}

#[test]
fn colliding_output_is_refused() {
    let a = out(100, 1);
    let b = out(5, 2);
    let tx = sign(Transaction { inputs: vec![input(utxo_key(&a))], outputs: vec![out(100, 3)] }, &[1]);
    let mut m2 = genesis(&[a, b]);
    assert!(m2.spend(tx.clone()).is_ok());
    assert_eq!(m2.validate_transaction(&tx), Err(UtxoError::OutputAlreadyExists));
    assert_eq!(UtxoError::OutputAlreadyExists.message(), "output already exists");
}

#[test]
fn missing_inputs_are_reported_not_refused() {
    let a = out(100, 1);
    let mut m = genesis(&[a]);
    let unknown = [42u8; 32];
    let tx = sign(
        Transaction { inputs: vec![input(utxo_key(&a)), input(unknown)], outputs: vec![out(500, 2)] },
        &[1, 1],
    );
    let v = m.validate_transaction(&tx).unwrap();
    assert_eq!(v.requires, vec![unknown.to_vec()]);
    assert_eq!(v.priority, 0);
    assert_eq!(v.provides, vec![output_key(&tx, 0).to_vec()]);
    assert_eq!(m.get_missing_utxos(&tx), vec![unknown]);
    assert_eq!(m.spend(tx), Err(UtxoError::MissingInputs));
    assert_eq!(m.utxo(&utxo_key(&a)), Some(a));
    assert_eq!(UtxoError::MissingInputs.message(), "missing inputs");
}

#[test]
fn priority_is_fee_truncated_to_64_bits() {
    let a = out((1u128 << 64) + 10, 1);
    let mut m = genesis(&[a]);
    let tx = sign(Transaction { inputs: vec![input(utxo_key(&a))], outputs: vec![out(3, 2)] }, &[1]);
    assert_eq!(m.validate_transaction(&tx).unwrap().priority, 7);
    assert!(m.spend(tx).is_ok());
    assert_eq!(m.reward_total(), 7);
}

struct Alice;
struct NoAuthor;
struct SevenPerBlock;
struct HugeIssuance;

impl BlockAuthor for Alice {
    fn block_author() -> Option<[u8; 32]> {
        Some(public(9))
    }
}

impl BlockAuthor for NoAuthor {
    fn block_author() -> Option<[u8; 32]> {
        None
    }
}

impl Issuance for SevenPerBlock {
    fn issuance(_block_number: u64) -> u128 {
        7
    }
}

impl Issuance for HugeIssuance {
    fn issuance(_block_number: u64) -> u128 {
        u128::MAX
    }
}

struct Rewarded;
impl Trait for Rewarded {
    type BlockAuthor = Alice;
    type Issuance = SevenPerBlock;
}

struct Wasted;
impl Trait for Wasted {
    type BlockAuthor = NoAuthor;
    type Issuance = SevenPerBlock;
}

struct Overflowing;
impl Trait for Overflowing {
    type BlockAuthor = Alice;
    type Issuance = HugeIssuance;
}

fn module_with_fee(fee: u128) -> Module {
    let a = out(100 + fee, 1);
    let mut m = genesis(&[a]);
    let tx = sign(Transaction { inputs: vec![input(utxo_key(&a))], outputs: vec![out(100, 2)] }, &[1]);
    assert!(m.spend(tx).is_ok());
    assert_eq!(m.reward_total(), fee);
    m
}

#[test]
fn block_author_receives_fees_and_issuance() {
    let mut m = module_with_fee(10);
    let reward = out(17, 9);
    let key = blake_of(&((reward.value, reward.pubkey), 5u64));
    assert_eq!(m.on_finalize::<Rewarded>(5), Ok(Event::RewardsIssued(17, key)));
    assert_eq!(m.reward_total(), 0);
    assert_eq!(m.utxo(&key), Some(reward));
}

#[test]
fn rewards_are_wasted_without_author() {
    let mut m = module_with_fee(10);
    assert_eq!(m.on_finalize::<Wasted>(5), Ok(Event::RewardsWasted));
    assert_eq!(m.reward_total(), 10);
}

#[test]
fn reward_overflow_is_refused() {
    let mut m = module_with_fee(10);
    assert_eq!(m.on_finalize::<Overflowing>(5), Err(UtxoError::RewardOverflow));
    assert_eq!(m.reward_total(), 10);
    assert_eq!(m.reward_block(&public(9), u128::MAX, 5), Err(UtxoError::RewardOverflow));
    assert_eq!(UtxoError::RewardOverflow.message(), "Reward overflow");
}

#[test]
fn disperse_reward_creates_reward_utxo() {
    let mut m = module_with_fee(3);
    let author = public(4);
    let ev = m.disperse_reward(&author, 2, 11);
    let reward = TransactionOutput { value: 5, pubkey: author };
    let key = blake_of(&((reward.value, reward.pubkey), 11u64));
    assert_eq!(ev, Event::RewardsIssued(5, key));
    assert_eq!(m.utxo(&key), Some(reward));
    assert_eq!(m.reward_total(), 0);
}

#[test]
fn default_input_is_zeroed() {
    let d = TransactionInput::default();
    assert_eq!(d.outpoint, [0u8; 32]);
    assert_eq!(d.sigscript, [0u8; 64]);
}

#[test]
fn ordinary_transactions_are_encodable() {
    let tx = Transaction { inputs: vec![input([1u8; 32]); 3], outputs: vec![out(5, 1); 2] };
    assert!(utxo_runtime::encoding::is_encodable(&tx));
    assert!(utxo_runtime::encoding::is_encodable(&Transaction::default()));
}

#[test]
fn finalize_block_follows_the_claim() {
    let mut m = module_with_fee(10);
    assert_eq!(m.finalize_block(None, 3), Ok(Event::RewardsWasted));
    assert_eq!(m.reward_total(), 10);
    assert_eq!(m.finalize_block(Some((public(9), u128::MAX)), 3), Err(UtxoError::RewardOverflow));
    assert_eq!(m.reward_total(), 10);
    let reward = out(12, 9);
    let key = blake_of(&((reward.value, reward.pubkey), 3u64));
    assert_eq!(m.finalize_block(Some((public(9), 2)), 3), Ok(Event::RewardsIssued(12, key)));
    assert_eq!(m.reward_total(), 0);
    assert_eq!(m.utxo(&key), Some(reward));
}

#[test]
fn repeated_outpoint_with_different_signatures_is_refused() {
    let a = out(100, 1);
    let mut m = genesis(&[a]);
    let unsigned = Transaction {
        inputs: vec![input(utxo_key(&a)), input(utxo_key(&a))],
        outputs: vec![out(200, 2)],
    };
    let msg = Module::get_simple_transaction(&unsigned);
    let mut tx = unsigned.clone();
    tx.inputs[0].sigscript = keypair(1).sign(&msg).0;
    tx.inputs[1].sigscript = keypair(1).sign(&msg).0;
    assert_ne!(tx.inputs[0].sigscript, tx.inputs[1].sigscript);
    assert_eq!(m.validate_transaction(&tx), Err(UtxoError::DuplicateInput));
    assert_eq!(m.spend(tx), Err(UtxoError::DuplicateInput));
    assert_eq!(m.utxo(&utxo_key(&a)), Some(a));
}

#[test]
fn ordinary_transactions_are_within_codec_limits() {
    let a = out(100, 1);
    let m = genesis(&[a]);
    let tx = sign(Transaction { inputs: vec![input(utxo_key(&a))], outputs: vec![out(60, 2)] }, &[1]);
    assert!(m.check_codec_limits(&tx));
    assert!(m.check_codec_limits(&Transaction::default()));
}

struct IssueBlockNumber;
impl Issuance for IssueBlockNumber {
    fn issuance(block_number: u64) -> u128 {
        block_number as u128
    }
}

struct RewardedByHeight;
impl Trait for RewardedByHeight {
    type BlockAuthor = Alice;
    type Issuance = IssueBlockNumber;
}

#[test]
fn issuance_is_asked_for_this_block() {
    let mut m = module_with_fee(10);
    let reward = out(10 + 42, 9);
    let key = blake_of(&((reward.value, reward.pubkey), 42u64));
    assert_eq!(m.on_finalize::<RewardedByHeight>(42), Ok(Event::RewardsIssued(52, key)));
    assert_eq!(m.utxo(&key), Some(reward));
    assert_eq!(m.reward_total(), 0);
}
