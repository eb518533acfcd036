use vstd::prelude::*;
use crate::types::{
    Value, H256, Public, TransactionInput, TransactionOutput, Transaction, UtxoError, Event,
    ValidTransaction,
};
use crate::encoding::{
    transaction_encoding, simple_encoding, strip_input, encodable, output_key_preimage,
    output_encoding, reward_key_preimage, encode_transaction, encode_lists,
    encode_output, encode_output_key_preimage, encode_reward_key_preimage, lemma_encodable_bounds, is_encodable,
};
use crate::crypto::{blake2_256, sr25519_valid, hash_blake2_256, verify_sr25519};
use crate::store::{UtxoStore, same_bytes};

verus! {

/// The unspent outputs of a ledger: output keys to outputs.
pub type Utxos = Map<Seq<u8>, TransactionOutput>;

/// The key of output number `index` of a transaction encoded as `encoded`.
pub open spec fn output_key(encoded: Seq<u8>, index: nat) -> Seq<u8> {
    blake2_256(output_key_preimage(encoded, index))
}

/// The keys of the first `n` outputs of a transaction encoded as `encoded`.
pub open spec fn output_keys(encoded: Seq<u8>, n: nat) -> Seq<Seq<u8>> {
    Seq::new(n, |j: int| output_key(encoded, j as nat))
}

/// The key of the UTXO created as a block reward.
pub open spec fn reward_key(o: TransactionOutput, block_number: nat) -> Seq<u8> {
    blake2_256(reward_key_preimage(o, block_number))
}

/// The key of a genesis UTXO.
pub open spec fn genesis_key(o: TransactionOutput) -> Seq<u8> {
    blake2_256(output_encoding(o))
}

/// The outpoints that some inputs spend, in order.
pub open spec fn outpoints(inputs: Seq<TransactionInput>) -> Seq<Seq<u8>> {
    inputs.map_values(|i: TransactionInput| i.outpoint@)
}

/// The outpoints of the inputs whose UTXOs are not in `utxos`, in order.
pub open spec fn missing_outpoints(utxos: Utxos, inputs: Seq<TransactionInput>) -> Seq<Seq<u8>>
    decreases inputs.len(),
{
    if inputs.len() == 0 {
        seq![]
    } else {
        let rest = missing_outpoints(utxos, inputs.drop_last());
        if utxos.contains_key(inputs.last().outpoint@) {
            rest
        } else {
            rest.push(inputs.last().outpoint@)
        }
    }
}

/// The check of the inputs, in order: each input whose UTXO is present must carry a
/// valid signature of `msg` by the UTXO's key, and the running sum of the values spent
/// must fit in a `Value`. Gives that sum, or the error of the first input that fails.
pub open spec fn scan_inputs(utxos: Utxos, inputs: Seq<TransactionInput>, msg: Seq<u8>) -> Result<nat, UtxoError>
    decreases inputs.len(),
{
    if inputs.len() == 0 {
        Ok(0)
    } else {
        match scan_inputs(utxos, inputs.drop_last(), msg) {
            Err(e) => Err(e),
            Ok(total) => {
                let input = inputs.last();
                if utxos.contains_key(input.outpoint@) {
                    let utxo = utxos[input.outpoint@];
                    if !sr25519_valid(input.sigscript@, msg, utxo.pubkey@) {
                        Err(UtxoError::InvalidSignature)
                    } else if total + utxo.value > u128::MAX {
                        Err(UtxoError::InputValueOverflow)
                    } else {
                        Ok((total + utxo.value) as nat)
                    }
                } else {
                    Ok(total)
                }
            },
        }
    }
}

/// The check of the outputs, in order: each output must carry a value, its key must not
/// be taken, and the running sum of the values must fit in a `Value`. Gives that sum, or
/// the error of the first output that fails.
pub open spec fn scan_outputs(utxos: Utxos, encoded: Seq<u8>, outputs: Seq<TransactionOutput>) -> Result<nat, UtxoError>
    decreases outputs.len(),
{
    if outputs.len() == 0 {
        Ok(0)
    } else {
        match scan_outputs(utxos, encoded, outputs.drop_last()) {
            Err(e) => Err(e),
            Ok(total) => {
                let output = outputs.last();
                if output.value == 0 {
                    Err(UtxoError::ZeroOutputValue)
                } else if utxos.contains_key(output_key(encoded, (outputs.len() - 1) as nat)) {
                    Err(UtxoError::OutputAlreadyExists)
                } else if total + output.value > u128::MAX {
                    Err(UtxoError::OutputValueOverflow)
                } else {
                    Ok((total + output.value) as nat)
                }
            },
        }
    }
}

/// What validation of `tx` against `utxos` yields: the error of the first check that
/// fails, or the missing outpoints, the keys of the new outputs, and the fee (the spent
/// value minus the created value, or zero while inputs are missing).
pub open spec fn validation(utxos: Utxos, tx: Transaction) -> Result<(Seq<Seq<u8>>, Seq<Seq<u8>>, nat), UtxoError> {
    if tx.inputs@.len() == 0 {
        Err(UtxoError::NoInputs)
    } else if tx.outputs@.len() == 0 {
        Err(UtxoError::NoOutputs)
    } else if !outpoints(tx.inputs@).no_duplicates() {
        Err(UtxoError::DuplicateInput)
    } else if !tx.outputs@.no_duplicates() {
        Err(UtxoError::DuplicateOutput)
    } else {
        match scan_inputs(utxos, tx.inputs@, simple_encoding(tx)) {
            Err(e) => Err(e),
            Ok(total_in) => match scan_outputs(utxos, transaction_encoding(tx), tx.outputs@) {
                Err(e) => Err(e),
                Ok(total_out) => {
                    let missing = missing_outpoints(utxos, tx.inputs@);
                    let provides = output_keys(transaction_encoding(tx), tx.outputs@.len());
                    if missing.len() == 0 {
                        if total_in < total_out {
                            Err(UtxoError::OutputExceedsInput)
                        } else {
                            Ok((missing, provides, (total_in - total_out) as nat))
                        }
                    } else {
                        Ok((missing, provides, 0))
                    }
                },
            },
        }
    }
}

/// Whether the checks that come before any encoding pass: inputs and outputs are not
/// empty, no outpoint is spent twice and no output is defined twice.
pub open spec fn lists_accepted(tx: Transaction) -> bool {
    &&& tx.inputs@.len() > 0
    &&& tx.outputs@.len() > 0
    &&& outpoints(tx.inputs@).no_duplicates()
    &&& tx.outputs@.no_duplicates()
}

/// Whether validating `tx` against `utxos` stays within the limits of the SCALE codec,
/// which refuses to encode a list of more than `u32::MAX` items: once the list checks
/// pass, the stripped transaction is encoded, so both lists must be that short; and once
/// the inputs pass and the first output carries a value, the key of that output hashes
/// the whole encoding wrapped as a byte string, so the encoding must be that short.
pub open spec fn within_codec_limits(utxos: Utxos, tx: Transaction) -> bool {
    &&& lists_accepted(tx) ==> tx.inputs@.len() <= u32::MAX && tx.outputs@.len() <= u32::MAX
    &&& (lists_accepted(tx) && scan_inputs(utxos, tx.inputs@, simple_encoding(tx)) is Ok
        && tx.outputs@[0].value > 0) ==> encodable(tx)
}

/// A transaction that passes validation within the codec's limits is encodable.
pub proof fn lemma_accepted_is_encodable(utxos: Utxos, tx: Transaction)
    requires
        within_codec_limits(utxos, tx),
        validation(utxos, tx) is Ok,
    ensures
        encodable(tx),
{
    let enc = transaction_encoding(tx);
    if tx.outputs@[0].value == 0 {
        let first = tx.outputs@.take(1);
        assert(first.drop_last() =~= Seq::<TransactionOutput>::empty());
        assert(first.len() == 1 && first.last() == tx.outputs@[0]);
        assert(scan_outputs(utxos, enc, first.drop_last()) == Ok::<nat, UtxoError>(0));
        lemma_scan_outputs_prefix(utxos, enc, tx.outputs@, 1);
    }
}

/// The fee truncated to 64 bits, as the transaction's priority.
pub open spec fn priority_of(fee: nat) -> u64 {
    (fee % 0x1_0000_0000_0000_0000) as u64
}

/// Whether `r` is what validation yields in `expected`.
pub open spec fn validation_agrees(
    r: Result<ValidTransaction, UtxoError>,
    expected: Result<(Seq<Seq<u8>>, Seq<Seq<u8>>, nat), UtxoError>,
) -> bool {
    match (r, expected) {
        (Ok(v), Ok((missing, provides, fee))) => {
            &&& v.requires@.map_values(|t: Vec<u8>| t@) == missing
            &&& v.provides@.map_values(|t: Vec<u8>| t@) == provides
            &&& v.priority == priority_of(fee)
            &&& v.longevity == u64::MAX
            &&& v.propagate
        },
        (Err(e), Err(e2)) => e == e2,
        _ => false,
    }
}

/// An error in the scan of a prefix of the inputs is the error of the whole scan.
pub(crate) proof fn lemma_scan_inputs_prefix(utxos: Utxos, s: Seq<TransactionInput>, k: int, msg: Seq<u8>)
    requires
        0 <= k <= s.len(),
        scan_inputs(utxos, s.take(k), msg) is Err,
    ensures
        scan_inputs(utxos, s, msg) == scan_inputs(utxos, s.take(k), msg),
    decreases s.len() - k,
{
    if k == s.len() {
        assert(s.take(k) =~= s);
    } else {
        assert(s.drop_last().take(k) =~= s.take(k));
        lemma_scan_inputs_prefix(utxos, s.drop_last(), k, msg);
    }
}

/// An error in the scan of a prefix of the outputs is the error of the whole scan.
pub(crate) proof fn lemma_scan_outputs_prefix(utxos: Utxos, encoded: Seq<u8>, s: Seq<TransactionOutput>, k: int)
    requires
        0 <= k <= s.len(),
        scan_outputs(utxos, encoded, s.take(k)) is Err,
    ensures
        scan_outputs(utxos, encoded, s) == scan_outputs(utxos, encoded, s.take(k)),
    decreases s.len() - k,
{
    if k == s.len() {
        assert(s.take(k) =~= s);
    } else {
        assert(s.drop_last().take(k) =~= s.take(k));
        lemma_scan_outputs_prefix(utxos, encoded, s.drop_last(), k);
    }
}

/// The bytes of `a` as a vector.
fn array_to_vec<const N: usize>(a: &[u8; N]) -> (r: Vec<u8>)
    ensures
        r@ == a@,
{
    let mut out: Vec<u8> = Vec::new();
    crate::encoding::push_array(&mut out, a);
    assert(out@ =~= a@);
    out
}

/// Whether no two inputs spend the same outpoint.
fn inputs_distinct(s: &Vec<TransactionInput>) -> (r: bool)
    ensures
        r == outpoints(s@).no_duplicates(),
{
    let n = s.len();
    let mut i: usize = 0;
    while i < n
        invariant
            i <= n,
            n == s@.len(),
            forall|a: int, b: int| 0 <= a < i && a < b < n ==> s@[a].outpoint@ != s@[b].outpoint@,
        decreases n - i,
    {
        let mut j: usize = i + 1;
        while j < n
            invariant
                i < n,
                i + 1 <= j <= n,
                n == s@.len(),
                forall|a: int, b: int| 0 <= a < i && a < b < n ==> s@[a].outpoint@ != s@[b].outpoint@,
                forall|b: int| i < b < j ==> s@[i as int].outpoint@ != s@[b].outpoint@,
            decreases n - j,
        {
            if same_bytes(&s[i].outpoint, &s[j].outpoint) {
                assert(outpoints(s@)[i as int] == outpoints(s@)[j as int]);
                return false;
            }
            j = j + 1;
        }
        i = i + 1;
    }
    assert forall|a: int, b: int| 0 <= a < outpoints(s@).len() && 0 <= b < outpoints(s@).len() && a != b
        implies outpoints(s@)[a] != outpoints(s@)[b] by {
        if a < b {} else {}
    }
    true
}

/// Whether no two outputs are equal.
fn outputs_distinct(s: &Vec<TransactionOutput>) -> (r: bool)
    ensures
        r == s@.no_duplicates(),
{
    let n = s.len();
    let mut i: usize = 0;
    while i < n
        invariant
            i <= n,
            n == s@.len(),
            forall|a: int, b: int| 0 <= a < i && a < b < n ==> s@[a] != s@[b],
        decreases n - i,
    {
        let mut j: usize = i + 1;
        while j < n
            invariant
                i < n,
                i + 1 <= j <= n,
                n == s@.len(),
                forall|a: int, b: int| 0 <= a < i && a < b < n ==> s@[a] != s@[b],
                forall|b: int| i < b < j ==> s@[i as int] != s@[b],
            decreases n - j,
        {
            let x = s[i];
            let y = s[j];
            if x.value == y.value && same_bytes(&x.pubkey, &y.pubkey) {
                assert(x.pubkey == y.pubkey);
                return false;
            }
            j = j + 1;
        }
        i = i + 1;
    }
    assert forall|a: int, b: int| 0 <= a < s@.len() && 0 <= b < s@.len() && a != b implies s@[a] != s@[b] by {
        if a < b {} else {}
    }
    true
}

/// The unspent outputs after the outpoints of `inputs` are removed, in order.
pub open spec fn remove_outpoints(utxos: Utxos, inputs: Seq<TransactionInput>) -> Utxos
    decreases inputs.len(),
{
    if inputs.len() == 0 {
        utxos
    } else {
        remove_outpoints(utxos, inputs.drop_last()).remove(inputs.last().outpoint@)
    }
}

/// The unspent outputs after each of `outputs` is stored under its key, in order.
pub open spec fn insert_outputs(utxos: Utxos, encoded: Seq<u8>, outputs: Seq<TransactionOutput>) -> Utxos
    decreases outputs.len(),
{
    if outputs.len() == 0 {
        utxos
    } else {
        insert_outputs(utxos, encoded, outputs.drop_last()).insert(
            output_key(encoded, (outputs.len() - 1) as nat),
            outputs.last(),
        )
    }
}

/// The unspent outputs after `tx` is applied: its inputs are spent and its outputs
/// stored under their keys.
pub open spec fn spent(utxos: Utxos, tx: Transaction) -> Utxos {
    insert_outputs(remove_outpoints(utxos, tx.inputs@), transaction_encoding(tx), tx.outputs@)
}

/// What dispatching `tx` on a ledger with unspent outputs `utxos` and accumulated reward
/// `reward` yields: the new outputs and reward, or the error by which it is refused.
pub open spec fn spend_outcome(utxos: Utxos, reward: Value, tx: Transaction) -> Result<(Utxos, Value), UtxoError> {
    match validation(utxos, tx) {
        Err(e) => Err(e),
        Ok((missing, _, fee)) => {
            if missing.len() > 0 {
                Err(UtxoError::MissingInputs)
            } else if reward + priority_of(fee) > u128::MAX {
                Err(UtxoError::RewardOverflow)
            } else {
                Ok((spent(utxos, tx), (reward + priority_of(fee)) as Value))
            }
        },
    }
}

/// The unspent outputs of the genesis block: each output under the hash of its encoding.
pub open spec fn genesis_utxos(outputs: Seq<TransactionOutput>) -> Utxos
    decreases outputs.len(),
{
    if outputs.len() == 0 {
        Map::empty()
    } else {
        genesis_utxos(outputs.drop_last()).insert(genesis_key(outputs.last()), outputs.last())
    }
}

/// The source of the author of the current block.
pub trait BlockAuthor {
    /// The key of the block author, if the author provided one to claim the reward.
    fn block_author() -> Option<Public>;
}

/// The source of the issuance portion of the block reward.
pub trait Issuance {
    /// The value newly issued at `block_number`.
    fn issuance(block_number: u64) -> Value;
}

/// The configuration of the ledger module.
pub trait Trait {
    /// A source to determine the block author.
    type BlockAuthor: BlockAuthor;
    /// A source to determine the issuance portion of the block reward.
    type Issuance: Issuance;
}

/// The runtime state of the ledger: the unspent outputs and the reward accumulated from
/// the fees of this block.
pub struct Module {
    store: UtxoStore,
    reward_total: Value,
}

impl Module {
    /// Well-formedness of the state.
    pub closed spec fn wf(&self) -> bool {
        self.store.wf()
    }

    /// The unspent outputs, by key.
    pub closed spec fn utxos(&self) -> Utxos {
        self.store@
    }

    /// The reward accumulated so far.
    pub closed spec fn pending_reward(&self) -> Value {
        self.reward_total
    }

    /// The unspent outputs are finitely many.
    pub proof fn lemma_utxos_finite(&self)
        requires
            self.wf(),
        ensures
            self.utxos().dom().finite(),
    {
        self.store.lemma_finite();
    }

    /// Total reward value to be redistributed among authorities.
    pub fn reward_total(&self) -> (r: Value)
        ensures
            r == self.pending_reward(),
    {
        self.reward_total
    }

    /// The unspent output under `key`, if any.
    pub fn utxo(&self, key: &H256) -> (r: Option<TransactionOutput>)
        requires
            self.wf(),
        ensures
            r == (if self.utxos().contains_key(key@) { Some(self.utxos()[key@]) } else { None::<TransactionOutput> }),
    {
        self.store.get(key)
    }

    /// A ledger whose unspent outputs are `genesis_utxos`, each under the hash of its
    /// encoding, and whose accumulated reward is zero.
    pub fn new(genesis_utxos: &Vec<TransactionOutput>) -> (m: Self)
        ensures
            m.wf(),
            m.utxos() == self::genesis_utxos(genesis_utxos@),
            m.pending_reward() == 0,
    {
        let mut store = UtxoStore::new();
        let n = genesis_utxos.len();
        let mut i: usize = 0;
        while i < n
            invariant
                i <= n,
                n == genesis_utxos@.len(),
                store.wf(),
                store@ == self::genesis_utxos(genesis_utxos@.take(i as int)),
            decreases n - i,
        {
            let u = genesis_utxos[i];
            let encoded = encode_output(&u);
            let hash = hash_blake2_256(&encoded);
            store.insert(hash, u);
            assert(genesis_utxos@.take(i + 1).drop_last() =~= genesis_utxos@.take(i as int));
            i = i + 1;
        }
        assert(genesis_utxos@.take(n as int) =~= genesis_utxos@);
        Module { store, reward_total: 0 }
    }

    /// Dispatches a single transaction and updates the UTXO set accordingly. The fee is
    /// added to the accumulated reward as the transaction's priority, that is truncated
    /// to its low 64 bits: of a fee of 2^64 or more, only the remainder modulo 2^64 is
    /// collected and the rest is lost.
    pub fn spend(&mut self, transaction: Transaction) -> (r: Result<Event, UtxoError>)
        requires
            old(self).wf(),
            within_codec_limits(old(self).utxos(), transaction),
        ensures
            final(self).wf(),
            match r {
                Ok(e) => {
                    &&& e == Event::TransactionSuccess(transaction)
                    &&& spend_outcome(old(self).utxos(), old(self).pending_reward(), transaction)
                        == Ok::<(Utxos, Value), UtxoError>((final(self).utxos(), final(self).pending_reward()))
                },
                Err(e) => {
                    &&& spend_outcome(old(self).utxos(), old(self).pending_reward(), transaction)
                        == Err::<(Utxos, Value), UtxoError>(e)
                    &&& final(self).utxos() == old(self).utxos()
                    &&& final(self).pending_reward() == old(self).pending_reward()
                },
            },
    {
        let transaction_validity = match self.validate_transaction(&transaction) {
            Ok(v) => v,
            Err(e) => {
                return Err(e);
            },
        };
        if transaction_validity.requires.len() != 0 {
            return Err(UtxoError::MissingInputs);
        }
        proof {
            lemma_accepted_is_encodable(self.utxos(), transaction);
        }
        match self.update_storage(&transaction, transaction_validity.priority as Value) {
            Ok(()) => {},
            Err(e) => {
                return Err(e);
            },
        }
        Ok(Event::TransactionSuccess(transaction))
    }

    /// Updates the storage to reflect the changes made by a transaction: adds `reward` to
    /// the accumulated reward, removes the spent UTXOs and stores each output under the
    /// hash of the transaction's encoding and the output's position.
    fn update_storage(&mut self, transaction: &Transaction, reward: Value) -> (r: Result<(), UtxoError>)
        requires
            old(self).wf(),
            encodable(*transaction),
        ensures
            final(self).wf(),
            old(self).pending_reward() + reward > u128::MAX ==> {
                &&& r == Err::<(), UtxoError>(UtxoError::RewardOverflow)
                &&& final(self).utxos() == old(self).utxos()
                &&& final(self).pending_reward() == old(self).pending_reward()
            },
            old(self).pending_reward() + reward <= u128::MAX ==> {
                &&& r == Ok::<(), UtxoError>(())
                &&& final(self).utxos() == spent(old(self).utxos(), *transaction)
                &&& final(self).pending_reward() == old(self).pending_reward() + reward
            },
    {
        proof {
            lemma_encodable_bounds(*transaction);
        }
        let new_total = match self.reward_total.checked_add(reward) {
            Some(t) => t,
            None => {
                return Err(UtxoError::RewardOverflow);
            },
        };
        self.reward_total = new_total;
        let ghost before = self.utxos();

        // Remove the spent UTXOs.
        let n = transaction.inputs.len();
        let mut i: usize = 0;
        while i < n
            invariant
                i <= n,
                n == transaction.inputs@.len(),
                self.store.wf(),
                self.store@ == remove_outpoints(before, transaction.inputs@.take(i as int)),
                self.reward_total == new_total,
            decreases n - i,
        {
            let outpoint = transaction.inputs[i].outpoint;
            self.store.remove(&outpoint);
            assert(transaction.inputs@.take(i + 1).drop_last() =~= transaction.inputs@.take(i as int));
            i = i + 1;
        }
        assert(transaction.inputs@.take(n as int) =~= transaction.inputs@);

        // Store the new outputs.
        let ghost removed = self.store@;
        let encoded = encode_transaction(transaction);
        let m = transaction.outputs.len();
        let mut index: u64 = 0;
        let mut j: usize = 0;
        while j < m
            invariant
                j <= m,
                m == transaction.outputs@.len(),
                m <= u32::MAX,
                index == j,
                encoded@ == transaction_encoding(*transaction),
                encoded@.len() <= u32::MAX,
                self.store.wf(),
                self.store@ == insert_outputs(removed, encoded@, transaction.outputs@.take(j as int)),
                removed == remove_outpoints(before, transaction.inputs@),
                self.reward_total == new_total,
            decreases m - j,
        {
            let output = transaction.outputs[j];
            let preimage = encode_output_key_preimage(&encoded, index);
            let hash = hash_blake2_256(&preimage);
            index = index + 1;
            self.store.insert(hash, output);
            assert(transaction.outputs@.take(j + 1).drop_last() =~= transaction.outputs@.take(j as int));
            j = j + 1;
        }
        assert(transaction.outputs@.take(m as int) =~= transaction.outputs@);
        Ok(())
    }

    /// Redistributes the accumulated reward, together with `issuance`, to the block author
    /// as a new UTXO keyed by the hash of the output and the block number.
    pub fn disperse_reward(&mut self, author: &Public, issuance: Value, block_number: u64) -> (r: Event)
        requires
            old(self).wf(),
            old(self).pending_reward() + issuance <= u128::MAX,
        ensures
            final(self).wf(),
            final(self).pending_reward() == 0,
            ({
                let utxo = TransactionOutput { value: (old(self).pending_reward() + issuance) as Value, pubkey: *author };
                let key = reward_key(utxo, block_number as nat);
                &&& r matches Event::RewardsIssued(v, k) && v == utxo.value && k@ == key
                &&& final(self).utxos() == old(self).utxos().insert(key, utxo)
            }),
    {
        let reward = self.reward_total + issuance;
        self.reward_total = 0;
        let utxo = TransactionOutput { value: reward, pubkey: *author };
        let preimage = encode_reward_key_preimage(&utxo, block_number);
        let hash = hash_blake2_256(&preimage);
        self.store.insert(hash, utxo);
        Event::RewardsIssued(reward, hash)
    }

    /// Rewards the block author with the accumulated reward and `issuance`, or refuses
    /// when their sum does not fit in a `Value`, leaving the state as it was.
    pub fn reward_block(&mut self, author: &Public, issuance: Value, block_number: u64) -> (r: Result<Event, UtxoError>)
        requires
            old(self).wf(),
        ensures
            final(self).wf(),
            old(self).pending_reward() + issuance > u128::MAX ==> {
                &&& r == Err::<Event, UtxoError>(UtxoError::RewardOverflow)
                &&& final(self).utxos() == old(self).utxos()
                &&& final(self).pending_reward() == old(self).pending_reward()
            },
            old(self).pending_reward() + issuance <= u128::MAX ==> {
                let utxo = TransactionOutput { value: (old(self).pending_reward() + issuance) as Value, pubkey: *author };
                let key = reward_key(utxo, block_number as nat);
                &&& r matches Ok(Event::RewardsIssued(v, k)) && v == utxo.value && k@ == key
                &&& final(self).utxos() == old(self).utxos().insert(key, utxo)
                &&& final(self).pending_reward() == 0
            },
    {
        if self.reward_total.checked_add(issuance).is_none() {
            return Err(UtxoError::RewardOverflow);
        }
        Ok(self.disperse_reward(author, issuance, block_number))
    }

    /// Handler called on block finalization: the accumulated reward, with the issuance of
    /// this block, goes to the block author, or is wasted when the author provided no key.
    /// Where the sum does not fit in a `Value` nothing is changed.
    pub fn on_finalize<T: Trait>(&mut self, block_number: u64) -> (r: Result<Event, UtxoError>)
        requires
            old(self).wf(),
        ensures
            final(self).wf(),
            r matches Ok(Event::RewardsWasted) ==> {
                &&& final(self).utxos() == old(self).utxos()
                &&& final(self).pending_reward() == old(self).pending_reward()
            },
            r matches Ok(Event::RewardsWasted) ==> call_ensures(T::BlockAuthor::block_author, (), None::<Public>),
            r matches Ok(Event::RewardsIssued(v, k)) ==> {
                &&& final(self).pending_reward() == 0
                &&& exists|author: Public, issuance: Value|
                    #[trigger] call_ensures(T::BlockAuthor::block_author, (), Some(author))
                        && #[trigger] call_ensures(T::Issuance::issuance, (block_number,), issuance)
                        && v == old(self).pending_reward() + issuance
                        && k@ == reward_key((TransactionOutput { value: v, pubkey: author }), block_number as nat)
                        && final(self).utxos() == old(self).utxos().insert(k@, (TransactionOutput { value: v, pubkey: author }))
            },
            r is Err ==> {
                &&& r == Err::<Event, UtxoError>(UtxoError::RewardOverflow)
                &&& final(self).utxos() == old(self).utxos()
                &&& final(self).pending_reward() == old(self).pending_reward()
                &&& exists|author: Public, issuance: Value|
                    #[trigger] call_ensures(T::BlockAuthor::block_author, (), Some(author))
                        && #[trigger] call_ensures(T::Issuance::issuance, (block_number,), issuance)
                        && old(self).pending_reward() + issuance > u128::MAX
            },
            !(r matches Ok(Event::TransactionSuccess(_))),
    {
        let claim = match T::BlockAuthor::block_author() {
            None => None,
            Some(author) => Some((author, T::Issuance::issuance(block_number))),
        };
        self.finalize_block(claim, block_number)
    }

    /// Finalizes a block given what the configuration reported: `None` when the block
    /// author provided no key, or the author's key with the issuance of this block. Without
    /// a key the reward is wasted and nothing changes; with one, the block is rewarded as
    /// by `reward_block`.
    pub fn finalize_block(&mut self, claim: Option<(Public, Value)>, block_number: u64) -> (r: Result<Event, UtxoError>)
        requires
            old(self).wf(),
        ensures
            final(self).wf(),
            claim is None ==> {
                &&& r == Ok::<Event, UtxoError>(Event::RewardsWasted)
                &&& final(self).utxos() == old(self).utxos()
                &&& final(self).pending_reward() == old(self).pending_reward()
            },
            claim matches Some((author, issuance)) ==> {
                &&& old(self).pending_reward() + issuance > u128::MAX ==> {
                    &&& r == Err::<Event, UtxoError>(UtxoError::RewardOverflow)
                    &&& final(self).utxos() == old(self).utxos()
                    &&& final(self).pending_reward() == old(self).pending_reward()
                }
                &&& old(self).pending_reward() + issuance <= u128::MAX ==> {
                    &&& r matches Ok(Event::RewardsIssued(v, k)) && v == old(self).pending_reward() + issuance
                        && k@ == reward_key((TransactionOutput { value: v, pubkey: author }), block_number as nat)
                    &&& final(self).utxos() == old(self).utxos().insert(
                        reward_key((TransactionOutput { value: (old(self).pending_reward() + issuance) as Value, pubkey: author }), block_number as nat),
                        (TransactionOutput { value: (old(self).pending_reward() + issuance) as Value, pubkey: author }),
                    )
                    &&& final(self).pending_reward() == 0
                }
            },
    {
        match claim {
            None => Ok(Event::RewardsWasted),
            Some((author, issuance)) => self.reward_block(&author, issuance, block_number),
        }
    }

    /// Strips a transaction of its signatures, replacing each with zero bytes, and encodes
    /// it: the message that each input signs.
    pub fn get_simple_transaction(transaction: &Transaction) -> (r: Vec<u8>)
        requires
            transaction.inputs@.len() <= u32::MAX,
            transaction.outputs@.len() <= u32::MAX,
        ensures
            r@ == simple_encoding(*transaction),
    {
        let n = transaction.inputs.len();
        let mut stripped: Vec<TransactionInput> = Vec::new();
        let mut i: usize = 0;
        while i < n
            invariant
                i <= n,
                n == transaction.inputs@.len(),
                stripped@ == transaction.inputs@.take(i as int).map_values(|x: TransactionInput| strip_input(x)),
            decreases n - i,
        {
            let input = TransactionInput { outpoint: transaction.inputs[i].outpoint, sigscript: [0u8; 64] };
            stripped.push(input);
            i = i + 1;
            assert(stripped@ =~= transaction.inputs@.take(i as int).map_values(|x: TransactionInput| strip_input(x)));
        }
        assert(transaction.inputs@.take(n as int) =~= transaction.inputs@);
        encode_lists(&stripped, &transaction.outputs)
    }

    /// Checks the inputs of `transaction` in order against the store, each present one
    /// by its signature of `simple_transaction`: gives the total value spent and the
    /// missing outpoints, or the error of the first input that fails.
    fn check_inputs(&self, transaction: &Transaction, simple_transaction: &Vec<u8>) -> (r: Result<(Value, Vec<Vec<u8>>), UtxoError>)
        requires
            self.wf(),
        ensures
            match r {
                Ok((total, missing)) => {
                    &&& scan_inputs(self.utxos(), transaction.inputs@, simple_transaction@) == Ok::<nat, UtxoError>(total as nat)
                    &&& missing@.map_values(|t: Vec<u8>| t@) == missing_outpoints(self.utxos(), transaction.inputs@)
                },
                Err(e) => scan_inputs(self.utxos(), transaction.inputs@, simple_transaction@) == Err::<nat, UtxoError>(e),
            },
    {
        let ghost utxos = self.utxos();
        let ghost msg = simple_transaction@;
        let mut total_input: Value = 0;
        let mut missing_utxos: Vec<Vec<u8>> = Vec::new();
        let n = transaction.inputs.len();
        let mut i: usize = 0;
        while i < n
            invariant
                i <= n,
                n == transaction.inputs@.len(),
                self.wf(),
                utxos == self.utxos(),
                msg == simple_transaction@,
                scan_inputs(utxos, transaction.inputs@.take(i as int), msg) == Ok::<nat, UtxoError>(total_input as nat),
                missing_utxos@.map_values(|t: Vec<u8>| t@) == missing_outpoints(utxos, transaction.inputs@.take(i as int)),
            decreases n - i,
        {
            let input = transaction.inputs[i];
            assert(transaction.inputs@.take(i + 1).drop_last() =~= transaction.inputs@.take(i as int));
            assert(transaction.inputs@.take(i + 1).last() == input);
            match self.store.get(&input.outpoint) {
                Some(input_utxo) => {
                    if !verify_sr25519(&input.sigscript, &simple_transaction, &input_utxo.pubkey) {
                        proof {
                            lemma_scan_inputs_prefix(utxos, transaction.inputs@, i + 1, msg);
                        }
                        return Err(UtxoError::InvalidSignature);
                    }
                    match total_input.checked_add(input_utxo.value) {
                        Some(t) => {
                            total_input = t;
                        },
                        None => {
                            proof {
                                lemma_scan_inputs_prefix(utxos, transaction.inputs@, i + 1, msg);
                            }
                            return Err(UtxoError::InputValueOverflow);
                        },
                    }
                },
                None => {
                    let outpoint = array_to_vec(&input.outpoint);
                    missing_utxos.push(outpoint);
                },
            }
            i = i + 1;
            assert(missing_utxos@.map_values(|t: Vec<u8>| t@) =~= missing_outpoints(utxos, transaction.inputs@.take(i as int)));
        }
        assert(transaction.inputs@.take(n as int) =~= transaction.inputs@);
        Ok((total_input, missing_utxos))
    }

    /// Checks a transaction for validity, errors and race conditions; called both by the
    /// transaction pool and by block execution. It ensures that:
    /// - inputs and outputs are not empty,
    /// - all inputs that match existing outputs carry valid signatures of the transaction
    ///   stripped of its signatures,
    /// - each input is used exactly once: no two inputs name the same outpoint, whatever
    ///   their signatures,
    /// - each output is defined exactly once and has a nonzero value,
    /// - new outputs do not collide with existing ones,
    /// - the sums of input and output values do not overflow,
    /// - when no input is missing, the total output value does not exceed the total
    ///   input value.
    /// Inputs whose UTXOs are missing are reported in `requires` rather than refused. The
    /// fee (input value minus output value) is reported as `priority`, truncated to its
    /// low 64 bits.
    pub fn validate_transaction(&self, transaction: &Transaction) -> (r: Result<ValidTransaction, UtxoError>)
        requires
            self.wf(),
            within_codec_limits(self.utxos(), *transaction),
        ensures
            validation_agrees(r, validation(self.utxos(), *transaction)),
    {
        let ghost utxos = self.utxos();
        if transaction.inputs.len() == 0 {
            return Err(UtxoError::NoInputs);
        }
        if transaction.outputs.len() == 0 {
            return Err(UtxoError::NoOutputs);
        }
        if !inputs_distinct(&transaction.inputs) {
            return Err(UtxoError::DuplicateInput);
        }
        if !outputs_distinct(&transaction.outputs) {
            return Err(UtxoError::DuplicateOutput);
        }
        let mut total_output: Value = 0;
        let simple_transaction = Self::get_simple_transaction(transaction);
        let mut new_utxos: Vec<Vec<u8>> = Vec::new();

        // Check that inputs are valid.
        let (total_input, missing_utxos) = match self.check_inputs(transaction, &simple_transaction) {
            Ok(p) => p,
            Err(e) => {
                return Err(e);
            },
        };

        // Check that outputs are valid.
        if transaction.outputs[0].value == 0 {
            proof {
                let first = transaction.outputs@.take(1);
                assert(first.drop_last() =~= Seq::<TransactionOutput>::empty());
                assert(first.len() == 1 && first.last() == transaction.outputs@[0]);
                assert(scan_outputs(utxos, transaction_encoding(*transaction), first.drop_last()) == Ok::<nat, UtxoError>(0));
                lemma_scan_outputs_prefix(utxos, transaction_encoding(*transaction), transaction.outputs@, 1);
            }
            return Err(UtxoError::ZeroOutputValue);
        }

        let encoded = encode_transaction(transaction);
        let ghost enc = encoded@;
        let m = transaction.outputs.len();
        let mut output_index: u64 = 0;
        let mut j: usize = 0;
        while j < m
            invariant
                j <= m,
                m == transaction.outputs@.len(),
                m <= u32::MAX,
                output_index == j,
                self.wf(),
                utxos == self.utxos(),
                enc == transaction_encoding(*transaction),
                enc == encoded@,
                transaction.inputs@.len() > 0,
                transaction.outputs@.len() > 0,
                outpoints(transaction.inputs@).no_duplicates(),
                transaction.outputs@.no_duplicates(),
                scan_inputs(utxos, transaction.inputs@, simple_encoding(*transaction)) == Ok::<nat, UtxoError>(total_input as nat),
                missing_utxos@.map_values(|t: Vec<u8>| t@) == missing_outpoints(utxos, transaction.inputs@),
                enc.len() <= u32::MAX,
                scan_outputs(utxos, enc, transaction.outputs@.take(j as int)) == Ok::<nat, UtxoError>(total_output as nat),
                new_utxos@.map_values(|t: Vec<u8>| t@) == output_keys(enc, j as nat),
            decreases m - j,
        {
            let output = transaction.outputs[j];
            assert(transaction.outputs@.take(j + 1).drop_last() =~= transaction.outputs@.take(j as int));
            assert(transaction.outputs@.take(j + 1).last() == output);
            if output.value == 0 {
                proof {
                    lemma_scan_outputs_prefix(utxos, enc, transaction.outputs@, j + 1);
                }
                return Err(UtxoError::ZeroOutputValue);
            }
            let preimage = encode_output_key_preimage(&encoded, output_index);
            let hash = hash_blake2_256(&preimage);
            output_index = output_index + 1;
            if self.store.contains_key(&hash) {
                proof {
                    lemma_scan_outputs_prefix(utxos, enc, transaction.outputs@, j + 1);
                }
                return Err(UtxoError::OutputAlreadyExists);
            }
            match total_output.checked_add(output.value) {
                Some(t) => {
                    total_output = t;
                },
                None => {
                    proof {
                        lemma_scan_outputs_prefix(utxos, enc, transaction.outputs@, j + 1);
                    }
                    return Err(UtxoError::OutputValueOverflow);
                },
            }
            let key = array_to_vec(&hash);
            let ghost before = new_utxos@.map_values(|t: Vec<u8>| t@);
            new_utxos.push(key);
            assert(key@ == output_key(enc, j as nat));
            assert(new_utxos@.map_values(|t: Vec<u8>| t@) =~= before.push(key@));
            assert(output_keys(enc, (j + 1) as nat) =~= output_keys(enc, j as nat).push(output_key(enc, j as nat)));
            j = j + 1;
            assert(new_utxos@.map_values(|t: Vec<u8>| t@) =~= output_keys(enc, j as nat));
        }
        assert(transaction.outputs@.take(m as int) =~= transaction.outputs@);

        // If no race condition, check the math.
        let mut reward: Value = 0;
        if missing_utxos.len() == 0 {
            if total_input < total_output {
                return Err(UtxoError::OutputExceedsInput);
            }
            reward = total_input - total_output;
        }
        let priority = reward as u64;
        assert(priority == reward % 0x1_0000_0000_0000_0000) by (bit_vector)
            requires
                priority == reward as u64,
        ;
        Ok(ValidTransaction {
            requires: missing_utxos,
            provides: new_utxos,
            priority,
            longevity: u64::MAX,
            propagate: true,
        })
    }

    /// Whether validating or dispatching `transaction` stays within the limits of the
    /// SCALE codec (see `within_codec_limits`); where it does not, the runtime's encoding
    /// gives up on the transaction.
    pub fn check_codec_limits(&self, transaction: &Transaction) -> (r: bool)
        requires
            self.wf(),
        ensures
            r == within_codec_limits(self.utxos(), *transaction),
    {
        if transaction.inputs.len() == 0 || transaction.outputs.len() == 0
            || !inputs_distinct(&transaction.inputs) || !outputs_distinct(&transaction.outputs) {
            return true;
        }
        if transaction.inputs.len() > u32::MAX as usize || transaction.outputs.len() > u32::MAX as usize {
            return false;
        }
        if transaction.outputs[0].value == 0 || is_encodable(transaction) {
            return true;
        }
        let simple_transaction = Self::get_simple_transaction(transaction);
        self.check_inputs(transaction, &simple_transaction).is_err()
    }

    /// The outpoints of the inputs of `transaction` whose UTXOs are not in the store: a
    /// transaction with such inputs races ahead of the transactions that create them.
    pub fn get_missing_utxos(&self, transaction: &Transaction) -> (r: Vec<H256>)
        requires
            self.wf(),
        ensures
            r@.map_values(|h: H256| h@) == missing_outpoints(self.utxos(), transaction.inputs@),
    {
        let n = transaction.inputs.len();
        let mut missing: Vec<H256> = Vec::new();
        let mut i: usize = 0;
        while i < n
            invariant
                i <= n,
                n == transaction.inputs@.len(),
                self.wf(),
                missing@.map_values(|h: H256| h@) == missing_outpoints(self.utxos(), transaction.inputs@.take(i as int)),
            decreases n - i,
        {
            let outpoint = transaction.inputs[i].outpoint;
            assert(transaction.inputs@.take(i + 1).drop_last() =~= transaction.inputs@.take(i as int));
            if !self.store.contains_key(&outpoint) {
                missing.push(outpoint);
            }
            i = i + 1;
            assert(missing@.map_values(|h: H256| h@) =~= missing_outpoints(self.utxos(), transaction.inputs@.take(i as int)));
        }
        assert(transaction.inputs@.take(n as int) =~= transaction.inputs@);
        missing
    }
}

} // verus!
