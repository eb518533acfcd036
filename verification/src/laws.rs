use vstd::prelude::*;
use crate::types::{Value, Public, TransactionInput, TransactionOutput, Transaction, UtxoError};
use crate::encoding::{
    transaction_encoding, simple_encoding, strip_input, lemma_lists_encoding_injective, compact_u32, le_bytes,
    output_encoding, pow256, lemma_le_bytes_injective, lemma_le_bytes_len, lemma_concat_split,
};
use crate::crypto::blake2_256;
use crate::utxo::{
    Utxos, outpoints, output_key, output_keys, missing_outpoints, scan_inputs, scan_outputs, validation,
    remove_outpoints, insert_outputs, spent, spend_outcome, reward_key, genesis_utxos,
};

verus! {

/// The total value held by the unspent outputs of a finite map.
pub open spec fn map_total(m: Utxos) -> int
    decreases m.dom().len(),
    when m.dom().finite()
{
    if m.dom().len() == 0 {
        0
    } else {
        let k = m.dom().choose();
        m[k].value + map_total(m.remove(k))
    }
}

/// The total of a map is the value under any of its keys plus the total of the rest.
pub proof fn lemma_total_remove(m: Utxos, k: Seq<u8>)
    requires
        m.dom().finite(),
        m.contains_key(k),
    ensures
        map_total(m) == m[k].value + map_total(m.remove(k)),
    decreases m.dom().len(),
{
    let c = m.dom().choose();
    assert(m.dom().contains(c));
    if c != k {
        assert(m.remove(c).dom() =~= m.dom().remove(c));
        assert(m.remove(k).dom() =~= m.dom().remove(k));
        lemma_total_remove(m.remove(c), k);
        lemma_total_remove(m.remove(k), c);
        assert(m.remove(c).remove(k) =~= m.remove(k).remove(c));
    }
}

/// Storing a value under a fresh key adds that value to the total.
pub proof fn lemma_total_insert_fresh(m: Utxos, k: Seq<u8>, o: TransactionOutput)
    requires
        m.dom().finite(),
        !m.contains_key(k),
    ensures
        m.insert(k, o).dom().finite(),
        map_total(m.insert(k, o)) == o.value + map_total(m),
{
    lemma_total_remove(m.insert(k, o), k);
    assert(m.insert(k, o).remove(k) =~= m);
}

/// What is left of a map after some outpoints are removed.
proof fn lemma_remove_outpoints_contents(utxos: Utxos, inputs: Seq<TransactionInput>, k: Seq<u8>)
    ensures
        remove_outpoints(utxos, inputs).contains_key(k) <==> (utxos.contains_key(k)
            && forall|i: int| 0 <= i < inputs.len() ==> #[trigger] inputs[i].outpoint@ != k),
        remove_outpoints(utxos, inputs).contains_key(k) ==> remove_outpoints(utxos, inputs)[k] == utxos[k],
        remove_outpoints(utxos, inputs).dom().subset_of(utxos.dom()),
    decreases inputs.len(),
{
    if inputs.len() > 0 {
        lemma_remove_outpoints_contents(utxos, inputs.drop_last(), k);
        assert forall|k2: Seq<u8>| remove_outpoints(utxos, inputs).dom().contains(k2) implies utxos.dom().contains(k2) by {
            lemma_remove_outpoints_contents(utxos, inputs.drop_last(), k2);
        }
        if utxos.contains_key(k) && !(forall|i: int| 0 <= i < inputs.len() ==> #[trigger] inputs[i].outpoint@ != k) {
            let i = choose|i: int| 0 <= i < inputs.len() && #[trigger] inputs[i].outpoint@ == k;
            if i < inputs.len() - 1 {
                assert(inputs.drop_last()[i] == inputs[i]);
            }
        }
        if forall|i: int| 0 <= i < inputs.len() ==> #[trigger] inputs[i].outpoint@ != k {
            assert forall|i: int| 0 <= i < inputs.drop_last().len() implies #[trigger] inputs.drop_last()[i].outpoint@ != k by {
                assert(inputs.drop_last()[i] == inputs[i]);
            }
            assert(inputs[inputs.len() - 1].outpoint@ != k);
        }
    }
}

/// What a map holds after outputs are stored under their keys.
proof fn lemma_insert_outputs_contents(m: Utxos, encoded: Seq<u8>, outputs: Seq<TransactionOutput>, k: Seq<u8>)
    ensures
        insert_outputs(m, encoded, outputs).contains_key(k) <==> (m.contains_key(k)
            || exists|j: int| 0 <= j < outputs.len() && #[trigger] output_key(encoded, j as nat) == k),
        m.dom().finite() ==> insert_outputs(m, encoded, outputs).dom().finite(),
        (forall|j: int| 0 <= j < outputs.len() ==> #[trigger] output_key(encoded, j as nat) != k)
            ==> insert_outputs(m, encoded, outputs)[k] == m[k],
    decreases outputs.len(),
{
    if outputs.len() > 0 {
        let s = outputs.drop_last();
        lemma_insert_outputs_contents(m, encoded, s, k);
        if forall|j: int| 0 <= j < outputs.len() ==> #[trigger] output_key(encoded, j as nat) != k {
            assert forall|j: int| 0 <= j < s.len() implies #[trigger] output_key(encoded, j as nat) != k by {
                assert(0 <= j < outputs.len());
            }
            assert(output_key(encoded, (outputs.len() - 1) as nat) != k);
        }
        if exists|j: int| 0 <= j < outputs.len() && #[trigger] output_key(encoded, j as nat) == k {
            let j = choose|j: int| 0 <= j < outputs.len() && #[trigger] output_key(encoded, j as nat) == k;
            if j < outputs.len() - 1 {
                assert(0 <= j < s.len() && output_key(encoded, j as nat) == k);
            }
        }
        if exists|j: int| 0 <= j < s.len() && #[trigger] output_key(encoded, j as nat) == k {
            let j = choose|j: int| 0 <= j < s.len() && #[trigger] output_key(encoded, j as nat) == k;
            assert(0 <= j < outputs.len() && output_key(encoded, j as nat) == k);
        }
    }
}

/// The missing outpoints of a prefix are a prefix of the missing outpoints; in
/// particular, when none is missing, every input's UTXO is present.
proof fn lemma_none_missing(utxos: Utxos, inputs: Seq<TransactionInput>)
    requires
        missing_outpoints(utxos, inputs).len() == 0,
    ensures
        forall|i: int| 0 <= i < inputs.len() ==> utxos.contains_key(#[trigger] inputs[i].outpoint@),
    decreases inputs.len(),
{
    if inputs.len() > 0 {
        let s = inputs.drop_last();
        assert(missing_outpoints(utxos, s).len() == 0);
        lemma_none_missing(utxos, s);
        assert forall|i: int| 0 <= i < inputs.len() implies utxos.contains_key(#[trigger] inputs[i].outpoint@) by {
            if i < inputs.len() - 1 {
                assert(s[i] == inputs[i]);
            }
        }
    }
}

/// An accepted scan of the outputs checked each output: it carries a value and its key
/// was free.
proof fn lemma_scan_outputs_ok(utxos: Utxos, encoded: Seq<u8>, outputs: Seq<TransactionOutput>)
    requires
        scan_outputs(utxos, encoded, outputs) is Ok,
    ensures
        forall|j: int| 0 <= j < outputs.len() ==> (#[trigger] outputs[j]).value > 0,
        forall|j: int| 0 <= j < outputs.len() ==> !utxos.contains_key(#[trigger] output_key(encoded, j as nat)),
        scan_outputs(utxos, encoded, outputs) == Ok::<nat, UtxoError>(outputs_value(outputs)),
    decreases outputs.len(),
{
    if outputs.len() > 0 {
        let s = outputs.drop_last();
        lemma_scan_outputs_ok(utxos, encoded, s);
        assert forall|j: int| 0 <= j < outputs.len() implies (#[trigger] outputs[j]).value > 0 by {
            if j < outputs.len() - 1 {
                assert(s[j] == outputs[j]);
            }
        }
    }
}

/// The sum of the values of some outputs.
pub open spec fn outputs_value(outputs: Seq<TransactionOutput>) -> nat
    decreases outputs.len(),
{
    if outputs.len() == 0 {
        0
    } else {
        outputs_value(outputs.drop_last()) + outputs.last().value as nat
    }
}

/// The sum of the values of the UTXOs that some inputs spend.
pub open spec fn inputs_value(utxos: Utxos, inputs: Seq<TransactionInput>) -> nat
    decreases inputs.len(),
{
    if inputs.len() == 0 {
        0
    } else {
        inputs_value(utxos, inputs.drop_last()) + (if utxos.contains_key(inputs.last().outpoint@) {
            utxos[inputs.last().outpoint@].value as nat
        } else {
            0
        })
    }
}

/// An accepted scan of the inputs sums the values of the UTXOs that they spend.
proof fn lemma_scan_inputs_ok(utxos: Utxos, inputs: Seq<TransactionInput>, msg: Seq<u8>)
    requires
        scan_inputs(utxos, inputs, msg) is Ok,
    ensures
        scan_inputs(utxos, inputs, msg) == Ok::<nat, UtxoError>(inputs_value(utxos, inputs)),
    decreases inputs.len(),
{
    if inputs.len() > 0 {
        lemma_scan_inputs_ok(utxos, inputs.drop_last(), msg);
    }
}

/// Removing the distinct, present outpoints of some inputs takes their value from the total.
proof fn lemma_total_remove_outpoints(utxos: Utxos, inputs: Seq<TransactionInput>)
    requires
        utxos.dom().finite(),
        outpoints(inputs).no_duplicates(),
        forall|i: int| 0 <= i < inputs.len() ==> utxos.contains_key(#[trigger] inputs[i].outpoint@),
    ensures
        remove_outpoints(utxos, inputs).dom().finite(),
        map_total(remove_outpoints(utxos, inputs)) + inputs_value(utxos, inputs) == map_total(utxos),
    decreases inputs.len(),
{
    if inputs.len() > 0 {
        let s = inputs.drop_last();
        let k = inputs.last().outpoint@;
        assert(outpoints(s) =~= outpoints(inputs).drop_last());
        assert forall|i: int| 0 <= i < s.len() implies utxos.contains_key(#[trigger] s[i].outpoint@) by {
            assert(s[i] == inputs[i]);
        }
        lemma_total_remove_outpoints(utxos, s);
        let r = remove_outpoints(utxos, s);
        lemma_remove_outpoints_contents(utxos, s, k);
        assert forall|i: int| 0 <= i < s.len() implies #[trigger] s[i].outpoint@ != k by {
            assert(outpoints(inputs)[i] == s[i].outpoint@);
            assert(outpoints(inputs)[inputs.len() - 1] == k);
        }
        assert(utxos.contains_key(inputs[inputs.len() - 1].outpoint@));
        lemma_total_remove(r, k);
    }
}

/// With distinct keys, each output is found under its own key.
proof fn lemma_insert_outputs_lookup(m: Utxos, encoded: Seq<u8>, outputs: Seq<TransactionOutput>, j: int)
    requires
        output_keys(encoded, outputs.len()).no_duplicates(),
        0 <= j < outputs.len(),
    ensures
        insert_outputs(m, encoded, outputs).contains_key(output_key(encoded, j as nat)),
        insert_outputs(m, encoded, outputs)[output_key(encoded, j as nat)] == outputs[j],
    decreases outputs.len(),
{
    let s = outputs.drop_last();
    let n = outputs.len() - 1;
    if j < n {
        assert forall|a: int, b: int| 0 <= a < s.len() && 0 <= b < s.len() && a != b
            implies output_keys(encoded, s.len())[a] != output_keys(encoded, s.len())[b] by {
            assert(output_keys(encoded, outputs.len())[a] == output_keys(encoded, s.len())[a]);
            assert(output_keys(encoded, outputs.len())[b] == output_keys(encoded, s.len())[b]);
        }
        lemma_insert_outputs_lookup(m, encoded, s, j);
        assert(output_keys(encoded, outputs.len())[j] != output_keys(encoded, outputs.len())[n]);
        assert(s[j] == outputs[j]);
    }
}

/// An accepted spend leaves every UTXO that it does not spend as it was, and stores
/// each of its outputs under that output's key, where `validate_transaction` reports
/// it. The second part needs the output keys to be distinct, which holds unless two
/// preimages collide under BLAKE2b.
pub proof fn lemma_spend_frame(utxos: Utxos, reward: Value, tx: Transaction, after: Utxos, reward_after: Value)
    requires
        spend_outcome(utxos, reward, tx) == Ok::<(Utxos, Value), UtxoError>((after, reward_after)),
    ensures
        forall|k: Seq<u8>|
            #[trigger] utxos.contains_key(k) && (forall|i: int| 0 <= i < tx.inputs@.len() ==> #[trigger] tx.inputs@[i].outpoint@ != k)
                ==> after.contains_key(k) && after[k] == utxos[k],
        output_keys(transaction_encoding(tx), tx.outputs@.len()).no_duplicates() ==> forall|j: int|
            0 <= j < tx.outputs@.len() ==> after.contains_key(#[trigger] output_key(transaction_encoding(tx), j as nat))
                && after[output_key(transaction_encoding(tx), j as nat)] == tx.outputs@[j],
{
    let enc = transaction_encoding(tx);
    let removed = remove_outpoints(utxos, tx.inputs@);
    lemma_scan_outputs_ok(utxos, enc, tx.outputs@);
    assert forall|k: Seq<u8>|
        #[trigger] utxos.contains_key(k) && (forall|i: int| 0 <= i < tx.inputs@.len() ==> #[trigger] tx.inputs@[i].outpoint@ != k)
            implies after.contains_key(k) && after[k] == utxos[k] by {
        lemma_remove_outpoints_contents(utxos, tx.inputs@, k);
        assert forall|j: int| 0 <= j < tx.outputs@.len() implies #[trigger] output_key(enc, j as nat) != k by {
            assert(!utxos.contains_key(output_key(enc, j as nat)));
        }
        lemma_insert_outputs_contents(removed, enc, tx.outputs@, k);
    }
    if output_keys(enc, tx.outputs@.len()).no_duplicates() {
        assert forall|j: int| 0 <= j < tx.outputs@.len() implies after.contains_key(#[trigger] output_key(enc, j as nat))
            && after[output_key(enc, j as nat)] == tx.outputs@[j] by {
            lemma_insert_outputs_lookup(removed, enc, tx.outputs@, j);
        }
    }
}

/// Storing outputs under distinct fresh keys adds their value to the total.
proof fn lemma_total_insert_outputs(m: Utxos, encoded: Seq<u8>, outputs: Seq<TransactionOutput>)
    requires
        m.dom().finite(),
        output_keys(encoded, outputs.len()).no_duplicates(),
        forall|j: int| 0 <= j < outputs.len() ==> !m.contains_key(#[trigger] output_key(encoded, j as nat)),
    ensures
        insert_outputs(m, encoded, outputs).dom().finite(),
        map_total(insert_outputs(m, encoded, outputs)) == map_total(m) + outputs_value(outputs),
    decreases outputs.len(),
{
    if outputs.len() > 0 {
        let s = outputs.drop_last();
        let n = (outputs.len() - 1) as nat;
        let k = output_key(encoded, n);
        assert forall|a: int, b: int| 0 <= a < s.len() && 0 <= b < s.len() && a != b
            implies output_keys(encoded, s.len())[a] != output_keys(encoded, s.len())[b] by {
            assert(output_keys(encoded, outputs.len())[a] == output_keys(encoded, s.len())[a]);
            assert(output_keys(encoded, outputs.len())[b] == output_keys(encoded, s.len())[b]);
        }
        assert forall|j: int| 0 <= j < s.len() implies !m.contains_key(#[trigger] output_key(encoded, j as nat)) by {
            assert(!m.contains_key(output_key(encoded, j as nat)));
        }
        lemma_total_insert_outputs(m, encoded, s);
        let i = insert_outputs(m, encoded, s);
        lemma_insert_outputs_contents(m, encoded, s, k);
        if i.contains_key(k) {
            assert(!m.contains_key(k));
            let j = choose|j: int| 0 <= j < s.len() && #[trigger] output_key(encoded, j as nat) == k;
            assert(output_keys(encoded, outputs.len())[j] == output_keys(encoded, outputs.len())[n as int]);
        }
        lemma_total_insert_fresh(i, k, outputs.last());
    }
}

/// Applying a valid transaction with no missing input neither creates nor destroys
/// value: the value held by the unspent outputs afterwards plus the fee equals the value
/// held before. This is what `update_storage` does to the store.
///
/// Validation already makes the inputs name distinct UTXOs. The law further needs that
/// the keys of the new outputs are distinct, which holds unless two preimages collide
/// under BLAKE2b; otherwise one output overwrites another.
pub proof fn lemma_spent_conserves_value(utxos: Utxos, tx: Transaction)
    requires
        utxos.dom().finite(),
        validation(utxos, tx) matches Ok((missing, _, _)) && missing.len() == 0,
        output_keys(transaction_encoding(tx), tx.outputs@.len()).no_duplicates(),
    ensures
        spent(utxos, tx).dom().finite(),
        validation(utxos, tx) matches Ok((_, _, fee)) && map_total(spent(utxos, tx)) + fee == map_total(utxos),
{
    let enc = transaction_encoding(tx);
    let msg = simple_encoding(tx);
    lemma_scan_inputs_ok(utxos, tx.inputs@, msg);
    lemma_scan_outputs_ok(utxos, enc, tx.outputs@);
    lemma_none_missing(utxos, tx.inputs@);
    lemma_total_remove_outpoints(utxos, tx.inputs@);
    let removed = remove_outpoints(utxos, tx.inputs@);
    assert forall|j: int| 0 <= j < tx.outputs@.len() implies !removed.contains_key(#[trigger] output_key(enc, j as nat)) by {
        lemma_remove_outpoints_contents(utxos, tx.inputs@, output_key(enc, j as nat));
    }
    lemma_total_insert_outputs(removed, enc, tx.outputs@);
}

/// Value is conserved by a transaction: the value held by the unspent outputs plus the
/// accumulated reward is the same before and after an accepted spend. What the outputs
/// create is taken from the inputs, and the difference goes to the reward.
///
/// Validation already makes the inputs name distinct UTXOs. The law further needs that
/// the keys of the new outputs are distinct (which holds unless two preimages collide
/// under BLAKE2b), and that the fee fits in the 64 bits of a transaction's priority;
/// without these the runtime itself overwrites an output, or truncates the fee.
pub proof fn lemma_spend_conserves_value(utxos: Utxos, reward: Value, tx: Transaction, after: Utxos, reward_after: Value)
    requires
        utxos.dom().finite(),
        spend_outcome(utxos, reward, tx) == Ok::<(Utxos, Value), UtxoError>((after, reward_after)),
        output_keys(transaction_encoding(tx), tx.outputs@.len()).no_duplicates(),
        validation(utxos, tx) matches Ok((_, _, fee)) && fee < 0x1_0000_0000_0000_0000,
    ensures
        after.dom().finite(),
        map_total(after) + reward_after == map_total(utxos) + reward,
{
    lemma_spent_conserves_value(utxos, tx);
}

/// A transaction that has been applied no longer validates: once `tx` passed validation
/// against `utxos` and its outputs were stored, validating it against the resulting
/// unspent outputs fails, at the latest because its first output's key is taken.
pub proof fn lemma_validation_fails_after_spent(utxos: Utxos, tx: Transaction)
    requires
        validation(utxos, tx) is Ok,
    ensures
        validation(spent(utxos, tx), tx) is Err,
{
    let after = spent(utxos, tx);
    let enc = transaction_encoding(tx);
    lemma_scan_outputs_ok(utxos, enc, tx.outputs@);
    let removed = remove_outpoints(utxos, tx.inputs@);
    assert(tx.outputs@.len() > 0);
    let k0 = output_key(enc, 0int as nat);
    lemma_insert_outputs_contents(removed, enc, tx.outputs@, k0);
    assert(0 <= 0int < tx.outputs@.len() && output_key(enc, 0int as nat) == k0);
    assert(after.contains_key(k0));
    assert(tx.outputs@[0].value > 0);
    if scan_inputs(after, tx.inputs@, simple_encoding(tx)) is Ok {
        let first = tx.outputs@.take(1);
        assert(first.drop_last() =~= Seq::<TransactionOutput>::empty());
        assert(first.len() == 1);
        assert(first.last() == tx.outputs@[0]);
        assert(scan_outputs(after, enc, first.drop_last()) == Ok::<nat, UtxoError>(0));
        assert(scan_outputs(after, enc, first) == Err::<nat, UtxoError>(UtxoError::OutputAlreadyExists));
        crate::utxo::lemma_scan_outputs_prefix(after, enc, tx.outputs@, 1);
    }
}

/// A transaction cannot be spent twice: once it has been accepted, dispatching it again
/// on the resulting state is refused.
pub proof fn lemma_spend_not_replayable(utxos: Utxos, reward: Value, tx: Transaction, after: Utxos, reward_after: Value)
    requires
        spend_outcome(utxos, reward, tx) == Ok::<(Utxos, Value), UtxoError>((after, reward_after)),
    ensures
        spend_outcome(after, reward_after, tx) is Err,
{
    lemma_validation_fails_after_spent(utxos, tx);
}

/// The outpoints that validation reports as required are exactly the missing UTXOs that
/// `get_missing_utxos` lists.
pub proof fn lemma_requires_are_missing_utxos(utxos: Utxos, tx: Transaction)
    requires
        validation(utxos, tx) is Ok,
    ensures
        validation(utxos, tx) matches Ok((missing, _, _)) && missing == missing_outpoints(utxos, tx.inputs@),
{
}

/// A signature commits to the whole transaction but its signatures: two transactions
/// with the same signed message spend the same outpoints, in the same order, and create
/// the same outputs. So a relaying node cannot change the outputs of a signed
/// transaction without invalidating its signatures.
pub proof fn lemma_signed_message_binds_transaction(a: Transaction, b: Transaction)
    requires
        a.inputs@.len() <= u32::MAX,
        a.outputs@.len() <= u32::MAX,
        b.inputs@.len() <= u32::MAX,
        b.outputs@.len() <= u32::MAX,
        simple_encoding(a) == simple_encoding(b),
    ensures
        a.inputs@.len() == b.inputs@.len(),
        forall|i: int| 0 <= i < a.inputs@.len() ==> (#[trigger] a.inputs@[i]).outpoint == b.inputs@[i].outpoint,
        a.outputs@ == b.outputs@,
{
    let sa = a.inputs@.map_values(|i: TransactionInput| strip_input(i));
    let sb = b.inputs@.map_values(|i: TransactionInput| strip_input(i));
    lemma_lists_encoding_injective(sa, a.outputs@, sb, b.outputs@);
    assert forall|i: int| 0 <= i < a.inputs@.len() implies (#[trigger] a.inputs@[i]).outpoint == b.inputs@[i].outpoint by {
        assert(sa[i] == sb[i]);
    }
}

/// The message that inputs sign does not depend on the signatures: two transactions that
/// differ only in their signatures have the same stripped encoding.
pub proof fn lemma_simple_encoding_ignores_signatures(a: Transaction, b: Transaction)
    requires
        a.inputs@.len() == b.inputs@.len(),
        forall|i: int| 0 <= i < a.inputs@.len() ==> (#[trigger] a.inputs@[i]).outpoint == b.inputs@[i].outpoint,
        a.outputs@ == b.outputs@,
    ensures
        simple_encoding(a) == simple_encoding(b),
{
    assert(a.inputs@.map_values(|i: TransactionInput| strip_input(i)) =~= b.inputs@.map_values(|i: TransactionInput| strip_input(i)));
}

/// A block reward moves the accumulated reward, plus the issuance, into a new UTXO: when
/// the reward's key is fresh, the value held by the unspent outputs grows by exactly the
/// accumulated reward and the issuance, while the accumulated reward drops to zero.
pub proof fn lemma_reward_adds_issuance(utxos: Utxos, reward: Value, issuance: Value, author: Public, block_number: nat)
    requires
        utxos.dom().finite(),
        reward + issuance <= u128::MAX,
        !utxos.contains_key(reward_key((TransactionOutput { value: (reward + issuance) as Value, pubkey: author }), block_number)),
    ensures
        map_total(utxos.insert(
            reward_key((TransactionOutput { value: (reward + issuance) as Value, pubkey: author }), block_number),
            (TransactionOutput { value: (reward + issuance) as Value, pubkey: author }),
        )) == map_total(utxos) + reward + issuance,
{
    let o = TransactionOutput { value: (reward + issuance) as Value, pubkey: author };
    lemma_total_insert_fresh(utxos, reward_key(o, block_number), o);
}


/// The key of output number `j` of a transaction encoded as `encoded` is the BLAKE2b
/// hash of the encoding, wrapped as a byte string, followed by the full index `j` in 8
/// little-endian bytes.
pub proof fn lemma_output_key_hashes_full_index(encoded: Seq<u8>, j: nat)
    ensures
        output_key(encoded, j) == index_hash(encoded, j),
{
}

/// Distinct output indices give distinct hashed bytes: the index is hashed in full.
pub proof fn lemma_output_preimages_distinct(encoded: Seq<u8>, i: nat, j: nat)
    requires
        i < 0x1_0000_0000_0000_0000,
        j < 0x1_0000_0000_0000_0000,
        i != j,
    ensures
        compact_u32(encoded.len()) + encoded + le_bytes(i, 8) != compact_u32(encoded.len()) + encoded + le_bytes(j, 8),
{
    if compact_u32(encoded.len()) + encoded + le_bytes(i, 8) == compact_u32(encoded.len()) + encoded + le_bytes(j, 8) {
        lemma_concat_split(compact_u32(encoded.len()) + encoded, le_bytes(i, 8), compact_u32(encoded.len()) + encoded, le_bytes(j, 8));
        assert(pow256(8) == 0x1_0000_0000_0000_0000) by {
            reveal_with_fuel(pow256, 9);
        }
        lemma_le_bytes_injective(i, j, 8);
    }
}

/// The BLAKE2b hash of a transaction's encoding, wrapped as a byte string, followed by
/// the index `j` in 8 little-endian bytes.
pub open spec fn index_hash(encoded: Seq<u8>, j: nat) -> Seq<u8> {
    blake2_256(compact_u32(encoded.len()) + encoded + le_bytes(j, 8))
}

/// Whether BLAKE2b gives distinct hashes to the bytes hashed for the `m` outputs of a
/// transaction encoded as `encoded` (their bytes are distinct; only a hash collision
/// makes two hashes equal).
pub open spec fn output_hashes_distinct(encoded: Seq<u8>, m: nat) -> bool {
    forall|i: int, j: int| 0 <= i < m && 0 <= j < m && i != j ==>
        #[trigger] index_hash(encoded, i as nat) != #[trigger] index_hash(encoded, j as nat)
}

/// Distinct hashes of the outputs' bytes are distinct output keys.
proof fn lemma_distinct_hashes_give_distinct_keys(encoded: Seq<u8>, m: nat)
    requires
        output_hashes_distinct(encoded, m),
    ensures
        output_keys(encoded, m).no_duplicates(),
{
    assert forall|i: int, j: int| 0 <= i < m && 0 <= j < m && i != j implies output_keys(encoded, m)[i] != output_keys(encoded, m)[j] by {
        lemma_output_key_hashes_full_index(encoded, i as nat);
        lemma_output_key_hashes_full_index(encoded, j as nat);
    }
}

/// Validation provides, for each output `j` in order, the hash of the transaction's
/// encoding wrapped as a byte string followed by `j` in 8 little-endian bytes.
pub proof fn lemma_provides_are_output_hashes(utxos: Utxos, tx: Transaction)
    requires
        validation(utxos, tx) is Ok,
    ensures
        validation(utxos, tx) matches Ok((_, provides, _)) && provides.len() == tx.outputs@.len()
            && forall|j: int| 0 <= j < tx.outputs@.len() ==> #[trigger] provides[j] == index_hash(transaction_encoding(tx), j as nat),
{
}

/// An accepted spend stores each output `j` under the hash of the transaction's
/// encoding, wrapped as a byte string, followed by `j` in 8 little-endian bytes, unless
/// two of those hashes collide.
pub proof fn lemma_spend_stores_each_output(utxos: Utxos, reward: Value, tx: Transaction, after: Utxos, reward_after: Value)
    requires
        spend_outcome(utxos, reward, tx) == Ok::<(Utxos, Value), UtxoError>((after, reward_after)),
        output_hashes_distinct(transaction_encoding(tx), tx.outputs@.len()),
    ensures
        forall|j: int| 0 <= j < tx.outputs@.len() ==> {
            &&& after.contains_key(#[trigger] index_hash(transaction_encoding(tx), j as nat))
            &&& after[index_hash(transaction_encoding(tx), j as nat)] == tx.outputs@[j]
        },
{
    let enc = transaction_encoding(tx);
    lemma_distinct_hashes_give_distinct_keys(enc, tx.outputs@.len());
    lemma_spend_frame(utxos, reward, tx, after, reward_after);
    assert forall|j: int| 0 <= j < tx.outputs@.len() implies {
        &&& after.contains_key(#[trigger] index_hash(enc, j as nat))
        &&& after[index_hash(enc, j as nat)] == tx.outputs@[j]
    } by {
        lemma_output_key_hashes_full_index(enc, j as nat);
        assert(after.contains_key(output_key(enc, j as nat)));
    }
}

/// Value is conserved by an accepted spend whose outputs' hashes do not collide and
/// whose fee fits in 64 bits: the value held by the unspent outputs plus the accumulated
/// reward is the same before and after.
pub proof fn lemma_spend_conserves_value_without_collision(utxos: Utxos, reward: Value, tx: Transaction, after: Utxos, reward_after: Value)
    requires
        utxos.dom().finite(),
        spend_outcome(utxos, reward, tx) == Ok::<(Utxos, Value), UtxoError>((after, reward_after)),
        output_hashes_distinct(transaction_encoding(tx), tx.outputs@.len()),
        validation(utxos, tx) matches Ok((_, _, fee)) && fee < 0x1_0000_0000_0000_0000,
    ensures
        after.dom().finite(),
        map_total(after) + reward_after == map_total(utxos) + reward,
{
    lemma_distinct_hashes_give_distinct_keys(transaction_encoding(tx), tx.outputs@.len());
    lemma_spend_conserves_value(utxos, reward, tx, after, reward_after);
}

/// Scanning inputs only ever refuses for a bad signature or an overflowing sum.
proof fn lemma_scan_inputs_errors(utxos: Utxos, inputs: Seq<TransactionInput>, msg: Seq<u8>)
    ensures
        scan_inputs(utxos, inputs, msg) matches Err(e) ==> e == UtxoError::InvalidSignature || e == UtxoError::InputValueOverflow,
    decreases inputs.len(),
{
    if inputs.len() > 0 {
        lemma_scan_inputs_errors(utxos, inputs.drop_last(), msg);
    }
}

/// Scanning outputs only ever refuses for a zero value, a taken key or an overflowing sum.
proof fn lemma_scan_outputs_errors(utxos: Utxos, encoded: Seq<u8>, outputs: Seq<TransactionOutput>)
    ensures
        scan_outputs(utxos, encoded, outputs) matches Err(e) ==> e == UtxoError::ZeroOutputValue
            || e == UtxoError::OutputAlreadyExists || e == UtxoError::OutputValueOverflow,
    decreases outputs.len(),
{
    if outputs.len() > 0 {
        lemma_scan_outputs_errors(utxos, encoded, outputs.drop_last());
    }
}

/// The checks on the lists, exactly: validation refuses for missing inputs or outputs
/// exactly when a list is empty, for a duplicate input exactly when two inputs name the
/// same outpoint, and for a duplicate output exactly when two outputs carry the same
/// value to the same key.
pub proof fn lemma_list_errors(utxos: Utxos, tx: Transaction)
    ensures
        validation(utxos, tx) == Err::<(Seq<Seq<u8>>, Seq<Seq<u8>>, nat), UtxoError>(UtxoError::NoInputs)
            <==> tx.inputs@.len() == 0,
        validation(utxos, tx) == Err::<(Seq<Seq<u8>>, Seq<Seq<u8>>, nat), UtxoError>(UtxoError::NoOutputs)
            <==> tx.inputs@.len() > 0 && tx.outputs@.len() == 0,
        validation(utxos, tx) == Err::<(Seq<Seq<u8>>, Seq<Seq<u8>>, nat), UtxoError>(UtxoError::DuplicateInput)
            <==> tx.inputs@.len() > 0 && tx.outputs@.len() > 0 && exists|i: int, j: int|
                0 <= i < j < tx.inputs@.len() && #[trigger] tx.inputs@[i].outpoint@ == #[trigger] tx.inputs@[j].outpoint@,
        validation(utxos, tx) == Err::<(Seq<Seq<u8>>, Seq<Seq<u8>>, nat), UtxoError>(UtxoError::DuplicateOutput)
            <==> {
                &&& tx.inputs@.len() > 0
                &&& tx.outputs@.len() > 0
                &&& forall|i: int, j: int| 0 <= i < j < tx.inputs@.len() ==> #[trigger] tx.inputs@[i].outpoint@ != #[trigger] tx.inputs@[j].outpoint@
                &&& exists|i: int, j: int| 0 <= i < j < tx.outputs@.len()
                    && #[trigger] tx.outputs@[i].value == #[trigger] tx.outputs@[j].value
                    && tx.outputs@[i].pubkey@ == tx.outputs@[j].pubkey@
            },
{
    lemma_scan_inputs_errors(utxos, tx.inputs@, simple_encoding(tx));
    lemma_scan_outputs_errors(utxos, transaction_encoding(tx), tx.outputs@);
    let ins = tx.inputs@;
    let outs = tx.outputs@;
    let ops = outpoints(ins);
    if ops.no_duplicates() {
        assert forall|i: int, j: int| 0 <= i < j < ins.len() implies #[trigger] ins[i].outpoint@ != #[trigger] ins[j].outpoint@ by {
            assert(ops[i] == ins[i].outpoint@ && ops[j] == ins[j].outpoint@);
        }
    } else {
        let (i, j) = choose|i: int, j: int| 0 <= i < ops.len() && 0 <= j < ops.len() && i != j && ops[i] == ops[j];
        if i < j {
            assert(ins[i].outpoint@ == ins[j].outpoint@);
        } else {
            assert(ins[j].outpoint@ == ins[i].outpoint@);
        }
    }
    if (exists|i: int, j: int| 0 <= i < j < ins.len() && #[trigger] ins[i].outpoint@ == #[trigger] ins[j].outpoint@) {
        let (i, j) = choose|i: int, j: int| 0 <= i < j < ins.len() && #[trigger] ins[i].outpoint@ == #[trigger] ins[j].outpoint@;
        assert(ops[i] == ops[j]);
    }
    if outs.no_duplicates() {
        assert forall|i: int, j: int| 0 <= i < j < outs.len() && #[trigger] outs[i].value == #[trigger] outs[j].value
            implies outs[i].pubkey@ != outs[j].pubkey@ by {
            if outs[i].pubkey@ == outs[j].pubkey@ {
                assert(outs[i].pubkey == outs[j].pubkey);
                assert(outs[i] == outs[j]);
            }
        }
    } else {
        let (i, j) = choose|i: int, j: int| 0 <= i < outs.len() && 0 <= j < outs.len() && i != j && outs[i] == outs[j];
        if i < j {
            assert(outs[i].value == outs[j].value && outs[i].pubkey@ == outs[j].pubkey@);
        } else {
            assert(outs[j].value == outs[i].value && outs[j].pubkey@ == outs[i].pubkey@);
        }
    }
}

/// The missing outpoints are exactly the outpoints of the inputs whose UTXOs are absent,
/// in the order of the inputs.
pub proof fn lemma_missing_are_absent_outpoints(utxos: Utxos, inputs: Seq<TransactionInput>)
    ensures
        missing_outpoints(utxos, inputs)
            == inputs.filter(|i: TransactionInput| !utxos.contains_key(i.outpoint@)).map_values(|i: TransactionInput| i.outpoint@),
    decreases inputs.len(),
{
    reveal_with_fuel(Seq::filter, 1);
    if inputs.len() > 0 {
        lemma_missing_are_absent_outpoints(utxos, inputs.drop_last());
        let p = |i: TransactionInput| !utxos.contains_key(i.outpoint@);
        let f = |i: TransactionInput| i.outpoint@;
        let rest = inputs.drop_last().filter(p);
        if p(inputs.last()) {
            assert(rest.push(inputs.last()).map_values(f) =~= rest.map_values(f).push(f(inputs.last())));
        }
    }
}

/// The key of a reward UTXO is the BLAKE2b hash of the output's encoding followed by
/// the full block number in 8 little-endian bytes.
pub proof fn lemma_reward_key_hashes_block_number(o: TransactionOutput, block_number: nat)
    ensures
        reward_key(o, block_number) == blake2_256(output_encoding(o) + le_bytes(block_number, 8)),
{
}

/// Distinct block numbers give distinct hashed bytes for the same reward output.
pub proof fn lemma_reward_preimages_distinct(o: TransactionOutput, n1: nat, n2: nat)
    requires
        n1 < 0x1_0000_0000_0000_0000,
        n2 < 0x1_0000_0000_0000_0000,
        n1 != n2,
    ensures
        output_encoding(o) + le_bytes(n1, 8) != output_encoding(o) + le_bytes(n2, 8),
{
    if output_encoding(o) + le_bytes(n1, 8) == output_encoding(o) + le_bytes(n2, 8) {
        lemma_concat_split(output_encoding(o), le_bytes(n1, 8), output_encoding(o), le_bytes(n2, 8));
        assert(pow256(8) == 0x1_0000_0000_0000_0000) by {
            reveal_with_fuel(pow256, 9);
        }
        lemma_le_bytes_injective(n1, n2, 8);
    }
}

/// The genesis UTXOs are exactly the genesis outputs, each under the BLAKE2b hash of its
/// encoding: every output's key is present, every key present is some output's, and
/// what is stored under a key is an output whose encoding hashes to that key.
pub proof fn lemma_genesis_holds_every_output(outputs: Seq<TransactionOutput>)
    ensures
        forall|i: int| 0 <= i < outputs.len() ==>
            genesis_utxos(outputs).contains_key(blake2_256(output_encoding(#[trigger] outputs[i]))),
        forall|k: Seq<u8>| #[trigger] genesis_utxos(outputs).contains_key(k) ==> exists|j: int|
            0 <= j < outputs.len() && genesis_utxos(outputs)[k] == #[trigger] outputs[j]
                && blake2_256(output_encoding(outputs[j])) == k,
    decreases outputs.len(),
{
    if outputs.len() > 0 {
        let s = outputs.drop_last();
        lemma_genesis_holds_every_output(s);
        let g = genesis_utxos(outputs);
        assert forall|i: int| 0 <= i < outputs.len() implies g.contains_key(blake2_256(output_encoding(#[trigger] outputs[i]))) by {
            if i < outputs.len() - 1 {
                assert(s[i] == outputs[i]);
            }
        }
        assert forall|k: Seq<u8>| #[trigger] g.contains_key(k) implies exists|j: int|
            0 <= j < outputs.len() && g[k] == #[trigger] outputs[j] && blake2_256(output_encoding(outputs[j])) == k by {
            let last = (outputs.len() - 1) as int;
            if k == blake2_256(output_encoding(outputs[last])) {
                assert(g[k] == outputs[last]);
            } else {
                let j = choose|j: int| 0 <= j < s.len() && genesis_utxos(s)[k] == #[trigger] s[j] && blake2_256(output_encoding(s[j])) == k;
                assert(outputs[j] == s[j]);
            }
        }
    }
}

} // verus!
