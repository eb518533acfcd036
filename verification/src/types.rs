use vstd::prelude::*;

verus! {

/// Amount of value held by an output.
pub type Value = u128;

/// A 256-bit hash or public key, as raw bytes.
pub type H256 = [u8; 32];

/// A 512-bit signature, as raw bytes.
pub type H512 = [u8; 64];

/// An sr25519 public key, as raw bytes.
pub type Public = [u8; 32];

/// Single transaction input that refers to one UTXO.
#[derive(Clone, Copy, Debug, PartialEq, Eq, PartialOrd, Ord, Hash)]
pub struct TransactionInput {
    /// Reference to an UTXO to be spent.
    pub outpoint: H256,
    /// Proof that the transaction owner is authorized to spend the referred UTXO and
    /// that the entire transaction is untampered.
    pub sigscript: H512,
}

/// Single transaction output to create upon transaction dispatch.
#[derive(Clone, Copy, Debug, PartialEq, Eq, PartialOrd, Ord, Hash, Default)]
pub struct TransactionOutput {
    /// Value associated with this output.
    pub value: Value,
    /// Public key associated with this output. In order to spend this output the owner
    /// must hash the whole transaction and sign it with the matching private key.
    pub pubkey: H256,
}

/// Single transaction to be dispatched.
#[derive(Clone, Debug, PartialEq, Eq, PartialOrd, Ord, Hash, Default)]
pub struct Transaction {
    /// UTXOs to be used as inputs for this transaction.
    pub inputs: Vec<TransactionInput>,
    /// UTXOs to be created as a result of dispatching this transaction.
    pub outputs: Vec<TransactionOutput>,
}

impl Default for TransactionInput {
    fn default() -> (r: Self)
        ensures
            r.outpoint@ == Seq::new(32, |i: int| 0u8),
            r.sigscript@ == Seq::new(64, |i: int| 0u8),
    {
        let r = TransactionInput { outpoint: [0u8; 32], sigscript: [0u8; 64] };
        assert(r.outpoint@ =~= Seq::new(32, |i: int| 0u8));
        assert(r.sigscript@ =~= Seq::new(64, |i: int| 0u8));
        r
    }
}

/// Why a transaction or a block reward is refused.
#[derive(Clone, Copy, Debug, PartialEq, Eq, Structural)]
pub enum UtxoError {
    /// The transaction has no inputs.
    NoInputs,
    /// The transaction has no outputs.
    NoOutputs,
    /// Two inputs of the transaction name the same outpoint.
    DuplicateInput,
    /// Two outputs of the transaction are equal.
    DuplicateOutput,
    /// An input's signature does not verify against the UTXO it spends.
    InvalidSignature,
    /// The sum of the spent values does not fit in a `Value`.
    InputValueOverflow,
    /// An output carries no value.
    ZeroOutputValue,
    /// The key of a new output is already taken by an unspent output.
    OutputAlreadyExists,
    /// The sum of the output values does not fit in a `Value`.
    OutputValueOverflow,
    /// The outputs carry more value than the inputs.
    OutputExceedsInput,
    /// Some inputs refer to UTXOs that are not (yet) in the store.
    MissingInputs,
    /// The accumulated reward does not fit in a `Value`.
    RewardOverflow,
}

impl UtxoError {
    /// The message that the runtime reports for this error.
    pub fn message(&self) -> (r: &'static str)
        ensures
            *self == UtxoError::NoInputs ==> r@ == "no inputs"@,
            *self == UtxoError::NoOutputs ==> r@ == "no outputs"@,
            *self == UtxoError::DuplicateInput ==> r@ == "each input must only be used once"@,
            *self == UtxoError::DuplicateOutput ==> r@ == "each output must be defined only once"@,
            *self == UtxoError::InvalidSignature ==> r@ == "signature must be valid"@,
            *self == UtxoError::InputValueOverflow ==> r@ == "input value overflow"@,
            *self == UtxoError::ZeroOutputValue ==> r@ == "output value must be nonzero"@,
            *self == UtxoError::OutputAlreadyExists ==> r@ == "output already exists"@,
            *self == UtxoError::OutputValueOverflow ==> r@ == "output value overflow"@,
            *self == UtxoError::OutputExceedsInput ==> r@ == "output value must not exceed input value"@,
            *self == UtxoError::MissingInputs ==> r@ == "missing inputs"@,
            *self == UtxoError::RewardOverflow ==> r@ == "Reward overflow"@,
    {
        match self {
            UtxoError::NoInputs => "no inputs",
            UtxoError::NoOutputs => "no outputs",
            UtxoError::DuplicateInput => "each input must only be used once",
            UtxoError::DuplicateOutput => "each output must be defined only once",
            UtxoError::InvalidSignature => "signature must be valid",
            UtxoError::InputValueOverflow => "input value overflow",
            UtxoError::ZeroOutputValue => "output value must be nonzero",
            UtxoError::OutputAlreadyExists => "output already exists",
            UtxoError::OutputValueOverflow => "output value overflow",
            UtxoError::OutputExceedsInput => "output value must not exceed input value",
            UtxoError::MissingInputs => "missing inputs",
            UtxoError::RewardOverflow => "Reward overflow",
        }
    }
}

/// What the runtime reports after a transaction or a block.
#[derive(Clone, Debug, PartialEq, Eq)]
pub enum Event {
    /// Transaction was executed successfully.
    TransactionSuccess(Transaction),
    /// Rewards were issued: amount and key of the new UTXO.
    RewardsIssued(Value, H256),
    /// Rewards were wasted.
    RewardsWasted,
}

/// What the transaction pool learns of a transaction that passed validation.
#[derive(Clone, Debug, PartialEq, Eq)]
pub struct ValidTransaction {
    /// Priority of the transaction: its fee, truncated to 64 bits.
    pub priority: u64,
    /// Tags that must be provided before this transaction can be included: the
    /// outpoints of inputs whose UTXOs are not in the store.
    pub requires: Vec<Vec<u8>>,
    /// Tags that this transaction provides: the keys of its new outputs.
    pub provides: Vec<Vec<u8>>,
    /// Number of blocks for which the transaction stays valid.
    pub longevity: u64,
    /// Whether the transaction is propagated to other peers.
    pub propagate: bool,
}

} // verus!
