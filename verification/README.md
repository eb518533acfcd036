# utxo_runtime

A verified UTXO ledger module for a Substrate-style runtime, with the signature records
of a multi-branch post-quantum signature scheme.

- `src/types.rs`: transactions, inputs, outputs, errors, events, and the summary that the
  transaction pool gets of a validated transaction.
- `src/encoding.rs`: the SCALE encoding of transactions and of the preimages of output
  keys, built on `parity-scale-codec`, with a proof that the encoding is injective.
- `src/crypto.rs`: BLAKE2b-256 hashing (`sp-runtime`) and sr25519 signature checks (`sp-io`).
- `src/store.rs`: the map from output keys to unspent outputs.
- `src/utxo.rs`: validation, dispatch of transactions, block rewards, genesis.
- `src/laws.rs`: value conservation, replay protection, framing, and the binding of
  signatures to outputs.
- `src/signature.rs`: root, grow and message signature records.
- `app/lib.rs`: serde forms of the transaction types and conversions to Substrate types.
