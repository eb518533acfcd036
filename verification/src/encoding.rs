use vstd::prelude::*;
use parity_scale_codec::Encode;
use crate::types::{TransactionInput, TransactionOutput, Transaction};

verus! {

/// The `k` least significant bytes of `x`, least significant first.
pub open spec fn le_bytes(x: nat, k: nat) -> Seq<u8>
    decreases k,
{
    if k == 0 {
        seq![]
    } else {
        seq![(x % 256) as u8] + le_bytes(x / 256, (k - 1) as nat)
    }
}

/// The SCALE compact encoding of a 32-bit length `n`.
pub open spec fn compact_u32(n: nat) -> Seq<u8> {
    if n < 64 {
        seq![(n * 4) as u8]
    } else if n < 0x4000 {
        le_bytes(n * 4 + 1, 2)
    } else if n < 0x4000_0000 {
        le_bytes(n * 4 + 2, 4)
    } else {
        seq![3u8] + le_bytes(n, 4)
    }
}

/// The encoding of one input: the outpoint, then the signature.
pub open spec fn input_encoding(i: TransactionInput) -> Seq<u8> {
    i.outpoint@ + i.sigscript@
}

/// The encoding of one output: the value in 16 little-endian bytes, then the key.
pub open spec fn output_encoding(o: TransactionOutput) -> Seq<u8> {
    le_bytes(o.value as nat, 16) + o.pubkey@
}

/// The encodings of the inputs, one after the other.
pub open spec fn inputs_encoding(s: Seq<TransactionInput>) -> Seq<u8>
    decreases s.len(),
{
    if s.len() == 0 {
        seq![]
    } else {
        inputs_encoding(s.drop_last()) + input_encoding(s.last())
    }
}

/// The encodings of the outputs, one after the other.
pub open spec fn outputs_encoding(s: Seq<TransactionOutput>) -> Seq<u8>
    decreases s.len(),
{
    if s.len() == 0 {
        seq![]
    } else {
        outputs_encoding(s.drop_last()) + output_encoding(s.last())
    }
}

/// The SCALE encoding of a transaction with these inputs and outputs: each list is
/// prefixed by its compact length.
pub open spec fn lists_encoding(inputs: Seq<TransactionInput>, outputs: Seq<TransactionOutput>) -> Seq<u8> {
    compact_u32(inputs.len()) + inputs_encoding(inputs) + compact_u32(outputs.len())
        + outputs_encoding(outputs)
}

/// The SCALE encoding of a transaction.
pub open spec fn transaction_encoding(tx: Transaction) -> Seq<u8> {
    lists_encoding(tx.inputs@, tx.outputs@)
}

/// An input with its signature replaced by zero bytes.
pub open spec fn strip_input(i: TransactionInput) -> TransactionInput {
    TransactionInput { outpoint: i.outpoint, sigscript: [0u8; 64usize] }
}

/// The encoding of a transaction whose signatures are all replaced by zero bytes: the
/// message that each input's signature signs.
pub open spec fn simple_encoding(tx: Transaction) -> Seq<u8> {
    lists_encoding(tx.inputs@.map_values(|i: TransactionInput| strip_input(i)), tx.outputs@)
}

/// Whether the encoding of `tx` is short enough to be wrapped into a byte string: its
/// length must fit the compact 32-bit prefix that SCALE puts before every list.
pub open spec fn encodable(tx: Transaction) -> bool {
    transaction_encoding(tx).len() <= u32::MAX
}

/// The bytes whose hash is the key of output number `index` of a transaction encoded as
/// `encoded`: the encoding as a byte string, then the index in 8 little-endian bytes.
pub open spec fn output_key_preimage(encoded: Seq<u8>, index: nat) -> Seq<u8> {
    compact_u32(encoded.len()) + encoded + le_bytes(index, 8)
}

/// The bytes whose hash is the key of a reward output created at `block_number`.
pub open spec fn reward_key_preimage(o: TransactionOutput, block_number: nat) -> Seq<u8> {
    output_encoding(o) + le_bytes(block_number, 8)
}

/// `le_bytes(x, k)` holds `k` bytes.
pub proof fn lemma_le_bytes_len(x: nat, k: nat)
    ensures
        le_bytes(x, k).len() == k,
    decreases k,
{
    if k > 0 {
        lemma_le_bytes_len(x / 256, (k - 1) as nat);
    }
}

/// A compact prefix is one to five bytes long.
pub proof fn lemma_compact_len(n: nat)
    ensures
        1 <= compact_u32(n).len() <= 5,
        compact_u32(n).len() == (if n < 64 { 1int } else if n < 0x4000 { 2int } else if n < 0x4000_0000 { 4int } else { 5int }),
{
    lemma_le_bytes_len(n * 4 + 1, 2);
    lemma_le_bytes_len(n * 4 + 2, 4);
    lemma_le_bytes_len(n, 4);
}

/// Each input takes 96 bytes of the encoding.
pub proof fn lemma_inputs_encoding_len(s: Seq<TransactionInput>)
    ensures
        inputs_encoding(s).len() == 96 * s.len(),
    decreases s.len(),
{
    if s.len() > 0 {
        lemma_inputs_encoding_len(s.drop_last());
    }
}

/// Each output takes 48 bytes of the encoding.
pub proof fn lemma_outputs_encoding_len(s: Seq<TransactionOutput>)
    ensures
        outputs_encoding(s).len() == 48 * s.len(),
    decreases s.len(),
{
    if s.len() > 0 {
        lemma_outputs_encoding_len(s.drop_last());
        lemma_le_bytes_len(s.last().value as nat, 16);
    }
}

/// An encodable transaction has fewer than 2^32 inputs and outputs, and stripping its
/// signatures keeps the length of its encoding.
pub proof fn lemma_encodable_bounds(tx: Transaction)
    requires
        encodable(tx),
    ensures
        tx.inputs@.len() <= u32::MAX,
        tx.outputs@.len() <= u32::MAX,
        simple_encoding(tx).len() == transaction_encoding(tx).len(),
{
    let stripped = tx.inputs@.map_values(|i: TransactionInput| strip_input(i));
    lemma_compact_len(tx.inputs@.len());
    lemma_compact_len(tx.outputs@.len());
    lemma_inputs_encoding_len(tx.inputs@);
    lemma_inputs_encoding_len(stripped);
    lemma_outputs_encoding_len(tx.outputs@);
}

/// The number of bytes of the compact prefix of a length `n`.
fn compact_prefix_len(n: usize) -> (r: u128)
    ensures
        r == compact_u32(n as nat).len(),
        r <= 5,
{
    proof {
        lemma_compact_len(n as nat);
    }
    if n < 64 {
        1
    } else if n < 0x4000 {
        2
    } else if n < 0x4000_0000 {
        4
    } else {
        5
    }
}

/// Whether `tx` is short enough to be encoded and wrapped into a byte string, as
/// validation and dispatch require.
pub fn is_encodable(tx: &Transaction) -> (r: bool)
    ensures
        r == encodable(*tx),
{
    proof {
        lemma_inputs_encoding_len(tx.inputs@);
        lemma_outputs_encoding_len(tx.outputs@);
    }
    let n = tx.inputs.len();
    let m = tx.outputs.len();
    let len = compact_prefix_len(n) + 96 * (n as u128) + compact_prefix_len(m) + 48 * (m as u128);
    len <= u32::MAX as u128
}

/// `256^k`.
pub open spec fn pow256(k: nat) -> nat
    decreases k,
{
    if k == 0 {
        1
    } else {
        256 * pow256((k - 1) as nat)
    }
}

/// Two numbers below `256^k` with the same `k` little-endian bytes are equal.
pub proof fn lemma_le_bytes_injective(x: nat, y: nat, k: nat)
    requires
        x < pow256(k),
        y < pow256(k),
        le_bytes(x, k) == le_bytes(y, k),
    ensures
        x == y,
    decreases k,
{
    if k > 0 {
        let p = pow256((k - 1) as nat);
        lemma_le_bytes_len(x / 256, (k - 1) as nat);
        lemma_le_bytes_len(y / 256, (k - 1) as nat);
        assert(le_bytes(x, k)[0] == (x % 256) as u8);
        assert(le_bytes(y, k)[0] == (y % 256) as u8);
        assert(le_bytes(x, k).subrange(1, k as int) =~= le_bytes(x / 256, (k - 1) as nat));
        assert(le_bytes(y, k).subrange(1, k as int) =~= le_bytes(y / 256, (k - 1) as nat));
        assert(x / 256 < p) by (nonlinear_arith)
            requires
                x < 256 * p,
        ;
        assert(y / 256 < p) by (nonlinear_arith)
            requires
                y < 256 * p,
        ;
        lemma_le_bytes_injective(x / 256, y / 256, (k - 1) as nat);
    }
}

/// If two concatenations are equal and their first parts have the same length, the
/// parts are equal.
pub proof fn lemma_concat_split(x1: Seq<u8>, y1: Seq<u8>, x2: Seq<u8>, y2: Seq<u8>)
    requires
        x1.len() == x2.len(),
        x1 + y1 == x2 + y2,
    ensures
        x1 == x2,
        y1 == y2,
{
    assert(x1 =~= (x1 + y1).subrange(0, x1.len() as int));
    assert(x2 =~= (x2 + y2).subrange(0, x2.len() as int));
    assert(y1 =~= (x1 + y1).subrange(x1.len() as int, (x1 + y1).len() as int));
    assert(y2 =~= (x2 + y2).subrange(x2.len() as int, (x2 + y2).len() as int));
}

/// The compact prefix of a length is read back unambiguously: equal streams that start
/// with compact prefixes start with the same length and go on with the same bytes.
pub proof fn lemma_compact_prefix_injective(n1: nat, r1: Seq<u8>, n2: nat, r2: Seq<u8>)
    requires
        n1 <= u32::MAX,
        n2 <= u32::MAX,
        compact_u32(n1) + r1 == compact_u32(n2) + r2,
    ensures
        n1 == n2,
        r1 == r2,
{
    lemma_compact_len(n1);
    lemma_compact_len(n2);
    reveal_with_fuel(pow256, 5);
    let c1 = compact_u32(n1);
    let c2 = compact_u32(n2);
    assert((c1 + r1)[0] == c1[0]);
    assert((c2 + r2)[0] == c2[0]);
    let b1 = c1[0];
    let b2 = c2[0];
    assert(b1 == b2);
    assert(b1 % 4 == (if n1 < 64 { 0int } else if n1 < 0x4000 { 1int } else if n1 < 0x4000_0000 { 2int } else { 3int })) by {
        if n1 < 64 {
        } else if n1 < 0x4000 {
            assert(le_bytes(n1 * 4 + 1, 2)[0] == ((n1 * 4 + 1) % 256) as u8);
        } else if n1 < 0x4000_0000 {
            assert(le_bytes(n1 * 4 + 2, 4)[0] == ((n1 * 4 + 2) % 256) as u8);
        } else {
            assert((seq![3u8] + le_bytes(n1, 4))[0] == 3u8);
        }
    }
    assert(b2 % 4 == (if n2 < 64 { 0int } else if n2 < 0x4000 { 1int } else if n2 < 0x4000_0000 { 2int } else { 3int })) by {
        if n2 < 64 {
        } else if n2 < 0x4000 {
            assert(le_bytes(n2 * 4 + 1, 2)[0] == ((n2 * 4 + 1) % 256) as u8);
        } else if n2 < 0x4000_0000 {
            assert(le_bytes(n2 * 4 + 2, 4)[0] == ((n2 * 4 + 2) % 256) as u8);
        } else {
            assert((seq![3u8] + le_bytes(n2, 4))[0] == 3u8);
        }
    }
    lemma_concat_split(c1, r1, c2, r2);
    if n1 < 64 {
    } else if n1 < 0x4000 {
        lemma_le_bytes_injective(n1 * 4 + 1, n2 * 4 + 1, 2);
    } else if n1 < 0x4000_0000 {
        lemma_le_bytes_injective(n1 * 4 + 2, n2 * 4 + 2, 4);
    } else {
        lemma_le_bytes_len(n1, 4);
        assert(c1.subrange(1, 5) =~= le_bytes(n1, 4));
        assert(c2.subrange(1, 5) =~= le_bytes(n2, 4));
        lemma_le_bytes_injective(n1, n2, 4);
    }
}

/// Inputs are read back from their encoding.
pub proof fn lemma_inputs_encoding_injective(a: Seq<TransactionInput>, b: Seq<TransactionInput>)
    requires
        a.len() == b.len(),
        inputs_encoding(a) == inputs_encoding(b),
    ensures
        a == b,
    decreases a.len(),
{
    if a.len() > 0 {
        lemma_inputs_encoding_len(a.drop_last());
        lemma_inputs_encoding_len(b.drop_last());
        lemma_concat_split(inputs_encoding(a.drop_last()), input_encoding(a.last()), inputs_encoding(b.drop_last()), input_encoding(b.last()));
        lemma_inputs_encoding_injective(a.drop_last(), b.drop_last());
        lemma_concat_split(a.last().outpoint@, a.last().sigscript@, b.last().outpoint@, b.last().sigscript@);
        assert(a.last().outpoint == b.last().outpoint);
        assert(a.last().sigscript == b.last().sigscript);
        assert(a =~= b) by {
            assert forall|i: int| 0 <= i < a.len() implies a[i] == b[i] by {
                if i < a.len() - 1 {
                    assert(a.drop_last()[i] == b.drop_last()[i]);
                }
            }
        }
    }
}

/// Outputs are read back from their encoding.
pub proof fn lemma_outputs_encoding_injective(a: Seq<TransactionOutput>, b: Seq<TransactionOutput>)
    requires
        a.len() == b.len(),
        outputs_encoding(a) == outputs_encoding(b),
    ensures
        a == b,
    decreases a.len(),
{
    if a.len() > 0 {
        lemma_outputs_encoding_len(a.drop_last());
        lemma_outputs_encoding_len(b.drop_last());
        lemma_le_bytes_len(a.last().value as nat, 16);
        lemma_le_bytes_len(b.last().value as nat, 16);
        lemma_concat_split(outputs_encoding(a.drop_last()), output_encoding(a.last()), outputs_encoding(b.drop_last()), output_encoding(b.last()));
        lemma_outputs_encoding_injective(a.drop_last(), b.drop_last());
        lemma_concat_split(le_bytes(a.last().value as nat, 16), a.last().pubkey@, le_bytes(b.last().value as nat, 16), b.last().pubkey@);
        assert(pow256(16) == 0x1_0000_0000_0000_0000_0000_0000_0000_0000) by {
            reveal_with_fuel(pow256, 17);
        }
        lemma_le_bytes_injective(a.last().value as nat, b.last().value as nat, 16);
        assert(a.last().pubkey == b.last().pubkey);
        assert(a =~= b) by {
            assert forall|i: int| 0 <= i < a.len() implies a[i] == b[i] by {
                if i < a.len() - 1 {
                    assert(a.drop_last()[i] == b.drop_last()[i]);
                }
            }
        }
    }
}

/// A transaction is read back from its encoding: equal encodings come from equal lists
/// of inputs and outputs.
pub proof fn lemma_lists_encoding_injective(
    i1: Seq<TransactionInput>,
    o1: Seq<TransactionOutput>,
    i2: Seq<TransactionInput>,
    o2: Seq<TransactionOutput>,
)
    requires
        i1.len() <= u32::MAX,
        o1.len() <= u32::MAX,
        i2.len() <= u32::MAX,
        o2.len() <= u32::MAX,
        lists_encoding(i1, o1) == lists_encoding(i2, o2),
    ensures
        i1 == i2,
        o1 == o2,
{
    let rest1 = inputs_encoding(i1) + (compact_u32(o1.len()) + outputs_encoding(o1));
    let rest2 = inputs_encoding(i2) + (compact_u32(o2.len()) + outputs_encoding(o2));
    assert(lists_encoding(i1, o1) =~= compact_u32(i1.len()) + rest1);
    assert(lists_encoding(i2, o2) =~= compact_u32(i2.len()) + rest2);
    lemma_compact_prefix_injective(i1.len(), rest1, i2.len(), rest2);
    lemma_inputs_encoding_len(i1);
    lemma_inputs_encoding_len(i2);
    lemma_concat_split(inputs_encoding(i1), compact_u32(o1.len()) + outputs_encoding(o1), inputs_encoding(i2), compact_u32(o2.len()) + outputs_encoding(o2));
    lemma_inputs_encoding_injective(i1, i2);
    lemma_compact_prefix_injective(o1.len(), outputs_encoding(o1), o2.len(), outputs_encoding(o2));
    lemma_outputs_encoding_injective(o1, o2);
}

/// Compact SCALE encoding of a length, by `parity_scale_codec::Compact::<u32>::encode`.
/// The contract restates the four cases of the codec's `CompactRef<u32>` encoder.
#[verifier::external_body]
fn compact_len(n: usize) -> (r: Vec<u8>)
    requires
        n <= u32::MAX,
    ensures
        r@ == compact_u32(n as nat),
{
    parity_scale_codec::Compact(n as u32).encode()
}

/// SCALE encoding of a `u64`, by `<u64 as parity_scale_codec::Encode>::encode`: its
/// little-endian bytes.
#[verifier::external_body]
fn scale_u64(x: u64) -> (r: Vec<u8>)
    ensures
        r@ == le_bytes(x as nat, 8),
{
    x.encode()
}

/// SCALE encoding of a `u128`, by `<u128 as parity_scale_codec::Encode>::encode`: its
/// little-endian bytes.
#[verifier::external_body]
fn scale_u128(x: u128) -> (r: Vec<u8>)
    ensures
        r@ == le_bytes(x as nat, 16),
{
    x.encode()
}

/// Appends the bytes of `a` to `out`.
pub fn push_array<const N: usize>(out: &mut Vec<u8>, a: &[u8; N])
    ensures
        final(out)@ == old(out)@ + a@,
{
    let ghost start = out@;
    let mut i: usize = 0;
    while i < N
        invariant
            i <= N,
            a@.len() == N,
            out@ == start + a@.subrange(0, i as int),
        decreases N - i,
    {
        out.push(a[i]);
        i = i + 1;
        assert(out@ =~= start + a@.subrange(0, i as int));
    }
    assert(a@.subrange(0, N as int) =~= a@);
}

/// Appends the encoding of one output to `out`.
fn push_output(out: &mut Vec<u8>, o: &TransactionOutput)
    ensures
        final(out)@ == old(out)@ + output_encoding(*o),
{
    let mut v = scale_u128(o.value);
    out.append(&mut v);
    push_array(out, &o.pubkey);
    assert(out@ =~= old(out)@ + output_encoding(*o));
}

/// The encoding of an output (`Encode::encode` of the output).
pub fn encode_output(o: &TransactionOutput) -> (r: Vec<u8>)
    ensures
        r@ == output_encoding(*o),
{
    let mut out: Vec<u8> = Vec::new();
    push_output(&mut out, o);
    assert(out@ =~= output_encoding(*o));
    out
}

/// The SCALE encoding of a transaction (`Encode::encode` of the transaction).
pub fn encode_transaction(tx: &Transaction) -> (r: Vec<u8>)
    requires
        tx.inputs@.len() <= u32::MAX,
        tx.outputs@.len() <= u32::MAX,
    ensures
        r@ == transaction_encoding(*tx),
{
    encode_lists(&tx.inputs, &tx.outputs)
}

/// The SCALE encoding of a transaction with these inputs and outputs.
pub fn encode_lists(inputs: &Vec<TransactionInput>, outputs: &Vec<TransactionOutput>) -> (r: Vec<u8>)
    requires
        inputs@.len() <= u32::MAX,
        outputs@.len() <= u32::MAX,
    ensures
        r@ == lists_encoding(inputs@, outputs@),
{
    let mut out = compact_len(inputs.len());
    let ghost head = out@;
    let n = inputs.len();
    let mut i: usize = 0;
    while i < n
        invariant
            i <= n,
            n == inputs@.len(),
            out@ == head + inputs_encoding(inputs@.take(i as int)),
        decreases n - i,
    {
        let input = inputs[i];
        push_array(&mut out, &input.outpoint);
        push_array(&mut out, &input.sigscript);
        assert(inputs@.take(i + 1).drop_last() =~= inputs@.take(i as int));
        i = i + 1;
        assert(out@ =~= head + inputs_encoding(inputs@.take(i as int)));
    }
    assert(inputs@.take(n as int) =~= inputs@);
    let mut len_out = compact_len(outputs.len());
    out.append(&mut len_out);
    let ghost mid = out@;
    let m = outputs.len();
    let mut j: usize = 0;
    while j < m
        invariant
            j <= m,
            m == outputs@.len(),
            out@ == mid + outputs_encoding(outputs@.take(j as int)),
        decreases m - j,
    {
        push_output(&mut out, &outputs[j]);
        assert(outputs@.take(j + 1).drop_last() =~= outputs@.take(j as int));
        j = j + 1;
        assert(out@ =~= mid + outputs_encoding(outputs@.take(j as int)));
    }
    assert(outputs@.take(m as int) =~= outputs@);
    assert(out@ =~= lists_encoding(inputs@, outputs@));
    out
}

/// The preimage of the key of output number `index` of a transaction encoded as
/// `encoded` (`Encode::encode` of the pair of the encoding and the index).
pub fn encode_output_key_preimage(encoded: &Vec<u8>, index: u64) -> (r: Vec<u8>)
    requires
        encoded@.len() <= u32::MAX,
    ensures
        r@ == output_key_preimage(encoded@, index as nat),
{
    let mut out = compact_len(encoded.len());
    let mut copy: Vec<u8> = Vec::new();
    let n = encoded.len();
    let mut i: usize = 0;
    while i < n
        invariant
            i <= n,
            n == encoded@.len(),
            copy@ == encoded@.subrange(0, i as int),
        decreases n - i,
    {
        copy.push(encoded[i]);
        i = i + 1;
        assert(copy@ =~= encoded@.subrange(0, i as int));
    }
    assert(copy@ =~= encoded@);
    out.append(&mut copy);
    let mut idx = scale_u64(index);
    out.append(&mut idx);
    out
}

/// The preimage of the key of a reward output (`Encode::encode` of the pair of the
/// output and the block number).
pub fn encode_reward_key_preimage(o: &TransactionOutput, block_number: u64) -> (r: Vec<u8>)
    ensures
        r@ == reward_key_preimage(*o, block_number as nat),
{
    let mut out = encode_output(o);
    let mut bn = scale_u64(block_number);
    out.append(&mut bn);
    out
}

} // verus!
