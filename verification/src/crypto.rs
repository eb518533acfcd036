use vstd::prelude::*;

verus! {

/// The 32-byte BLAKE2b digest of `data`.
pub uninterp spec fn blake2_256(data: Seq<u8>) -> Seq<u8>;

/// Whether `sig` is a valid sr25519 signature of `msg` under the public key `pubkey`.
pub uninterp spec fn sr25519_valid(sig: Seq<u8>, msg: Seq<u8>, pubkey: Seq<u8>) -> bool;

/// Hash of `data` by `<sp_runtime::traits::BlakeTwo256 as Hash>::hash`, which is
/// BLAKE2b with a 256-bit output. The contract claims that the result is a function of
/// the bytes alone; that it is 32 bytes long is given by the result's type.
#[verifier::external_body]
pub(crate) fn hash_blake2_256(data: &Vec<u8>) -> (r: [u8; 32])
    ensures
        r@ == blake2_256(data@),
{
    <sp_runtime::traits::BlakeTwo256 as sp_runtime::traits::Hash>::hash(data.as_slice()).0
}

/// Check of an sr25519 signature by `sp_io::crypto::sr25519_verify`, on the signature
/// and the key rebuilt from their raw bytes. The contract claims that the answer is a
/// function of the three byte strings alone (the host function checks the signature
/// with schnorrkel and does not read the externalities).
#[verifier::external_body]
pub(crate) fn verify_sr25519(sig: &[u8; 64], msg: &Vec<u8>, pubkey: &[u8; 32]) -> (r: bool)
    ensures
        r == sr25519_valid(sig@, msg@, pubkey@),
{
    sp_io::crypto::sr25519_verify(
        &sp_core::sr25519::Signature::from_raw(*sig),
        msg.as_slice(),
        &sp_core::sr25519::Public::from_raw(*pubkey),
    )
}

} // verus!
