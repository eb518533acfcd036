use vstd::prelude::*;

verus! {

/// Sequence number of a signature within its channel.
pub type SignatureSequenceNumber = u32;

/// The parameters of a multi-branch post-quantum signature instance that its signatures
/// refer to: the height of the chain trees on each layer.
pub struct Context {
    /// `chain_tree_heights[l]` is the height of a chain tree on layer `l`.
    pub chain_tree_heights: Vec<u32>,
}

impl Context {
    /// The height of a chain tree on `layer`.
    pub fn chain_tree_height(&self, layer: u32) -> (h: u32)
        requires
            layer < self.chain_tree_heights@.len(),
        ensures
            h == self.chain_tree_heights@[layer as int],
    {
        self.chain_tree_heights[layer as usize]
    }
}

/// Signature of a channel root by the root tree.
pub struct RootSignature<'a> {
    /// Context of the signature instance.
    pub context: &'a Context,
    /// Sequence number of this signature.
    pub sequence_number: SignatureSequenceNumber,
    /// WOTS signature of the channel root.
    pub wots_sig: Vec<u8>,
    /// The authentication path for this signature to the root tree's root node.
    pub authorization_path: Vec<u8>,
    /// The channel root which is signed.
    pub root_hash: Vec<u8>,
}

/// Signature of the last one-time key in a chain tree over the next chain tree's root.
pub struct GrowSignature<'a> {
    /// Context of the signature instance.
    pub context: &'a Context,
    /// WOTS signature of the next chain tree's root.
    pub wots_sig: Vec<u8>,
    /// The root which is signed.
    pub root_hash: Vec<u8>,
    /// Position of the signing key within its chain tree.
    pub chain_sequence_number: u32,
    /// The channel the signature belongs to.
    pub channel_id: u32,
    /// The layer of the chain tree.
    pub layer: u32,
}

/// Signature of a message on a channel.
pub struct MessageSignature<'a> {
    /// Context of the signature instance.
    pub context: &'a Context,
    /// Sequence number of this signature.
    pub sequence_number: SignatureSequenceNumber,
    /// Randomized value from the message digest.
    pub digest_value: Vec<u8>,
    /// WOTS signature of the message digest.
    pub wots_sig: Vec<u8>,
    /// The authentication path for this signature to its chain tree's root node.
    pub authorization_path: Vec<u8>,
    /// Position of the signing key within its chain tree.
    pub chain_sequence_number: u32,
    /// The channel the signature belongs to.
    pub channel_id: u32,
    /// The layer of the chain tree.
    pub layer: u32,
}

impl<'a> RootSignature<'a> {
    /// The channel root that this signature signs.
    pub fn get_signed_root(&self) -> (r: &Vec<u8>)
        ensures
            r@ == self.root_hash@,
    {
        &self.root_hash
    }

    /// The authentication node that the next signature verifies against: the signed root.
    pub fn next_auth_node<'b>(&'b self, previous_auth_node: &'b Vec<u8>) -> (r: &'b Vec<u8>)
        ensures
            r@ == self.root_hash@,
    {
        self.get_signed_root()
    }
}

impl<'a> MessageSignature<'a> {
    /// Whether this signature is made with the last one-time key of its chain tree.
    pub fn last_chain_message(&self) -> (r: bool)
        requires
            self.layer < self.context.chain_tree_heights@.len(),
            self.context.chain_tree_heights@[self.layer as int] >= 1,
        ensures
            r == (self.chain_sequence_number == self.context.chain_tree_heights@[self.layer as int] - 1),
    {
        self.chain_sequence_number == self.context.chain_tree_height(self.layer) - 1
    }

    /// The authentication node that the next signature verifies against: the previous
    /// node when this is the last message of its chain tree, else this signature's
    /// authentication path. The previous node is handed back whole, as one byte string;
    /// it is not indexed into.
    pub fn next_auth_node<'b>(&'b self, previous_auth_node: &'b Vec<u8>) -> (r: &'b Vec<u8>)
        requires
            self.layer < self.context.chain_tree_heights@.len(),
            self.context.chain_tree_heights@[self.layer as int] >= 1,
        ensures
            r@ == (if self.chain_sequence_number == self.context.chain_tree_heights@[self.layer as int] - 1 {
                previous_auth_node@
            } else {
                self.authorization_path@
            }),
    {
        if self.last_chain_message() {
            return previous_auth_node;
        }
        &self.authorization_path
    }
}

} // verus!
