use utxo_runtime::signature::{Context, GrowSignature, MessageSignature, RootSignature};

fn message(ctx: &Context, chain_sequence_number: u32, layer: u32) -> MessageSignature<'_> {
    MessageSignature {
        context: ctx,
        sequence_number: 3,
        digest_value: vec![1, 2],
        wots_sig: vec![3, 4],
        authorization_path: vec![5, 6, 7],
        chain_sequence_number,
        channel_id: 1,
        layer,
    }
}

#[test]
fn root_signature_signs_its_root() {
    let ctx = Context { chain_tree_heights: vec![4, 8] };
    let root = RootSignature {
        context: &ctx,
        sequence_number: 0,
        wots_sig: vec![9],
        authorization_path: vec![8],
        root_hash: vec![0xaa, 0xbb],
    };
    assert_eq!(root.get_signed_root(), &vec![0xaa, 0xbb]);
    let prev = vec![1u8];
    assert_eq!(root.next_auth_node(&prev), &vec![0xaa, 0xbb]);
}

#[test]
fn last_message_of_chain_tree() {
    let ctx = Context { chain_tree_heights: vec![4, 8] };
    assert_eq!(ctx.chain_tree_height(1), 8);
    assert!(message(&ctx, 3, 0).last_chain_message());
    assert!(!message(&ctx, 2, 0).last_chain_message());
    assert!(message(&ctx, 7, 1).last_chain_message());
    assert!(!message(&ctx, 3, 1).last_chain_message());
}

#[test]
fn next_auth_node_of_message() {
    let ctx = Context { chain_tree_heights: vec![4] };
    let prev = vec![0x55u8];
    let last = message(&ctx, 3, 0);
    assert_eq!(last.next_auth_node(&prev), &vec![0x55]);
    let inner = message(&ctx, 1, 0);
    assert_eq!(inner.next_auth_node(&prev), &vec![5, 6, 7]);
}

#[test]
fn grow_signature_holds_its_fields() {
    let ctx = Context { chain_tree_heights: vec![2] };
    let g = GrowSignature {
        context: &ctx,
        wots_sig: vec![1],
        root_hash: vec![2],
        chain_sequence_number: 1,
        channel_id: 4,
        layer: 0,
    };
    assert_eq!(g.root_hash, vec![2]);
    assert_eq!(g.channel_id, 4);
}
