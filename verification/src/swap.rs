use vstd::prelude::*;
use crate::convert::is_node_proof_of;
use crate::types::{bytes_to_vec, KeysetId, NodeProof, Proof, ProofState, PublicKey};

verus! {

/// The inputs of the swap that splits one stored proof: that proof alone,
/// with the amount the selection recorded for it.
pub fn swap_inputs(amount: u64, keyset_id: KeysetId, unblind_signature: PublicKey, secret: &String) -> (inputs:
    Vec<NodeProof>)
    ensures
        inputs.len() == 1,
        is_node_proof_of(
            inputs[0],
            Proof { amount, keyset_id, secret: *secret, c: unblind_signature },
        ),
{
    let mut inputs: Vec<NodeProof> = Vec::new();
    inputs.push(
        NodeProof {
            amount,
            keyset_id: bytes_to_vec(&keyset_id.bytes),
            secret: secret.clone(),
            unblind_signature: bytes_to_vec(&unblind_signature.bytes),
        },
    );
    inputs
}

/// The state of the proof offered to a swap once the node has answered: spent
/// when the swap went through, spendable again when it was refused.
pub fn swapped_proof_state(swap_succeeded: bool) -> (s: ProofState)
    ensures
        s == (if swap_succeeded {
            ProofState::Spent
        } else {
            ProofState::Unspent
        }),
{
    if swap_succeeded {
        ProofState::Spent
    } else {
        ProofState::Unspent
    }
}

} // verus!
