use vstd::prelude::*;
use crate::types::{bytes_to_vec, BlindedMessage, NodeBlindedMessage, NodeProof, Proof};

verus! {

/// `w` carries exactly the proof `p`: the same amount and secret, the keyset id
/// and the unblinded signature as their raw bytes.
pub open spec fn is_node_proof_of(w: NodeProof, p: Proof) -> bool {
    &&& w.amount == p.amount
    &&& w.keyset_id@ == p.keyset_id.bytes@
    &&& w.secret@ == p.secret@
    &&& w.unblind_signature@ == p.c.bytes@
}

/// `w` carries exactly the blinded message `m`.
pub open spec fn is_node_blinded_message_of(w: NodeBlindedMessage, m: BlindedMessage) -> bool {
    &&& w.amount == m.amount
    &&& w.keyset_id@ == m.keyset_id.bytes@
    &&& w.blinded_secret@ == m.blinded_secret.bytes@
}

/// Converts one proof into the node's wire form.
fn node_proof(p: &Proof) -> (w: NodeProof)
    ensures
        is_node_proof_of(w, *p),
{
    NodeProof {
        amount: p.amount,
        keyset_id: bytes_to_vec(&p.keyset_id.bytes),
        secret: p.secret.clone(),
        unblind_signature: bytes_to_vec(&p.c.bytes),
    }
}

/// Converts the proofs given as inputs of a request into the node's wire
/// form, one for one and in order.
pub fn convert_inputs(inputs: &[Proof]) -> (res: Vec<NodeProof>)
    ensures
        res.len() == inputs.len(),
        forall|i: int| 0 <= i < inputs.len() ==> #[trigger] is_node_proof_of(res[i], inputs[i]),
{
    let mut res: Vec<NodeProof> = Vec::new();
    let mut i: usize = 0;
    while i < inputs.len()
        invariant
            i <= inputs.len(),
            res.len() == i,
            forall|j: int| 0 <= j < i ==> #[trigger] is_node_proof_of(res[j], inputs[j]),
        decreases inputs.len() - i,
    {
        res.push(node_proof(&inputs[i]));
        i = i + 1;
    }
    res
}

/// Converts the blinded messages given as outputs of a request into the
/// node's wire form, one for one and in order.
pub fn convert_outputs(outputs: &[BlindedMessage]) -> (res: Vec<NodeBlindedMessage>)
    ensures
        res.len() == outputs.len(),
        forall|i: int|
            0 <= i < outputs.len() ==> #[trigger] is_node_blinded_message_of(res[i], outputs[i]),
{
    let mut res: Vec<NodeBlindedMessage> = Vec::new();
    let mut i: usize = 0;
    while i < outputs.len()
        invariant
            i <= outputs.len(),
            res.len() == i,
            forall|j: int| 0 <= j < i ==> #[trigger] is_node_blinded_message_of(res[j], outputs[j]),
        decreases outputs.len() - i,
    {
        let o = &outputs[i];
        res.push(
            NodeBlindedMessage {
                amount: o.amount,
                keyset_id: bytes_to_vec(&o.keyset_id.bytes),
                blinded_secret: bytes_to_vec(&o.blinded_secret.bytes),
            },
        );
        i = i + 1;
    }
    res
}

} // verus!
