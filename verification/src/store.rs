use vstd::prelude::*;
use crate::types::{KeysetId, Proof, ProofRow, ProofState, PublicKey, SecretKey};

verus! {

/// A token the wallet asked the node to sign: its amount, its secret and
/// the blinding factor `r` of its blinded message.
#[derive(Clone, Debug)]
pub struct PreMint {
    pub amount: u64,
    pub secret: String,
    pub r: SecretKey,
}

/// A signature the node returned, paired with the pre-mint it signs:
/// `(blind signature bytes, secret, r, amount)`.
pub type SignedPreMint = (Vec<u8>, String, SecretKey, u64);

/// Pairs each pre-mint with the node's signature at the same position; when
/// one list is longer, its extra elements are left out.
pub fn pair_pre_mints_with_signatures(pre_mints: &Vec<PreMint>, signatures: &Vec<Vec<u8>>) -> (pairs:
    Vec<SignedPreMint>)
    ensures
        pairs.len() == if pre_mints.len() <= signatures.len() {
            pre_mints.len()
        } else {
            signatures.len()
        },
        forall|i: int|
            0 <= i < pairs.len() ==> {
                &&& (#[trigger] pairs[i]).0@ == signatures[i]@
                &&& pairs[i].1@ == pre_mints[i].secret@
                &&& pairs[i].2 == pre_mints[i].r
                &&& pairs[i].3 == pre_mints[i].amount
            },
{
    let n = if pre_mints.len() <= signatures.len() {
        pre_mints.len()
    } else {
        signatures.len()
    };
    let mut pairs: Vec<SignedPreMint> = Vec::new();
    let mut i: usize = 0;
    while i < n
        invariant
            n <= pre_mints.len(),
            n <= signatures.len(),
            i <= n,
            pairs.len() == i,
            forall|j: int|
                0 <= j < i ==> {
                    &&& (#[trigger] pairs@[j]).0@ == signatures@[j]@
                    &&& pairs@[j].1@ == pre_mints@[j].secret@
                    &&& pairs@[j].2 == pre_mints@[j].r
                    &&& pairs@[j].3 == pre_mints@[j].amount
                },
        decreases n - i,
    {
        let sig = signatures[i].clone();
        proof {
            assert(sig@ =~= signatures@[i as int]@);
        }
        let pm = &pre_mints[i];
        pairs.push((sig, pm.secret.clone(), pm.r, pm.amount));
        i = i + 1;
    }
    pairs
}

/// What is stored, and reported, for a newly signed token: an unspent record
/// with its `y`, its amount and its unblinded signature; the reported token
/// is its `y` with its amount.
pub fn new_token_record(
    y: PublicKey,
    node_id: u32,
    keyset_id: KeysetId,
    amount: u64,
    secret: String,
    unblinded_signature: PublicKey,
) -> (rec: (ProofRow, (PublicKey, u64)))
    ensures
        rec.0.y == y,
        rec.0.node_id == node_id,
        rec.0.keyset_id == keyset_id,
        rec.0.amount == amount,
        rec.0.secret == secret,
        rec.0.unblind_signature == unblinded_signature,
        rec.0.state == ProofState::Unspent,
        rec.1 == (y, amount),
{
    (
        ProofRow {
            y,
            node_id,
            keyset_id,
            amount,
            secret,
            unblind_signature: unblinded_signature,
            state: ProofState::Unspent,
        },
        (y, amount),
    )
}

/// The proofs read back from the store, each made of its amount, keyset,
/// unblinded signature and secret, in the order given.
pub fn proofs_from_rows(rows: Vec<(u64, KeysetId, PublicKey, String)>) -> (proofs: Vec<Proof>)
    ensures
        proofs.len() == rows.len(),
        forall|i: int|
            0 <= i < rows.len() ==> {
                &&& (#[trigger] proofs[i]).amount == rows[i].0
                &&& proofs[i].keyset_id == rows[i].1
                &&& proofs[i].c == rows[i].2
                &&& proofs[i].secret@ == rows[i].3@
            },
{
    let mut proofs: Vec<Proof> = Vec::new();
    let mut i: usize = 0;
    while i < rows.len()
        invariant
            i <= rows.len(),
            proofs.len() == i,
            forall|j: int|
                0 <= j < i ==> {
                    &&& (#[trigger] proofs@[j]).amount == rows@[j].0
                    &&& proofs@[j].keyset_id == rows@[j].1
                    &&& proofs@[j].c == rows@[j].2
                    &&& proofs@[j].secret@ == rows@[j].3@
                },
        decreases rows.len() - i,
    {
        let r = &rows[i];
        proofs.push(Proof { amount: r.0, keyset_id: r.1, secret: r.3.clone(), c: r.2 });
        i = i + 1;
    }
    proofs
}

} // verus!
