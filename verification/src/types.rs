use vstd::prelude::*;

verus! {

/// Identifier of a node keyset: its eight raw bytes.
#[derive(Clone, Copy, Debug, PartialEq, Eq)]
pub struct KeysetId {
    pub bytes: [u8; 8],
}

/// A compressed curve point (a proof's `y`, an unblinded signature `c`,
/// a blinded secret): its 33 raw bytes.
#[derive(Clone, Copy, Debug, PartialEq, Eq)]
pub struct PublicKey {
    pub bytes: [u8; 33],
}

/// A secret scalar (the blinding factor `r` of a pre-mint): its 32 raw bytes.
#[derive(Clone, Copy, Debug, PartialEq, Eq)]
pub struct SecretKey {
    pub bytes: [u8; 32],
}

/// An ecash proof held by the wallet.
#[derive(Clone, Debug)]
pub struct Proof {
    pub amount: u64,
    pub keyset_id: KeysetId,
    pub secret: String,
    pub c: PublicKey,
}

/// A blinded message offered to a node in exchange for a signature.
#[derive(Clone, Debug)]
pub struct BlindedMessage {
    pub amount: u64,
    pub keyset_id: KeysetId,
    pub blinded_secret: PublicKey,
}

/// A proof as the node's wire protocol carries it.
#[derive(Clone, Debug)]
pub struct NodeProof {
    pub amount: u64,
    pub keyset_id: Vec<u8>,
    pub secret: String,
    pub unblind_signature: Vec<u8>,
}

/// A blinded message as the node's wire protocol carries it.
#[derive(Clone, Debug)]
pub struct NodeBlindedMessage {
    pub amount: u64,
    pub keyset_id: Vec<u8>,
    pub blinded_secret: Vec<u8>,
}

/// Life cycle of a proof in the wallet's store.
#[derive(Clone, Copy, Debug, PartialEq, Eq, Structural)]
pub enum ProofState {
    Unspent,
    Pending,
    Spent,
    Reserved,
}

/// A proof as the wallet stores it.
#[derive(Clone, Debug, PartialEq, Eq)]
pub struct ProofRow {
    pub y: PublicKey,
    pub node_id: u32,
    pub keyset_id: KeysetId,
    pub amount: u64,
    pub secret: String,
    pub unblind_signature: PublicKey,
    pub state: ProofState,
}

/// Copies a byte array into a fresh vector.
pub fn bytes_to_vec<const N: usize>(bytes: &[u8; N]) -> (v: Vec<u8>)
    ensures
        v@ == bytes@,
{
    let mut v: Vec<u8> = Vec::new();
    let mut i: usize = 0;
    while i < N
        invariant
            i <= N,
            bytes@.len() == N,
            v@ == bytes@.take(i as int),
        decreases N - i,
    {
        v.push(bytes[i]);
        i = i + 1;
        assert(v@ =~= bytes@.take(i as int));
    }
    assert(bytes@.take(N as int) =~= bytes@);
    v
}

} // verus!
