use vstd::prelude::*;
use vstd::arithmetic::power2::{lemma_pow2_pos, lemma_pow2_unfold, pow2};
use crate::types::{bytes_to_vec, KeysetId, NodeProof, ProofRow, ProofState, PublicKey};
use crate::wad::CompactProof;

verus! {

/// `n` is a power of two: one, or an even number whose half is one.
pub open spec fn power_of_two(n: nat) -> bool
    decreases n,
{
    if n == 1 {
        true
    } else if n == 0 || n % 2 == 1 {
        false
    } else {
        power_of_two(n / 2)
    }
}

/// Powers of two are exactly the numbers `2^k`: `power_of_two(n)` holds if
/// and only if `n == 2^k` for some natural `k`.
pub proof fn lemma_power_of_two_is_pow2(n: nat)
    ensures
        power_of_two(n) <==> exists|k: nat| n == #[trigger] pow2(k),
    decreases n,
{
    if power_of_two(n) {
        if n == 1 {
            assert(pow2(0) == 1) by {
                vstd::arithmetic::power2::lemma_pow2(0);
                vstd::arithmetic::power::lemma_pow0(2);
            }
        } else {
            lemma_power_of_two_is_pow2(n / 2);
            let k = choose|k: nat| n / 2 == #[trigger] pow2(k);
            lemma_pow2_unfold(k + 1);
            assert(pow2(k + 1) == n);
        }
    }
    if exists|k: nat| n == #[trigger] pow2(k) {
        let k = choose|k: nat| n == #[trigger] pow2(k);
        lemma_pow2_to_power_of_two(k);
    }
}

proof fn lemma_pow2_to_power_of_two(k: nat)
    ensures
        power_of_two(pow2(k)),
    decreases k,
{
    if k == 0 {
        vstd::arithmetic::power2::lemma_pow2(0);
        vstd::arithmetic::power::lemma_pow0(2);
        assert(pow2(0) == 1);
    } else {
        lemma_pow2_unfold(k);
        lemma_pow2_pos((k - 1) as nat);
        lemma_pow2_to_power_of_two((k - 1) as nat);
        let m = pow2((k - 1) as nat);
        assert(pow2(k) == 2 * m);
        assert((2 * m) % 2 == 0);
        assert((2 * m) / 2 == m);
    }
}

/// Whether `n` is a power of two.
pub fn is_power_of_two(n: u64) -> (b: bool)
    ensures
        b == power_of_two(n as nat),
        b <==> exists|k: nat| n == #[trigger] pow2(k),
{
    proof {
        lemma_power_of_two_is_pow2(n as nat);
    }
    let mut m: u64 = n;
    while m > 1 && m % 2 == 0
        invariant
            power_of_two(m as nat) == power_of_two(n as nat),
        decreases m,
    {
        m = m / 2;
    }
    m == 1
}

/// Why a received wad is refused before anything is sent to the node.
#[derive(Clone, Debug, PartialEq, Eq)]
pub enum ReceiveError {
    /// A keyset of the wad is not of the unit the wallet receives in.
    UnitMismatch { keyset_unit: String, unit: String },
    /// A proof's amount is zero or not a power of two.
    AmountNotPowerOfTwo { amount: u64 },
    /// A proof's amount is not below the largest amount of its keyset.
    AmountNotBelowMaxOrder { amount: u64, max_order: u64, keyset_id: KeysetId },
    /// The amounts of the wad add up to more than a `u64` holds.
    AmountOverflow,
}

/// Checks that a keyset of the wad is of the unit being received.
pub fn check_keyset_unit(keyset_unit: String, unit: &String) -> (r: Result<(), ReceiveError>)
    ensures
        r is Ok <==> keyset_unit@ == unit@,
        r matches Err(e) ==> (e matches ReceiveError::UnitMismatch { keyset_unit: k, unit: u }
            && k@ == keyset_unit@ && u@ == unit@),
{
    if keyset_unit != *unit {
        Err(ReceiveError::UnitMismatch { keyset_unit, unit: unit.clone() })
    } else {
        Ok(())
    }
}

/// Checks the amount of a received proof: a nonzero power of two below the
/// largest amount `max_order` of its keyset.
pub fn check_proof_amount(amount: u64, max_order: u64, keyset_id: KeysetId) -> (r: Result<
    (),
    ReceiveError,
>)
    ensures
        r is Ok <==> power_of_two(amount as nat) && amount < max_order,
        !power_of_two(amount as nat) ==> r == Err::<(), ReceiveError>(
            ReceiveError::AmountNotPowerOfTwo { amount },
        ),
        power_of_two(amount as nat) && amount >= max_order ==> r == Err::<(), ReceiveError>(
            ReceiveError::AmountNotBelowMaxOrder { amount, max_order, keyset_id },
        ),
{
    if !is_power_of_two(amount) || amount == 0 {
        return Err(ReceiveError::AmountNotPowerOfTwo { amount });
    }
    if amount >= max_order {
        return Err(ReceiveError::AmountNotBelowMaxOrder { amount, max_order, keyset_id });
    }
    Ok(())
}

/// Sum of the amounts of stored proofs.
pub open spec fn row_amount_sum(rows: Seq<ProofRow>) -> int
    decreases rows.len(),
{
    if rows.len() == 0 {
        0
    } else {
        row_amount_sum(rows.drop_last()) + rows.last().amount
    }
}

/// `w` offers the stored proof `r` to the node.
pub open spec fn is_node_proof_of_row(w: NodeProof, r: ProofRow) -> bool {
    &&& w.amount == r.amount
    &&& w.keyset_id@ == r.keyset_id.bytes@
    &&& w.secret@ == r.secret@
    &&& w.unblind_signature@ == r.unblind_signature.bytes@
}

/// `r` is the pending record of the received proof `p` of keyset `keyset_id`,
/// whose `y` is `y`.
pub open spec fn is_pending_row_of(
    r: ProofRow,
    y: PublicKey,
    node_id: u32,
    keyset_id: KeysetId,
    p: CompactProof,
) -> bool {
    &&& r.y == y
    &&& r.node_id == node_id
    &&& r.keyset_id == keyset_id
    &&& r.amount == p.amount
    &&& r.secret@ == p.secret@
    &&& r.unblind_signature == p.c
    &&& r.state == ProofState::Pending
}

/// The proofs of a received wad accepted so far: their `y`s, their total,
/// the inputs of the swap that will claim them and the pending records to
/// store.
pub struct ReceiveBatch {
    ys: Vec<PublicKey>,
    total: u64,
    inputs: Vec<NodeProof>,
    rows: Vec<ProofRow>,
}

impl View for ReceiveBatch {
    type V = Seq<ProofRow>;

    closed spec fn view(&self) -> Seq<ProofRow> {
        self.rows@
    }
}

/// Everything a batch holds follows from its records: the `y`s and inputs
/// one for one, the total their sum, and every record pending.
pub open spec fn batch_parts_follow_rows(
    rows: Seq<ProofRow>,
    ys: Seq<PublicKey>,
    total: int,
    inputs: Seq<NodeProof>,
) -> bool {
    &&& ys.len() == rows.len()
    &&& inputs.len() == rows.len()
    &&& total == row_amount_sum(rows)
    &&& forall|i: int| 0 <= i < rows.len() ==> (#[trigger] rows[i]).y == ys[i]
    &&& forall|i: int| 0 <= i < rows.len() ==> is_node_proof_of_row(#[trigger] inputs[i], rows[i])
    &&& forall|i: int| 0 <= i < rows.len() ==> (#[trigger] rows[i]).state == ProofState::Pending
}

impl ReceiveBatch {
    #[verifier::type_invariant]
    closed spec fn wf(self) -> bool {
        batch_parts_follow_rows(self.rows@, self.ys@, self.total as int, self.inputs@)
    }

    /// A batch with no proof yet.
    pub fn new() -> (b: Self)
        ensures
            b@ == Seq::<ProofRow>::empty(),
    {
        ReceiveBatch { ys: Vec::new(), total: 0, inputs: Vec::new(), rows: Vec::new() }
    }

    /// The total amount of the proofs accepted so far.
    pub fn total(&self) -> (t: u64)
        ensures
            t == row_amount_sum(self@),
    {
        proof {
            use_type_invariant(self);
        }
        self.total
    }

    /// Adds a checked proof of keyset `keyset_id`, whose `y` is `y`: it fails
    /// only when the total would no longer fit in a `u64`.
    pub fn push_proof(self, node_id: u32, keyset_id: KeysetId, proof: CompactProof, y: PublicKey) -> (r:
        Result<Self, ReceiveError>)
        ensures
            r is Ok <==> row_amount_sum(self@) + proof.amount <= u64::MAX,
            r matches Err(e) ==> e is AmountOverflow,
            r matches Ok(b) ==> b@.len() == self@.len() + 1 && b@.drop_last() == self@
                && is_pending_row_of(b@.last(), y, node_id, keyset_id, proof),
    {
        proof {
            use_type_invariant(&self);
        }
        let ReceiveBatch { mut ys, total, mut inputs, mut rows } = self;
        let new_total = match total.checked_add(proof.amount) {
            Some(t) => t,
            None => {
                return Err(ReceiveError::AmountOverflow);
            },
        };
        let ghost old_rows = rows@;
        let ghost old_ys = ys@;
        let ghost old_inputs = inputs@;
        let input = NodeProof {
            amount: proof.amount,
            keyset_id: bytes_to_vec(&keyset_id.bytes),
            secret: proof.secret.clone(),
            unblind_signature: bytes_to_vec(&proof.c.bytes),
        };
        let row = ProofRow {
            y,
            node_id,
            keyset_id,
            amount: proof.amount,
            secret: proof.secret,
            unblind_signature: proof.c,
            state: ProofState::Pending,
        };
        ys.push(y);
        inputs.push(input);
        rows.push(row);
        proof {
            assert(rows@.drop_last() =~= old_rows);
            assert forall|i: int| 0 <= i < rows@.len() implies (#[trigger] rows@[i]).y == ys@[i] by {
                if i < old_rows.len() {
                    assert(rows@[i] == old_rows[i]);
                }
            }
            assert forall|i: int| 0 <= i < rows@.len() implies is_node_proof_of_row(
                #[trigger] inputs@[i],
                rows@[i],
            ) by {
                if i < old_rows.len() {
                    assert(rows@[i] == old_rows[i]);
                    assert(inputs@[i] == old_inputs[i]);
                }
            }
            assert forall|i: int| 0 <= i < rows@.len() implies (#[trigger] rows@[i]).state
                == ProofState::Pending by {
                if i < old_rows.len() {
                    assert(rows@[i] == old_rows[i]);
                }
            }
        }
        Ok(ReceiveBatch { ys, total: new_total, inputs, rows })
    }

    /// Splits the batch into the `y`s of its proofs, their total, the inputs
    /// of the swap that claims them and the pending records to store.
    pub fn into_parts(self) -> (parts: (Vec<PublicKey>, u64, Vec<NodeProof>, Vec<ProofRow>))
        ensures
            parts.3@ == self@,
            batch_parts_follow_rows(self@, parts.0@, parts.1 as int, parts.2@),
    {
        proof {
            use_type_invariant(&self);
        }
        let ReceiveBatch { ys, total, inputs, rows } = self;
        (ys, total, inputs, rows)
    }
}

/// What becomes of a received wad's pending proofs once the node has answered
/// the swap that claims them.
#[derive(Clone, Copy, Debug, PartialEq, Eq, Structural)]
pub enum ReceiveFollowUp {
    /// The swap was refused: the pending records are deleted.
    DeletePending,
    /// The swap went through: the records are marked spent and the new
    /// tokens stored.
    MarkSpentAndStore,
}

/// The follow-up of a received wad's swap.
pub fn receive_follow_up(swap_succeeded: bool) -> (f: ReceiveFollowUp)
    ensures
        f == (if swap_succeeded {
            ReceiveFollowUp::MarkSpentAndStore
        } else {
            ReceiveFollowUp::DeletePending
        }),
{
    if swap_succeeded {
        ReceiveFollowUp::MarkSpentAndStore
    } else {
        ReceiveFollowUp::DeletePending
    }
}

} // verus!
