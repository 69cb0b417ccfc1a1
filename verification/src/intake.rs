use vstd::prelude::*;
use crate::receive::{
    check_keyset_unit, check_proof_amount, power_of_two, row_amount_sum, ReceiveBatch,
    ReceiveError,
};
use crate::types::{KeysetId, Proof, ProofRow, ProofState, PublicKey};
use crate::wad::{
    entries_amount, is_compact_grouping, lemma_wad_keeps_amount, proofs_amount, wad_entries,
    CompactKeysetProofs, CompactProof,
};

verus! {

/// The proofs of one keyset group, the first `n` of them, each with the
/// group's keyset.
pub open spec fn group_prefix(group: CompactKeysetProofs, n: int) -> Seq<(KeysetId, CompactProof)> {
    group.proofs@.take(n).map_values(|c: CompactProof| (group.keyset_id, c))
}

/// The proofs of a wad that come before proof `pi` of group `ki`, in order,
/// each with its keyset.
pub open spec fn processed_entries(groups: Seq<CompactKeysetProofs>, ki: int, pi: int) -> Seq<
    (KeysetId, CompactProof),
> {
    wad_entries(groups.take(ki)) + if ki < groups.len() {
        group_prefix(groups[ki], pi)
    } else {
        Seq::<(KeysetId, CompactProof)>::empty()
    }
}

/// `r` is the pending record, on node `node_id`, of the wad proof `e`.
pub open spec fn row_matches_entry(r: ProofRow, node_id: u32, e: (KeysetId, CompactProof)) -> bool {
    &&& r.node_id == node_id
    &&& r.keyset_id == e.0
    &&& r.amount == e.1.amount
    &&& r.secret@ == e.1.secret@
    &&& r.unblind_signature == e.1.c
    &&& r.state == ProofState::Pending
}

/// One record per wad proof, in order.
pub open spec fn rows_match_entries(
    rows: Seq<ProofRow>,
    node_id: u32,
    entries: Seq<(KeysetId, CompactProof)>,
) -> bool {
    &&& rows.len() == entries.len()
    &&& forall|k: int| 0 <= k < rows.len() ==> row_matches_entry(#[trigger] rows[k], node_id, entries[k])
}

/// Every keyset looked up so far is of the unit being received, and every
/// proof checked so far has an amount that is a power of two below its
/// keyset's max order.
pub open spec fn checks_passed(
    unit: Seq<char>,
    groups: Seq<CompactKeysetProofs>,
    lookups: Seq<(Seq<char>, u64)>,
    ki: int,
    pi: int,
) -> bool {
    &&& forall|k: int| 0 <= k < lookups.len() ==> (#[trigger] lookups[k]).0 == unit
    &&& forall|k: int, j: int|
        0 <= k < lookups.len() && 0 <= j < (if k < ki {
            groups[k].proofs@.len() as int
        } else {
            pi
        }) ==> power_of_two((#[trigger] groups[k].proofs@[j]).amount as nat)
            && groups[k].proofs@[j].amount < lookups[k].1
}

/// What the wallet does next while taking in a wad.
#[derive(Debug, PartialEq, Eq)]
pub enum IntakeStep {
    /// Learn the unit and max order of this keyset.
    LookupKeyset { keyset_id: KeysetId },
    /// Hash this secret, the next proof's, to its `y`.
    HashSecret { secret: String },
    /// Every proof of the wad has been taken in.
    Done,
}

/// Where the intake of a wad stands.
pub struct IntakeView {
    pub unit: Seq<char>,
    pub node_id: u32,
    pub groups: Seq<CompactKeysetProofs>,
    /// Unit and max order reported for each keyset looked up so far.
    pub lookups: Seq<(Seq<char>, u64)>,
    /// The group being taken in.
    pub keyset_index: int,
    /// The next proof of that group.
    pub proof_index: int,
    /// The pending records made so far.
    pub rows: Seq<ProofRow>,
}

/// The intake of a received wad, keyset by keyset and proof by proof: each
/// keyset is looked up and must be of the unit being received; each proof's
/// amount must be a power of two below its keyset's max order; its secret is
/// then hashed and a pending record made, the total kept within a `u64`.
pub struct WadIntake {
    unit: String,
    node_id: u32,
    groups: Vec<CompactKeysetProofs>,
    ki: usize,
    pi: usize,
    max_order: Option<u64>,
    batch: ReceiveBatch,
    lookups: Ghost<Seq<(Seq<char>, u64)>>,
}

impl View for WadIntake {
    type V = IntakeView;

    closed spec fn view(&self) -> IntakeView {
        IntakeView {
            unit: self.unit@,
            node_id: self.node_id,
            groups: self.groups@,
            lookups: self.lookups@,
            keyset_index: self.ki as int,
            proof_index: self.pi as int,
            rows: self.batch@,
        }
    }
}

/// The next keyset of the intake has not been looked up yet.
pub open spec fn awaits_lookup(v: IntakeView) -> bool {
    v.keyset_index < v.groups.len() && v.lookups.len() == v.keyset_index
}

/// The intake stands at a proof whose keyset has been looked up.
pub open spec fn at_proof(v: IntakeView) -> bool {
    &&& v.keyset_index < v.groups.len()
    &&& v.lookups.len() == v.keyset_index + 1
    &&& 0 <= v.proof_index < v.groups[v.keyset_index].proofs@.len()
}

/// The proof the intake stands at.
pub open spec fn current_proof(v: IntakeView) -> CompactProof {
    v.groups[v.keyset_index].proofs@[v.proof_index]
}

/// The cursor after the proof the intake stands at.
pub open spec fn cursor_after(groups: Seq<CompactKeysetProofs>, ki: int, pi: int) -> (int, int) {
    if pi + 1 < groups[ki].proofs@.len() {
        (ki, pi + 1)
    } else {
        (ki + 1, 0)
    }
}

proof fn lemma_processed_step(groups: Seq<CompactKeysetProofs>, ki: int, pi: int)
    requires
        0 <= ki < groups.len(),
        0 <= pi < groups[ki].proofs@.len(),
    ensures
        processed_entries(groups, ki, pi + 1) == processed_entries(groups, ki, pi).push(
            (groups[ki].keyset_id, groups[ki].proofs@[pi]),
        ),
{
    let g = groups[ki];
    assert(group_prefix(g, pi + 1) =~= group_prefix(g, pi).push((g.keyset_id, g.proofs@[pi])));
    assert(processed_entries(groups, ki, pi + 1) =~= processed_entries(groups, ki, pi).push(
        (groups[ki].keyset_id, groups[ki].proofs@[pi]),
    ));
}

proof fn lemma_processed_next_group(groups: Seq<CompactKeysetProofs>, ki: int)
    requires
        0 <= ki < groups.len(),
    ensures
        processed_entries(groups, ki + 1, 0) == processed_entries(
            groups,
            ki,
            groups[ki].proofs@.len() as int,
        ),
{
    let g = groups[ki];
    let t = groups.take(ki + 1);
    assert(t.drop_last() =~= groups.take(ki));
    assert(t.last() == g);
    assert(group_prefix(g, g.proofs@.len() as int) =~= g.proofs@.map_values(
        |c: CompactProof| (g.keyset_id, c),
    ));
    if ki + 1 < groups.len() {
        assert(group_prefix(groups[ki + 1], 0) =~= Seq::<(KeysetId, CompactProof)>::empty());
    }
    assert(processed_entries(groups, ki + 1, 0) =~= processed_entries(
        groups,
        ki,
        g.proofs@.len() as int,
    ));
}

proof fn lemma_rows_amount(rows: Seq<ProofRow>, node_id: u32, entries: Seq<(KeysetId, CompactProof)>)
    requires
        rows_match_entries(rows, node_id, entries),
    ensures
        row_amount_sum(rows) == entries_amount(entries),
    decreases rows.len(),
{
    if rows.len() > 0 {
        let pr = rows.drop_last();
        let pe = entries.drop_last();
        assert forall|k: int| 0 <= k < pr.len() implies row_matches_entry(#[trigger] pr[k], node_id, pe[k]) by {
            assert(pr[k] == rows[k]);
            assert(pe[k] == entries[k]);
        }
        lemma_rows_amount(pr, node_id, pe);
        assert(row_matches_entry(rows[rows.len() - 1], node_id, entries[rows.len() - 1]));
    }
}

impl WadIntake {
    #[verifier::type_invariant]
    closed spec fn wf(self) -> bool {
        let gs = self.groups@;
        let ki = self.ki as int;
        let pi = self.pi as int;
        let lk = self.lookups@;
        &&& ki <= gs.len()
        &&& match self.max_order {
            None => lk.len() == ki && pi == 0,
            Some(m) => ki < gs.len() && lk.len() == ki + 1 && lk[ki].1 == m && pi < gs[ki].proofs@.len(),
        }
        &&& checks_passed(self.unit@, gs, lk, ki, pi)
        &&& rows_match_entries(self.batch@, self.node_id, processed_entries(gs, ki, pi))
    }

    /// Starts taking in the wad `groups`, received in `unit` on node `node_id`.
    pub fn new(unit: String, node_id: u32, groups: Vec<CompactKeysetProofs>) -> (s: Self)
        ensures
            s@.unit == unit@,
            s@.node_id == node_id,
            s@.groups == groups@,
            s@.lookups == Seq::<(Seq<char>, u64)>::empty(),
            s@.keyset_index == 0,
            s@.proof_index == 0,
            s@.rows == Seq::<ProofRow>::empty(),
    {
        proof {
            assert(groups@.take(0) =~= Seq::<CompactKeysetProofs>::empty());
            if groups@.len() > 0 {
                assert(group_prefix(groups@[0], 0) =~= Seq::<(KeysetId, CompactProof)>::empty());
            }
            assert(processed_entries(groups@, 0, 0) =~= Seq::<(KeysetId, CompactProof)>::empty());
        }
        WadIntake {
            unit,
            node_id,
            groups,
            ki: 0,
            pi: 0,
            max_order: None,
            batch: ReceiveBatch::new(),
            lookups: Ghost(Seq::empty()),
        }
    }

    /// What to do next: look up the next keyset, hash the next proof's secret
    /// once its amount has passed the checks, or nothing when the wad is taken
    /// in. An amount that fails the checks ends the intake with its error.
    pub fn next_step(&self) -> (r: Result<IntakeStep, ReceiveError>)
        ensures
            self@.keyset_index == self@.groups.len() ==> r == Ok::<IntakeStep, ReceiveError>(
                IntakeStep::Done,
            ),
            awaits_lookup(self@) ==> r == Ok::<IntakeStep, ReceiveError>(
                IntakeStep::LookupKeyset { keyset_id: self@.groups[self@.keyset_index].keyset_id },
            ),
            at_proof(self@) ==> {
                let p = current_proof(self@);
                let max_order = self@.lookups.last().1;
                let keyset_id = self@.groups[self@.keyset_index].keyset_id;
                &&& !power_of_two(p.amount as nat) ==> r == Err::<IntakeStep, ReceiveError>(
                    ReceiveError::AmountNotPowerOfTwo { amount: p.amount },
                )
                &&& power_of_two(p.amount as nat) && p.amount >= max_order ==> r == Err::<
                    IntakeStep,
                    ReceiveError,
                >(ReceiveError::AmountNotBelowMaxOrder { amount: p.amount, max_order, keyset_id })
                &&& power_of_two(p.amount as nat) && p.amount < max_order ==> (r matches Ok(
                    IntakeStep::HashSecret { secret },
                ) && secret@ == p.secret@)
            },
            self@.keyset_index == self@.groups.len() || awaits_lookup(self@) || at_proof(self@),
    {
        proof {
            use_type_invariant(self);
        }
        if self.ki == self.groups.len() {
            return Ok(IntakeStep::Done);
        }
        match self.max_order {
            None => Ok(IntakeStep::LookupKeyset { keyset_id: self.groups[self.ki].keyset_id }),
            Some(max_order) => {
                let group = &self.groups[self.ki];
                let p = &group.proofs[self.pi];
                match check_proof_amount(p.amount, max_order, group.keyset_id) {
                    Ok(()) => Ok(IntakeStep::HashSecret { secret: p.secret.clone() }),
                    Err(e) => Err(e),
                }
            },
        }
    }

    /// Takes in what the lookup of the next keyset reported: its unit, which
    /// must be the unit being received, and its max order.
    pub fn keyset_looked_up(self, keyset_unit: String, max_order: u64) -> (r: Result<Self, ReceiveError>)
        requires
            awaits_lookup(self@),
        ensures
            r is Ok <==> keyset_unit@ == self@.unit,
            r matches Err(e) ==> (e matches ReceiveError::UnitMismatch { keyset_unit: k, unit: u }
                && k@ == keyset_unit@ && u@ == self@.unit),
            r matches Ok(n) ==> {
                let ki = self@.keyset_index;
                &&& n@.unit == self@.unit
                &&& n@.node_id == self@.node_id
                &&& n@.groups == self@.groups
                &&& n@.rows == self@.rows
                &&& n@.lookups == self@.lookups.push((keyset_unit@, max_order))
                &&& n@.proof_index == 0
                &&& n@.keyset_index == if self@.groups[ki].proofs@.len() == 0 {
                    ki + 1
                } else {
                    ki
                }
            },
    {
        proof {
            use_type_invariant(&self);
        }
        let ghost unit_view = keyset_unit@;
        match check_keyset_unit(keyset_unit, &self.unit) {
            Err(e) => {
                return Err(e);
            },
            Ok(()) => {},
        }
        let WadIntake { unit, node_id, groups, ki, pi, max_order: _, batch, lookups } = self;
        let ghost new_lookups = lookups@.push((unit_view, max_order));
        let group_count = groups.len();
        if groups[ki].proofs.len() == 0 {
            proof {
                lemma_processed_next_group(groups@, ki as int);
                assert(group_prefix(groups@[ki as int], 0) =~= Seq::<(KeysetId, CompactProof)>::empty());
                assert forall|k: int, j: int|
                    0 <= k < new_lookups.len() && 0 <= j < (if k < ki + 1 {
                        groups@[k].proofs@.len() as int
                    } else {
                        0
                    }) implies power_of_two((#[trigger] groups@[k].proofs@[j]).amount as nat)
                    && groups@[k].proofs@[j].amount < new_lookups[k].1 by {
                    assert(k < ki);
                    assert(lookups@[k] == new_lookups[k]);
                }
            }
            Ok(
                WadIntake {
                    unit,
                    node_id,
                    groups,
                    ki: ki + 1,
                    pi: 0,
                    max_order: None,
                    batch,
                    lookups: Ghost(new_lookups),
                },
            )
        } else {
            proof {
                assert forall|k: int, j: int|
                    0 <= k < new_lookups.len() && 0 <= j < (if k < ki {
                        groups@[k].proofs@.len() as int
                    } else {
                        0
                    }) implies power_of_two((#[trigger] groups@[k].proofs@[j]).amount as nat)
                    && groups@[k].proofs@[j].amount < new_lookups[k].1 by {
                    assert(lookups@[k] == new_lookups[k]);
                }
            }
            Ok(
                WadIntake {
                    unit,
                    node_id,
                    groups,
                    ki,
                    pi: 0,
                    max_order: Some(max_order),
                    batch,
                    lookups: Ghost(new_lookups),
                },
            )
        }
    }

    /// Takes in the `y` of the proof the intake stands at, whose amount has
    /// passed the checks: its pending record is made, unless the total would
    /// no longer fit in a `u64`.
    pub fn secret_hashed(self, y: PublicKey) -> (r: Result<Self, ReceiveError>)
        requires
            at_proof(self@),
            power_of_two(current_proof(self@).amount as nat),
            current_proof(self@).amount < self@.lookups.last().1,
        ensures
            r is Ok <==> row_amount_sum(self@.rows) + current_proof(self@).amount <= u64::MAX,
            r matches Err(e) ==> e is AmountOverflow,
            r matches Ok(n) ==> {
                let ki = self@.keyset_index;
                let pi = self@.proof_index;
                let p = current_proof(self@);
                &&& n@.unit == self@.unit
                &&& n@.node_id == self@.node_id
                &&& n@.groups == self@.groups
                &&& n@.lookups == self@.lookups
                &&& n@.rows.len() == self@.rows.len() + 1
                &&& n@.rows.drop_last() == self@.rows
                &&& n@.rows.last().y == y
                &&& row_matches_entry(
                    n@.rows.last(),
                    self@.node_id,
                    (self@.groups[ki].keyset_id, p),
                )
                &&& (n@.keyset_index, n@.proof_index) == cursor_after(self@.groups, ki, pi)
            },
    {
        proof {
            use_type_invariant(&self);
        }
        let WadIntake { unit, node_id, groups, ki, pi, max_order, batch, lookups } = self;
        let ghost old_rows = batch@;
        let ghost entry = (groups@[ki as int].keyset_id, groups@[ki as int].proofs@[pi as int]);
        let keyset_id = groups[ki].keyset_id;
        let src = &groups[ki].proofs[pi];
        let proof = CompactProof { amount: src.amount, secret: src.secret.clone(), c: src.c };
        let batch = match batch.push_proof(node_id, keyset_id, proof, y) {
            Ok(b) => b,
            Err(e) => {
                return Err(e);
            },
        };
        proof {
            lemma_processed_step(groups@, ki as int, pi as int);
            let pe = processed_entries(groups@, ki as int, pi + 1);
            assert forall|k: int| 0 <= k < batch@.len() implies row_matches_entry(
                #[trigger] batch@[k],
                node_id,
                pe[k],
            ) by {
                if k < old_rows.len() {
                    assert(batch@[k] == old_rows[k]);
                } else {
                    assert(batch@[k] == batch@.last());
                }
            }
            assert forall|k: int, j: int|
                0 <= k < lookups@.len() && 0 <= j < (if k < ki {
                    groups@[k].proofs@.len() as int
                } else {
                    pi + 1
                }) implies power_of_two((#[trigger] groups@[k].proofs@[j]).amount as nat)
                && groups@[k].proofs@[j].amount < lookups@[k].1 by {
                if k == ki && j == pi {
                } else {
                }
            }
        }
        let group_count = groups.len();
        let group_len = groups[ki].proofs.len();
        if pi < group_len - 1 {
            Ok(
                WadIntake {
                    unit,
                    node_id,
                    groups,
                    ki,
                    pi: pi + 1,
                    max_order,
                    batch,
                    lookups,
                },
            )
        } else {
            proof {
                lemma_processed_next_group(groups@, ki as int);
                if ki + 1 < groups@.len() {
                    assert(group_prefix(groups@[ki + 1], 0) =~= Seq::<(KeysetId, CompactProof)>::empty());
                }
                assert forall|k: int, j: int|
                    0 <= k < lookups@.len() && 0 <= j < (if k < ki + 1 {
                        groups@[k].proofs@.len() as int
                    } else {
                        0
                    }) implies power_of_two((#[trigger] groups@[k].proofs@[j]).amount as nat)
                    && groups@[k].proofs@[j].amount < lookups@[k].1 by {
                    if k == ki {
                        assert(j < pi + 1);
                    }
                }
            }
            Ok(
                WadIntake {
                    unit,
                    node_id,
                    groups,
                    ki: ki + 1,
                    pi: 0,
                    max_order: None,
                    batch,
                    lookups,
                },
            )
        }
    }

    /// Ends a completed intake with its batch of pending records: one per
    /// proof of the wad, in order, their total the sum of the wad's amounts;
    /// every keyset was of the unit received and every amount a power of two
    /// below its keyset's max order.
    pub fn finish(self) -> (batch: ReceiveBatch)
        requires
            self@.keyset_index == self@.groups.len(),
        ensures
            batch@ == self@.rows,
            rows_match_entries(batch@, self@.node_id, wad_entries(self@.groups)),
            row_amount_sum(batch@) == entries_amount(wad_entries(self@.groups)),
            self@.lookups.len() == self@.groups.len(),
            forall|k: int| 0 <= k < self@.lookups.len() ==> (#[trigger] self@.lookups[k]).0 == self@.unit,
            forall|k: int, j: int|
                0 <= k < self@.groups.len() && 0 <= j < self@.groups[k].proofs@.len() ==> power_of_two(
                    (#[trigger] self@.groups[k].proofs@[j]).amount as nat,
                ) && self@.groups[k].proofs@[j].amount < self@.lookups[k].1,
    {
        proof {
            use_type_invariant(&self);
        }
        let WadIntake { unit: _, node_id, groups, ki: _, pi: _, max_order: _, batch, lookups: _ } = self;
        proof {
            assert(groups@.take(groups@.len() as int) =~= groups@);
            assert(processed_entries(groups@, groups@.len() as int, 0) =~= wad_entries(groups@));
            lemma_rows_amount(batch@, node_id, wad_entries(groups@));
        }
        batch
    }
}

/// Receiving a wad credits exactly what its sender packed: when the wad was
/// made from `items` and every one of its proofs has been taken in, the
/// pending records add up to the amounts of `items`.
pub proof fn lemma_receive_credits_packed_amount(
    items: Seq<Proof>,
    groups: Seq<CompactKeysetProofs>,
    node_id: u32,
    rows: Seq<ProofRow>,
)
    requires
        is_compact_grouping(items, groups),
        rows_match_entries(rows, node_id, wad_entries(groups)),
    ensures
        row_amount_sum(rows) == proofs_amount(items),
{
    lemma_rows_amount(rows, node_id, wad_entries(groups));
    lemma_wad_keeps_amount(items, groups);
}

} // verus!
