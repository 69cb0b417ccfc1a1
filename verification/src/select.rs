use vstd::prelude::*;
use crate::types::PublicKey;

verus! {

/// Sum of the amounts of a sequence of `(y, amount)` records.
pub open spec fn amount_sum(rows: Seq<(PublicKey, u64)>) -> int
    decreases rows.len(),
{
    if rows.len() == 0 {
        0
    } else {
        amount_sum(rows.drop_last()) + rows.last().1
    }
}

/// The `y` of each record, in order.
pub open spec fn ids_of(rows: Seq<(PublicKey, u64)>) -> Seq<PublicKey> {
    rows.map_values(|t: (PublicKey, u64)| t.0)
}

/// Where a greedy pass over unspent proofs stands.
pub struct GreedySelection {
    /// Proofs chosen as inputs, in the order they were seen.
    pub taken: Seq<(PublicKey, u64)>,
    /// Proofs seen but too large for what was still to be paid.
    pub not_used: Seq<(PublicKey, u64)>,
    /// What is still to be paid.
    pub remaining: int,
    /// Whether an exact match ended the pass.
    pub stopped: bool,
    /// How many records the pass has looked at.
    pub consumed: nat,
}

/// One record of the greedy pass: a proof larger than what remains is set
/// aside, one equal to it is taken and ends the pass, a smaller one is taken.
pub open spec fn greedy_step(s: GreedySelection, row: (PublicKey, u64)) -> GreedySelection {
    if s.stopped {
        s
    } else if s.remaining < row.1 {
        GreedySelection { not_used: s.not_used.push(row), consumed: s.consumed + 1, ..s }
    } else if s.remaining == row.1 {
        GreedySelection {
            taken: s.taken.push(row),
            remaining: 0,
            stopped: true,
            consumed: s.consumed + 1,
            ..s
        }
    } else {
        GreedySelection {
            taken: s.taken.push(row),
            remaining: s.remaining - row.1,
            consumed: s.consumed + 1,
            ..s
        }
    }
}

/// The greedy pass that pays `target` out of `rows`, taken in order.
pub open spec fn greedy_select(target: u64, rows: Seq<(PublicKey, u64)>) -> GreedySelection
    decreases rows.len(),
{
    if rows.len() == 0 {
        GreedySelection {
            taken: seq![],
            not_used: seq![],
            remaining: target as int,
            stopped: false,
            consumed: 0,
        }
    } else {
        greedy_step(greedy_select(target, rows.drop_last()), rows.last())
    }
}

/// `idx` is the last position of `rows` whose amount exceeds `remaining`.
pub open spec fn is_last_above(rows: Seq<(PublicKey, u64)>, remaining: int, idx: int) -> bool {
    &&& 0 <= idx < rows.len()
    &&& rows[idx].1 > remaining
    &&& forall|j: int| idx < j < rows.len() ==> rows[j].1 <= remaining
}

/// Some record of `rows` has an amount that exceeds `remaining`.
pub open spec fn has_above(rows: Seq<(PublicKey, u64)>, remaining: int) -> bool {
    exists|j: int| 0 <= j < rows.len() && rows[j].1 > remaining
}

/// `o` reports the end of the greedy pass `g`: complete when nothing is left
/// to pay; otherwise the proof to split is the last one set aside whose amount
/// exceeds what remains, if there is one.
pub open spec fn outcome_of(o: SelectionOutcome, g: GreedySelection) -> bool {
    match o {
        SelectionOutcome::Complete { proofs_ids } => g.remaining == 0 && proofs_ids@ == ids_of(g.taken),
        SelectionOutcome::NeedsSwap { proofs_ids, remaining, proof_to_swap } => {
            &&& g.remaining != 0
            &&& proofs_ids@ == ids_of(g.taken)
            &&& remaining == g.remaining
            &&& exists|idx: int|
                is_last_above(g.not_used, g.remaining, idx) && #[trigger] g.not_used[idx] == proof_to_swap
        },
        SelectionOutcome::NoSwapCandidate => g.remaining != 0 && !has_above(g.not_used, g.remaining),
    }
}

/// The result of a greedy pass over the wallet's unspent proofs.
#[derive(Debug, PartialEq, Eq)]
pub enum SelectionOutcome {
    /// The chosen proofs pay the target exactly.
    Complete { proofs_ids: Vec<PublicKey> },
    /// The chosen proofs fall short by `remaining`; `proof_to_swap` is the
    /// proof to split at the node so that the difference can be paid.
    NeedsSwap { proofs_ids: Vec<PublicKey>, remaining: u64, proof_to_swap: (PublicKey, u64) },
    /// The chosen proofs fall short and no proof that was set aside is large
    /// enough to be split for the difference.
    NoSwapCandidate,
}

/// What a selection has been given: the target and the records seen so far.
pub struct SelectionView {
    pub target: u64,
    pub seen: Seq<(PublicKey, u64)>,
}

/// A greedy pass in progress over the wallet's unspent proofs, fed one record
/// at a time (largest amounts first, as the store lists them).
pub struct ProofSelection {
    target: u64,
    proofs_ids: Vec<PublicKey>,
    proofs_not_used: Vec<(PublicKey, u64)>,
    remaining: u64,
    stopped: bool,
    seen: Ghost<Seq<(PublicKey, u64)>>,
}

impl View for ProofSelection {
    type V = SelectionView;

    closed spec fn view(&self) -> SelectionView {
        SelectionView { target: self.target, seen: self.seen@ }
    }
}

/// Every record set aside exceeds what is still to be paid, and the amounts
/// taken plus what remains make up the target.
pub proof fn lemma_greedy_invariant(target: u64, rows: Seq<(PublicKey, u64)>)
    ensures
        ({
            let g = greedy_select(target, rows);
            &&& 0 <= g.remaining <= target
            &&& amount_sum(g.taken) + g.remaining == target
            &&& g.stopped ==> g.remaining == 0
            &&& forall|i: int| 0 <= i < g.not_used.len() ==> #[trigger] g.not_used[i].1 > g.remaining
            &&& g.consumed <= rows.len()
            &&& !g.stopped ==> g.consumed == rows.len()
            &&& amount_sum(g.taken) + amount_sum(g.not_used) == amount_sum(rows.take(g.consumed as int))
        }),
    decreases rows.len(),
{
    if rows.len() > 0 {
        let prev_rows = rows.drop_last();
        lemma_greedy_invariant(target, prev_rows);
        let p = greedy_select(target, prev_rows);
        let row = rows.last();
        let g = greedy_select(target, rows);
        assert(g == greedy_step(p, row));
        if !p.stopped {
            assert(rows.take(p.consumed + 1int) =~= rows);
            assert(rows.take(p.consumed as int) =~= prev_rows);
            assert(prev_rows.take(p.consumed as int) =~= prev_rows);
            assert(rows.take(p.consumed + 1int).drop_last() =~= rows.take(p.consumed as int));
            if p.remaining < row.1 {
                assert(g.not_used.drop_last() =~= p.not_used);
                assert forall|i: int| 0 <= i < g.not_used.len() implies #[trigger] g.not_used[i].1
                    > g.remaining by {
                    if i < p.not_used.len() {
                        assert(g.not_used[i] == p.not_used[i]);
                    }
                }
            } else {
                assert(g.taken.drop_last() =~= p.taken);
                assert forall|i: int| 0 <= i < g.not_used.len() implies #[trigger] g.not_used[i].1
                    > g.remaining by {
                    assert(g.not_used[i] == p.not_used[i]);
                }
            }
        } else {
            assert(prev_rows.take(p.consumed as int) =~= rows.take(p.consumed as int));
        }
    }
}

impl ProofSelection {
    /// The fields hold the greedy pass over the records seen.
    #[verifier::type_invariant]
    closed spec fn wf(self) -> bool {
        let g = greedy_select(self.target, self.seen@);
        &&& self.proofs_ids@ == ids_of(g.taken)
        &&& self.proofs_not_used@ == g.not_used
        &&& self.remaining == g.remaining
        &&& self.stopped == g.stopped
    }

    /// Starts a pass that is to pay `target`.
    pub fn new(target: u64) -> (s: Self)
        ensures
            s@.target == target,
            s@.seen == Seq::<(PublicKey, u64)>::empty(),
    {
        proof {
            assert(ids_of(Seq::<(PublicKey, u64)>::empty()) =~= Seq::<PublicKey>::empty());
        }
        let s = ProofSelection {
            target,
            proofs_ids: Vec::new(),
            proofs_not_used: Vec::new(),
            remaining: target,
            stopped: false,
            seen: Ghost(Seq::empty()),
        };
        s
    }

    /// What is still to be paid.
    pub fn remaining(&self) -> (r: u64)
        ensures
            r == greedy_select(self@.target, self@.seen).remaining,
    {
        proof {
            use_type_invariant(self);
        }
        self.remaining
    }

    /// Whether an exact match has ended the pass: records fed after that
    /// change nothing.
    pub fn is_stopped(&self) -> (b: bool)
        ensures
            b == greedy_select(self@.target, self@.seen).stopped,
    {
        proof {
            use_type_invariant(self);
        }
        self.stopped
    }

    /// Feeds the next unspent proof `(y, amount)` to the pass.
    pub fn consider(self, y: PublicKey, amount: u64) -> (next: Self)
        ensures
            next@.target == self@.target,
            next@.seen == self@.seen.push((y, amount)),
    {
        proof {
            use_type_invariant(&self);
        }
        let ghost old_seen = self.seen@;
        let ghost new_seen = old_seen.push((y, amount));
        let ghost p = greedy_select(self.target, old_seen);
        proof {
            assert(new_seen.drop_last() =~= old_seen);
            assert(greedy_select(self.target, new_seen) == greedy_step(p, (y, amount)));
        }
        let ProofSelection { target, mut proofs_ids, mut proofs_not_used, remaining, stopped, seen: _ } = self;
        if stopped {
            return ProofSelection {
                target,
                proofs_ids,
                proofs_not_used,
                remaining,
                stopped,
                seen: Ghost(new_seen),
            };
        }
        if remaining < amount {
            proofs_not_used.push((y, amount));
            ProofSelection {
                target,
                proofs_ids,
                proofs_not_used,
                remaining,
                stopped,
                seen: Ghost(new_seen),
            }
        } else if remaining == amount {
            proofs_ids.push(y);
            proof {
                assert(ids_of(p.taken.push((y, amount))) =~= ids_of(p.taken).push(y));
            }
            ProofSelection {
                target,
                proofs_ids,
                proofs_not_used,
                remaining: 0,
                stopped: true,
                seen: Ghost(new_seen),
            }
        } else {
            proofs_ids.push(y);
            proof {
                assert(ids_of(p.taken.push((y, amount))) =~= ids_of(p.taken).push(y));
            }
            ProofSelection {
                target,
                proofs_ids,
                proofs_not_used,
                remaining: remaining - amount,
                stopped,
                seen: Ghost(new_seen),
            }
        }
    }

    /// Ends the pass. With nothing left to pay the chosen proofs are
    /// complete; otherwise the last proof set aside whose amount exceeds what
    /// remains is the one to split.
    #[verifier::loop_isolation(false)]
    pub fn finish(self) -> (o: SelectionOutcome)
        ensures
            outcome_of(o, greedy_select(self@.target, self@.seen)),
    {
        proof {
            use_type_invariant(&self);
        }
        let ghost g = greedy_select(self.target, self.seen@);
        let ProofSelection { target: _, proofs_ids, proofs_not_used, remaining, stopped: _, seen: _ } = self;
        if remaining == 0 {
            return SelectionOutcome::Complete { proofs_ids };
        }
        let mut i: usize = proofs_not_used.len();
        while i > 0
            invariant
                i <= proofs_not_used.len(),
                forall|j: int| i <= j < proofs_not_used.len() ==> proofs_not_used@[j].1 <= remaining,
            decreases i,
        {
            let (y, a) = proofs_not_used[i - 1];
            if a > remaining {
                proof {
                    let k: int = i - 1;
                    assert(is_last_above(g.not_used, g.remaining, k));
                    assert(g.not_used[k] == (y, a));
                    assert(exists|idx: int|
                        is_last_above(g.not_used, g.remaining, idx) && #[trigger] g.not_used[idx]
                            == (y, a));
                }
                let o = SelectionOutcome::NeedsSwap { proofs_ids, remaining, proof_to_swap: (y, a) };
                assert(outcome_of(o, g));
                return o;
            }
            i = i - 1;
        }
        SelectionOutcome::NoSwapCandidate
    }
}

/// Starts the selection of proofs that pay `target`, unless the wallet holds
/// less than that in total.
pub fn begin_selection(total_available: u64, target: u64) -> (s: Option<ProofSelection>)
    ensures
        s is None <==> total_available < target,
        s matches Some(sel) ==> sel@.target == target && sel@.seen == Seq::<(PublicKey, u64)>::empty(),
{
    if total_available < target {
        None
    } else {
        Some(ProofSelection::new(target))
    }
}

/// When the proofs fed to the pass hold at least the target in total, the
/// pass never lacks a proof to split: whenever something remains to be paid,
/// every proof set aside exceeds it, so the last of them is the one to split.
/// When the pass completes, the proofs taken pay the target exactly.
pub proof fn lemma_selection_outcome(target: u64, rows: Seq<(PublicKey, u64)>, o: SelectionOutcome)
    requires
        outcome_of(o, greedy_select(target, rows)),
    ensures
        o is Complete ==> amount_sum(greedy_select(target, rows).taken) == target,
        amount_sum(rows) >= target ==> !(o is NoSwapCandidate),
        amount_sum(rows) >= target && o is NeedsSwap ==> {
            let g = greedy_select(target, rows);
            &&& g.not_used.len() > 0
            &&& o->proof_to_swap == g.not_used.last()
        },
{
    let g = greedy_select(target, rows);
    lemma_greedy_invariant(target, rows);
    if amount_sum(rows) >= target && g.remaining != 0 {
        assert(rows.take(rows.len() as int) =~= rows);
        assert(amount_sum(g.not_used) >= g.remaining);
        if g.not_used.len() == 0 {
            assert(amount_sum(g.not_used) == 0);
        }
        let last: int = g.not_used.len() - 1;
        assert(is_last_above(g.not_used, g.remaining, last));
        assert(has_above(g.not_used, g.remaining));
        if o is NeedsSwap {
            let idx = choose|idx: int|
                is_last_above(g.not_used, g.remaining, idx) && #[trigger] g.not_used[idx]
                    == o->proof_to_swap;
            assert(idx == last);
        }
    }
}

/// The swapped tokens taken by the final pass, looked at from the last one
/// backwards: a token larger than what remains is skipped, one equal to it is
/// taken and ends the pass, a smaller one is taken.
pub open spec fn take_swapped(remaining: int, tokens: Seq<(PublicKey, u64)>) -> Seq<(PublicKey, u64)>
    decreases tokens.len(),
{
    if tokens.len() == 0 {
        seq![]
    } else {
        let t = tokens.last();
        if remaining < t.1 {
            take_swapped(remaining, tokens.drop_last())
        } else if remaining == t.1 {
            seq![t]
        } else {
            seq![t] + take_swapped(remaining - t.1, tokens.drop_last())
        }
    }
}

/// Completes a selection that needed a swap: the tokens the swap produced
/// are walked from the last one back and taken while they fit in what
/// remains, until one matches it exactly.
pub fn take_from_swapped_tokens(
    proofs_ids: Vec<PublicKey>,
    remaining: u64,
    new_tokens: &Vec<(PublicKey, u64)>,
) -> (ids: Vec<PublicKey>)
    ensures
        ids@ == proofs_ids@ + ids_of(take_swapped(remaining as int, new_tokens@)),
{
    let mut ids = proofs_ids;
    let mut rem: u64 = remaining;
    let mut i: usize = new_tokens.len();
    let ghost mut extra: Seq<(PublicKey, u64)> = seq![];
    proof {
        assert(new_tokens@.take(i as int) =~= new_tokens@);
        assert(ids_of(extra) =~= Seq::<PublicKey>::empty());
        assert(ids@ =~= proofs_ids@ + ids_of(extra));
    }
    while i > 0
        invariant_except_break
            i <= new_tokens.len(),
            extra + take_swapped(rem as int, new_tokens@.take(i as int)) == take_swapped(
                remaining as int,
                new_tokens@,
            ),
            ids@ == proofs_ids@ + ids_of(extra),
        ensures
            ids@ == proofs_ids@ + ids_of(take_swapped(remaining as int, new_tokens@)),
        decreases i,
    {
        let (y, a) = new_tokens[i - 1];
        let ghost prefix = new_tokens@.take(i as int);
        proof {
            assert(prefix.drop_last() =~= new_tokens@.take(i - 1));
            assert(prefix.last() == (y, a));
        }
        if rem < a {
        } else if rem == a {
            ids.push(y);
            proof {
                assert(take_swapped(rem as int, prefix) == seq![(y, a)]);
                assert(extra + seq![(y, a)] == take_swapped(remaining as int, new_tokens@));
                assert(ids_of(extra + seq![(y, a)]) =~= ids_of(extra).push(y));
            }
            break;
        } else {
            ids.push(y);
            proof {
                assert(take_swapped(rem as int, prefix) == seq![(y, a)] + take_swapped(
                    rem - a,
                    new_tokens@.take(i - 1),
                ));
                assert(ids_of(extra.push((y, a))) =~= ids_of(extra).push(y));
                assert(extra + take_swapped(rem as int, prefix) =~= extra.push((y, a))
                    + take_swapped(rem - a, new_tokens@.take(i - 1)));
                extra = extra.push((y, a));
            }
            rem = rem - a;
        }
        i = i - 1;
    }
    proof {
        if i == 0 {
            assert(take_swapped(rem as int, new_tokens@.take(0)) =~= Seq::<(PublicKey, u64)>::empty());
            assert(extra =~= extra + Seq::<(PublicKey, u64)>::empty());
        }
    }
    ids
}

/// The swapped tokens taken never pay more than what remained, and they pay
/// it exactly when the pass ends on a token that matches what is left.
pub proof fn lemma_take_swapped_bounded(remaining: int, tokens: Seq<(PublicKey, u64)>)
    requires
        remaining >= 0,
    ensures
        amount_sum(take_swapped(remaining, tokens)) <= remaining,
    decreases tokens.len(),
{
    if tokens.len() > 0 {
        let t = tokens.last();
        lemma_take_swapped_bounded(remaining, tokens.drop_last());
        if remaining > t.1 {
            let rest = take_swapped(remaining - t.1, tokens.drop_last());
            lemma_take_swapped_bounded(remaining - t.1, tokens.drop_last());
            lemma_amount_sum_prepend(t, rest);
        } else if remaining == t.1 {
            lemma_amount_sum_prepend(t, Seq::<(PublicKey, u64)>::empty());
            assert(seq![t] + Seq::<(PublicKey, u64)>::empty() =~= seq![t]);
        }
    }
}

/// Putting a record in front adds its amount to the sum.
pub proof fn lemma_amount_sum_prepend(t: (PublicKey, u64), rows: Seq<(PublicKey, u64)>)
    ensures
        amount_sum(seq![t] + rows) == t.1 + amount_sum(rows),
    decreases rows.len(),
{
    if rows.len() == 0 {
        assert(seq![t] + rows =~= seq![t]);
        assert(seq![t].drop_last() =~= Seq::<(PublicKey, u64)>::empty());
        assert(amount_sum(Seq::<(PublicKey, u64)>::empty()) == 0);
    } else {
        lemma_amount_sum_prepend(t, rows.drop_last());
        assert((seq![t] + rows).drop_last() =~= seq![t] + rows.drop_last());
        assert((seq![t] + rows).last() == rows.last());
    }
}

/// The inputs gathered for a payment never exceed its target: the proofs
/// taken by the first pass plus the swapped tokens taken after it sum to at
/// most the target.
pub proof fn lemma_inputs_within_target(
    target: u64,
    rows: Seq<(PublicKey, u64)>,
    new_tokens: Seq<(PublicKey, u64)>,
)
    ensures
        ({
            let g = greedy_select(target, rows);
            amount_sum(g.taken) + amount_sum(take_swapped(g.remaining, new_tokens)) <= target
        }),
{
    lemma_greedy_invariant(target, rows);
    lemma_take_swapped_bounded(greedy_select(target, rows).remaining, new_tokens);
}

/// Every proof the first pass takes or sets aside is one it was given.
pub proof fn lemma_selected_were_listed(target: u64, rows: Seq<(PublicKey, u64)>)
    ensures
        forall|i: int|
            0 <= i < greedy_select(target, rows).taken.len() ==> rows.contains(
                #[trigger] greedy_select(target, rows).taken[i],
            ),
        forall|i: int|
            0 <= i < greedy_select(target, rows).not_used.len() ==> rows.contains(
                #[trigger] greedy_select(target, rows).not_used[i],
            ),
    decreases rows.len(),
{
    if rows.len() > 0 {
        let prev = rows.drop_last();
        lemma_selected_were_listed(target, prev);
        let p = greedy_select(target, prev);
        let g = greedy_select(target, rows);
        assert forall|i: int| 0 <= i < g.taken.len() implies rows.contains(#[trigger] g.taken[i]) by {
            if i < p.taken.len() {
                assert(g.taken[i] == p.taken[i]);
                assert(prev.contains(p.taken[i]));
                let k = choose|k: int| 0 <= k < prev.len() && prev[k] == p.taken[i];
                assert(rows[k] == prev[k]);
            } else {
                assert(g.taken[i] == rows[rows.len() - 1]);
            }
        }
        assert forall|i: int| 0 <= i < g.not_used.len() implies rows.contains(
            #[trigger] g.not_used[i],
        ) by {
            if i < p.not_used.len() {
                assert(g.not_used[i] == p.not_used[i]);
                assert(prev.contains(p.not_used[i]));
                let k = choose|k: int| 0 <= k < prev.len() && prev[k] == p.not_used[i];
                assert(rows[k] == prev[k]);
            } else {
                assert(g.not_used[i] == rows[rows.len() - 1]);
            }
        }
    }
}

/// How the walk over the swapped tokens treats the token it looks at (the
/// last of `ts.push(t)`): one too large for what remains is skipped and the
/// walk goes on over the others with the same remainder; one equal to what
/// remains is taken and ends the walk; a smaller one is taken and the walk
/// goes on over the others with the remainder reduced by its amount, so the
/// taken tokens pay its amount plus what that walk pays.
pub proof fn lemma_take_swapped_walk(r: int, ts: Seq<(PublicKey, u64)>, t: (PublicKey, u64))
    requires
        r >= 0,
    ensures
        t.1 > r ==> take_swapped(r, ts.push(t)) == take_swapped(r, ts),
        t.1 == r ==> take_swapped(r, ts.push(t)) == seq![t],
        t.1 < r ==> take_swapped(r, ts.push(t)) == seq![t] + take_swapped(r - t.1, ts),
        t.1 > r ==> amount_sum(take_swapped(r, ts.push(t))) == amount_sum(take_swapped(r, ts)),
        t.1 == r ==> amount_sum(take_swapped(r, ts.push(t))) == r,
        t.1 < r ==> amount_sum(take_swapped(r, ts.push(t))) == t.1 + amount_sum(
            take_swapped(r - t.1, ts),
        ),
{
    let s = ts.push(t);
    assert(s.drop_last() =~= ts);
    assert(s.last() == t);
    lemma_amount_sum_prepend(t, Seq::<(PublicKey, u64)>::empty());
    assert(seq![t] + Seq::<(PublicKey, u64)>::empty() =~= seq![t]);
    lemma_amount_sum_prepend(t, take_swapped(r - t.1, ts));
}

/// The walk over no tokens takes nothing, and once nothing remains to be paid
/// it takes no token of positive amount.
pub proof fn lemma_take_swapped_base(r: int, ts: Seq<(PublicKey, u64)>)
    ensures
        take_swapped(r, Seq::<(PublicKey, u64)>::empty()) == Seq::<(PublicKey, u64)>::empty(),
        r == 0 && (forall|i: int| 0 <= i < ts.len() ==> #[trigger] ts[i].1 > 0) ==> take_swapped(r, ts)
            == Seq::<(PublicKey, u64)>::empty(),
    decreases ts.len(),
{
    if r == 0 && ts.len() > 0 && (forall|i: int| 0 <= i < ts.len() ==> #[trigger] ts[i].1 > 0) {
        let p = ts.drop_last();
        assert(ts.last().1 > 0) by {
            assert(ts.last() == ts[ts.len() - 1]);
        }
        assert forall|i: int| 0 <= i < p.len() implies #[trigger] p[i].1 > 0 by {
            assert(p[i] == ts[i]);
        }
        lemma_take_swapped_base(r, p);
    }
}

} // verus!
