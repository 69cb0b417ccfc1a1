use vstd::prelude::*;
use crate::types::{KeysetId, Proof, PublicKey};

verus! {

/// The address of a node.
#[derive(Clone, Debug)]
pub struct NodeUrl {
    pub url: String,
}

/// A proof inside a wad: its keyset is given once for the whole group.
#[derive(Clone, Debug)]
pub struct CompactProof {
    pub amount: u64,
    pub secret: String,
    pub c: PublicKey,
}

/// The proofs of a wad that belong to one keyset.
#[derive(Clone, Debug)]
pub struct CompactKeysetProofs {
    pub keyset_id: KeysetId,
    pub proofs: Vec<CompactProof>,
}

/// A bundle of proofs sent from one wallet to another.
#[derive(Clone, Debug)]
pub struct CompactWad<U> {
    pub node_url: NodeUrl,
    pub unit: U,
    pub memo: Option<String>,
    pub proofs: Vec<CompactKeysetProofs>,
}

/// `c` is the compact form of `p`.
pub open spec fn compact_matches(c: CompactProof, p: Proof) -> bool {
    &&& c.amount == p.amount
    &&& c.secret@ == p.secret@
    &&& c.c == p.c
}

/// The proofs of a grouping, one group after another.
pub open spec fn flatten_groups(groups: Seq<(KeysetId, Vec<Proof>)>) -> Seq<Proof>
    decreases groups.len(),
{
    if groups.len() == 0 {
        seq![]
    } else {
        flatten_groups(groups.drop_last()) + groups.last().1@
    }
}

/// `groups` splits `items` into its maximal runs of proofs that share a
/// keyset: in order, no group empty, every proof of a group under the
/// group's keyset, and no two neighbouring groups under the same keyset.
pub open spec fn is_run_grouping(items: Seq<Proof>, groups: Seq<(KeysetId, Vec<Proof>)>) -> bool {
    &&& flatten_groups(groups) == items
    &&& forall|g: int| 0 <= g < groups.len() ==> (#[trigger] groups[g]).1@.len() > 0
    &&& forall|g: int, j: int|
        0 <= g < groups.len() && 0 <= j < groups[g].1@.len() ==> (#[trigger] groups[g].1@[j]).keyset_id
            == groups[g].0
    &&& forall|g: int| 0 <= g < groups.len() - 1 ==> (#[trigger] groups[g]).0 != groups[g + 1].0
}

/// The proofs of a wad, each with the keyset of its group, in order.
pub open spec fn wad_entries(groups: Seq<CompactKeysetProofs>) -> Seq<(KeysetId, CompactProof)>
    decreases groups.len(),
{
    if groups.len() == 0 {
        seq![]
    } else {
        let last = groups.last();
        wad_entries(groups.drop_last()) + last.proofs@.map_values(
            |c: CompactProof| (last.keyset_id, c),
        )
    }
}

/// `groups` holds exactly the proofs `items`, in order, each under its own
/// keyset, one group per maximal run of proofs that share a keyset.
pub open spec fn is_compact_grouping(items: Seq<Proof>, groups: Seq<CompactKeysetProofs>) -> bool {
    let entries = wad_entries(groups);
    &&& entries.len() == items.len()
    &&& forall|k: int|
        0 <= k < items.len() ==> (#[trigger] entries[k]).0 == items[k].keyset_id && compact_matches(
            entries[k].1,
            items[k],
        )
    &&& forall|g: int| 0 <= g < groups.len() ==> (#[trigger] groups[g]).proofs@.len() > 0
    &&& forall|g: int| 0 <= g < groups.len() - 1 ==> (#[trigger] groups[g]).keyset_id != groups[g + 1].keyset_id
}

/// Whether two keyset ids are the same.
pub fn same_keyset(a: &KeysetId, b: &KeysetId) -> (r: bool)
    ensures
        r == (*a == *b),
{
    let mut i: usize = 0;
    while i < 8
        invariant
            i <= 8,
            forall|j: int| 0 <= j < i ==> a.bytes[j] == b.bytes[j],
        decreases 8 - i,
    {
        if a.bytes[i] != b.bytes[i] {
            return false;
        }
        i = i + 1;
    }
    proof {
        assert(a.bytes =~= b.bytes);
    }
    true
}

/// Adding a nonempty group of proofs that share its keyset, under a keyset
/// other than the last group's, extends a run grouping of `items` to one of
/// `items` followed by the group's proofs.
proof fn lemma_push_group(
    items: Seq<Proof>,
    groups: Seq<(KeysetId, Vec<Proof>)>,
    g: (KeysetId, Vec<Proof>),
)
    requires
        is_run_grouping(items, groups),
        g.1@.len() > 0,
        forall|j: int| 0 <= j < g.1@.len() ==> (#[trigger] g.1@[j]).keyset_id == g.0,
        groups.len() > 0 ==> groups.last().0 != g.0,
    ensures
        is_run_grouping(items + g.1@, groups.push(g)),
{
    let ng = groups.push(g);
    assert(ng.drop_last() =~= groups);
    assert(ng.last() == g);
    assert forall|k: int| 0 <= k < ng.len() implies (#[trigger] ng[k]).1@.len() > 0 by {
        if k < groups.len() {
            assert(ng[k] == groups[k]);
        }
    }
    assert forall|k: int, j: int| 0 <= k < ng.len() && 0 <= j < ng[k].1@.len() implies (#[trigger] ng[
        k
    ].1@[j]).keyset_id == ng[k].0 by {
        if k < groups.len() {
            assert(ng[k] == groups[k]);
        }
    }
    assert forall|k: int| 0 <= k < ng.len() - 1 implies (#[trigger] ng[k]).0 != ng[k + 1].0 by {
        assert(ng[k] == groups[k]);
        if k + 1 < groups.len() {
            assert(ng[k + 1] == groups[k + 1]);
        } else {
            assert(groups.last() == groups[k]);
        }
    }
}

/// Splits the proofs into their maximal runs of proofs that share a keyset:
/// a new group starts exactly where the keyset changes.
fn chunk_by_keyset(proofs: Vec<Proof>) -> (groups: Vec<(KeysetId, Vec<Proof>)>)
    ensures
        is_run_grouping(proofs@, groups@),
{
    let ghost items = proofs@;
    let mut rest = proofs;
    let mut groups: Vec<(KeysetId, Vec<Proof>)> = Vec::new();
    let mut cur: Vec<Proof> = Vec::new();
    let mut cur_key = KeysetId { bytes: [0u8; 8] };
    let ghost mut c: int = 0;
    proof {
        assert(items.skip(0) =~= items);
        assert(flatten_groups(groups@) =~= items.take(0));
    }
    while rest.len() > 0
        invariant
            0 <= c <= items.len(),
            rest@ == items.skip(c),
            c > 0 <==> cur@.len() > 0,
            cur@.len() <= c,
            cur@ == items.subrange(c - cur@.len(), c),
            forall|j: int| 0 <= j < cur@.len() ==> (#[trigger] cur@[j]).keyset_id == cur_key,
            is_run_grouping(items.take(c - cur@.len()), groups@),
            groups@.len() > 0 && cur@.len() > 0 ==> groups@.last().0 != cur_key,
        decreases rest.len(),
    {
        let ghost old_rest = rest@;
        let p = rest.remove(0);
        proof {
            assert(p == items[c]);
            assert(rest@ =~= items.skip(c + 1));
        }
        if cur.len() > 0 && same_keyset(&p.keyset_id, &cur_key) {
            let ghost old_cur = cur@;
            cur.push(p);
            proof {
                assert(cur@ =~= items.subrange(c + 1 - cur@.len(), c + 1));
                assert(items.take(c + 1 - cur@.len()) =~= items.take(c - old_cur.len()));
            }
        } else {
            if cur.len() > 0 {
                let ghost closed_prefix = items.take(c - cur@.len());
                proof {
                    lemma_push_group(closed_prefix, groups@, (cur_key, cur));
                    assert(closed_prefix + cur@ =~= items.take(c));
                }
                groups.push((cur_key, cur));
                cur = Vec::new();
            }
            cur_key = p.keyset_id;
            cur.push(p);
            proof {
                assert(cur@ =~= items.subrange(c, c + 1));
            }
        }
        proof {
            c = c + 1;
        }
    }
    proof {
        assert(c == items.len()) by {
            assert(items.skip(c).len() == 0);
        }
    }
    if cur.len() > 0 {
        proof {
            let closed_prefix = items.take(c - cur@.len());
            lemma_push_group(closed_prefix, groups@, (cur_key, cur));
            assert(closed_prefix + cur@ =~= items);
        }
        groups.push((cur_key, cur));
    } else {
        proof {
            assert(items.take(c) =~= items);
        }
    }
    groups
}

/// The compact form of one proof.
fn compact_proof(p: &Proof) -> (c: CompactProof)
    ensures
        compact_matches(c, *p),
{
    CompactProof { amount: p.amount, secret: p.secret.clone(), c: p.c }
}

/// Group by group, the compact groups hold the compact forms of the proofs.
pub open spec fn groups_correspond(
    out: Seq<CompactKeysetProofs>,
    groups: Seq<(KeysetId, Vec<Proof>)>,
) -> bool {
    &&& out.len() == groups.len()
    &&& forall|g: int|
        0 <= g < groups.len() ==> (#[trigger] out[g]).keyset_id == groups[g].0 && out[g].proofs@.len()
            == groups[g].1@.len()
    &&& forall|g: int, j: int|
        0 <= g < groups.len() && 0 <= j < groups[g].1@.len() ==> compact_matches(
            #[trigger] out[g].proofs@[j],
            groups[g].1@[j],
        )
}

proof fn lemma_entries_follow_groups(out: Seq<CompactKeysetProofs>, groups: Seq<(KeysetId, Vec<Proof>)>)
    requires
        groups_correspond(out, groups),
        forall|g: int, j: int|
            0 <= g < groups.len() && 0 <= j < groups[g].1@.len() ==> (#[trigger] groups[g].1@[j]).keyset_id
                == groups[g].0,
    ensures
        wad_entries(out).len() == flatten_groups(groups).len(),
        forall|k: int|
            0 <= k < flatten_groups(groups).len() ==> (#[trigger] wad_entries(out)[k]).0
                == flatten_groups(groups)[k].keyset_id && compact_matches(
                wad_entries(out)[k].1,
                flatten_groups(groups)[k],
            ),
    decreases groups.len(),
{
    if groups.len() > 0 {
        let n = groups.len() - 1;
        let po = out.drop_last();
        let pg = groups.drop_last();
        assert forall|g: int| 0 <= g < pg.len() implies (#[trigger] po[g]).keyset_id == pg[g].0
            && po[g].proofs@.len() == pg[g].1@.len() by {
            assert(po[g] == out[g]);
            assert(pg[g] == groups[g]);
        }
        assert forall|g: int, j: int| 0 <= g < pg.len() && 0 <= j < pg[g].1@.len() implies compact_matches(
            #[trigger] po[g].proofs@[j],
            pg[g].1@[j],
        ) by {
            assert(po[g] == out[g]);
            assert(pg[g] == groups[g]);
        }
        assert forall|g: int, j: int| 0 <= g < pg.len() && 0 <= j < pg[g].1@.len() implies (#[trigger] pg[
            g
        ].1@[j]).keyset_id == pg[g].0 by {
            assert(pg[g] == groups[g]);
        }
        lemma_entries_follow_groups(po, pg);
        let last = out.last();
        let tail = last.proofs@.map_values(|c: CompactProof| (last.keyset_id, c));
        let m = flatten_groups(pg).len();
        assert forall|k: int| 0 <= k < flatten_groups(groups).len() implies (#[trigger] wad_entries(
            out,
        )[k]).0 == flatten_groups(groups)[k].keyset_id && compact_matches(
            wad_entries(out)[k].1,
            flatten_groups(groups)[k],
        ) by {
            if k < m {
                assert(wad_entries(out)[k] == wad_entries(po)[k]);
                assert(flatten_groups(groups)[k] == flatten_groups(pg)[k]);
            } else {
                let j = k - m;
                assert(wad_entries(out)[k] == tail[j]);
                assert(flatten_groups(groups)[k] == groups[n].1@[j]);
                assert(compact_matches(out[n].proofs@[j], groups[n].1@[j]));
            }
        }
    }
}

/// Builds a wad from proofs: every maximal run of proofs that share a keyset
/// becomes one group, and each proof keeps its amount, secret and signature.
pub fn create_wad_from_proofs<U>(
    node_url: NodeUrl,
    unit: U,
    memo: Option<String>,
    proofs: Vec<Proof>,
) -> (wad: CompactWad<U>)
    ensures
        wad.node_url == node_url,
        wad.unit == unit,
        wad.memo == memo,
        is_compact_grouping(proofs@, wad.proofs@),
{
    let ghost items = proofs@;
    let groups = chunk_by_keyset(proofs);
    let mut out: Vec<CompactKeysetProofs> = Vec::new();
    let mut i: usize = 0;
    while i < groups.len()
        invariant
            i <= groups.len(),
            groups_correspond(out@, groups@.take(i as int)),
        decreases groups.len() - i,
    {
        let group = &groups[i].1;
        let mut compact: Vec<CompactProof> = Vec::new();
        let mut j: usize = 0;
        while j < group.len()
            invariant
                j <= group.len(),
                compact.len() == j,
                forall|l: int| 0 <= l < j ==> #[trigger] compact_matches(compact@[l], group@[l]),
            decreases group.len() - j,
        {
            compact.push(compact_proof(&group[j]));
            j = j + 1;
        }
        let ghost prev = out@;
        out.push(CompactKeysetProofs { keyset_id: groups[i].0, proofs: compact });
        proof {
            let t = groups@.take(i + 1int);
            assert forall|g: int| 0 <= g < t.len() implies (#[trigger] out@[g]).keyset_id == t[g].0
                && out@[g].proofs@.len() == t[g].1@.len() by {
                if g < i {
                    assert(out@[g] == prev[g]);
                    assert(t[g] == groups@.take(i as int)[g]);
                }
            }
            assert forall|g: int, l: int| 0 <= g < t.len() && 0 <= l < t[g].1@.len() implies compact_matches(
                #[trigger] out@[g].proofs@[l],
                t[g].1@[l],
            ) by {
                if g < i {
                    assert(out@[g] == prev[g]);
                    assert(t[g] == groups@.take(i as int)[g]);
                }
            }
        }
        i = i + 1;
    }
    proof {
        assert(groups@.take(groups.len() as int) =~= groups@);
        lemma_entries_follow_groups(out@, groups@);
        assert forall|g: int| 0 <= g < out@.len() implies (#[trigger] out@[g]).proofs@.len() > 0 by {
            assert(groups@[g].1@.len() > 0);
        }
        assert forall|g: int| 0 <= g < out@.len() - 1 implies (#[trigger] out@[g]).keyset_id
            != out@[g + 1].keyset_id by {
            assert(groups@[g].0 != groups@[g + 1].0);
        }
    }
    CompactWad { node_url, unit, memo, proofs: out }
}

/// Sum of the amounts of proofs.
pub open spec fn proofs_amount(items: Seq<Proof>) -> int
    decreases items.len(),
{
    if items.len() == 0 {
        0
    } else {
        proofs_amount(items.drop_last()) + items.last().amount
    }
}

/// Sum of the amounts of the proofs of a wad.
pub open spec fn entries_amount(entries: Seq<(KeysetId, CompactProof)>) -> int
    decreases entries.len(),
{
    if entries.len() == 0 {
        0
    } else {
        entries_amount(entries.drop_last()) + entries.last().1.amount
    }
}

proof fn lemma_pointwise_amounts(items: Seq<Proof>, entries: Seq<(KeysetId, CompactProof)>)
    requires
        entries.len() == items.len(),
        forall|k: int| 0 <= k < items.len() ==> (#[trigger] entries[k]).1.amount == items[k].amount,
    ensures
        entries_amount(entries) == proofs_amount(items),
    decreases items.len(),
{
    if items.len() > 0 {
        let pe = entries.drop_last();
        let pi = items.drop_last();
        assert forall|k: int| 0 <= k < pi.len() implies (#[trigger] pe[k]).1.amount == pi[k].amount by {
            assert(pe[k] == entries[k]);
            assert(pi[k] == items[k]);
        }
        lemma_pointwise_amounts(pi, pe);
        assert(entries.last().1.amount == items.last().amount) by {
            assert(entries.last() == entries[items.len() - 1]);
        }
    }
}

/// Packing proofs into a wad keeps their value: the proofs of the wad add up
/// to what the packed proofs add up to.
pub proof fn lemma_wad_keeps_amount(items: Seq<Proof>, groups: Seq<CompactKeysetProofs>)
    requires
        is_compact_grouping(items, groups),
    ensures
        entries_amount(wad_entries(groups)) == proofs_amount(items),
{
    let entries = wad_entries(groups);
    assert forall|k: int| 0 <= k < items.len() implies (#[trigger] entries[k]).1.amount
        == items[k].amount by {
        assert(compact_matches(entries[k].1, items[k]));
    }
    lemma_pointwise_amounts(items, entries);
}

/// The last `s` proofs of `items` form its final run: they share the last
/// proof's keyset, and the proof before them, if any, does not.
pub open spec fn is_last_run(items: Seq<Proof>, s: int) -> bool {
    let n = items.len() as int;
    &&& 0 < s <= n
    &&& forall|k: int| n - s <= k < n ==> (#[trigger] items[k]).keyset_id == items[n - 1].keyset_id
    &&& s < n ==> items[n - s - 1].keyset_id != items[n - 1].keyset_id
}

proof fn lemma_last_run_unique(items: Seq<Proof>, s1: int, s2: int)
    requires
        is_last_run(items, s1),
        is_last_run(items, s2),
    ensures
        s1 == s2,
{
    let n = items.len() as int;
    if s1 < s2 {
        assert(items[n - s1 - 1].keyset_id == items[n - 1].keyset_id);
    } else if s2 < s1 {
        assert(items[n - s2 - 1].keyset_id == items[n - 1].keyset_id);
    }
}

proof fn lemma_entries_split(groups: Seq<CompactKeysetProofs>)
    requires
        groups.len() > 0,
    ensures
        ({
            let p = wad_entries(groups.drop_last());
            let e = wad_entries(groups);
            let last = groups.last();
            &&& e.len() == p.len() + last.proofs@.len()
            &&& forall|k: int| 0 <= k < p.len() ==> #[trigger] e[k] == p[k]
            &&& forall|k: int|
                p.len() <= k < e.len() ==> #[trigger] e[k] == (last.keyset_id, last.proofs@[k - p.len()])
        }),
{
}

proof fn lemma_entries_nonempty(groups: Seq<CompactKeysetProofs>)
    requires
        groups.len() > 0,
        groups.last().proofs@.len() > 0,
    ensures
        wad_entries(groups).len() > 0,
        wad_entries(groups).last().0 == groups.last().keyset_id,
{
    lemma_entries_split(groups);
}

proof fn lemma_grouping_last(items: Seq<Proof>, groups: Seq<CompactKeysetProofs>)
    requires
        is_compact_grouping(items, groups),
        groups.len() > 0,
    ensures
        is_last_run(items, groups.last().proofs@.len() as int),
        groups.last().keyset_id == items.last().keyset_id,
        is_compact_grouping(
            items.take(items.len() - groups.last().proofs@.len()),
            groups.drop_last(),
        ),
{
    let n = items.len() as int;
    let last = groups.last();
    let s = last.proofs@.len() as int;
    let pg = groups.drop_last();
    let e = wad_entries(groups);
    let p = wad_entries(pg);
    lemma_entries_split(groups);
    assert(groups[groups.len() - 1] == last);
    assert(s > 0);
    assert(p.len() == n - s);
    assert(e[n - 1] == (last.keyset_id, last.proofs@[s - 1]));
    assert(e[n - 1].0 == items[n - 1].keyset_id);
    assert forall|k: int| n - s <= k < n implies (#[trigger] items[k]).keyset_id
        == items[n - 1].keyset_id by {
        assert(e[k] == (last.keyset_id, last.proofs@[k - p.len()]));
        assert(e[k].0 == items[k].keyset_id);
    }
    if s < n {
        assert(pg.len() > 0);
        assert(pg.last() == groups[groups.len() - 2]);
        assert(pg.last().proofs@.len() > 0);
        lemma_entries_nonempty(pg);
        assert(e[n - s - 1] == p[n - s - 1]);
        assert(e[n - s - 1].0 == items[n - s - 1].keyset_id);
        assert(groups[groups.len() - 2].keyset_id != groups[groups.len() - 1].keyset_id);
    }
    let t = items.take(n - s);
    assert forall|k: int| 0 <= k < t.len() implies (#[trigger] p[k]).0 == t[k].keyset_id && compact_matches(
        p[k].1,
        t[k],
    ) by {
        assert(e[k] == p[k]);
        assert(t[k] == items[k]);
    }
    assert forall|g: int| 0 <= g < pg.len() implies (#[trigger] pg[g]).proofs@.len() > 0 by {
        assert(pg[g] == groups[g]);
    }
    assert forall|g: int| 0 <= g < pg.len() - 1 implies (#[trigger] pg[g]).keyset_id != pg[g
        + 1].keyset_id by {
        assert(pg[g] == groups[g]);
        assert(pg[g + 1] == groups[g + 1]);
    }
}

/// A list of proofs has one compact grouping only: any two groupings that
/// meet the contract of `create_wad_from_proofs` have the same groups, under
/// the same keysets, of the same sizes.
pub proof fn lemma_compact_grouping_unique(
    items: Seq<Proof>,
    g1: Seq<CompactKeysetProofs>,
    g2: Seq<CompactKeysetProofs>,
)
    requires
        is_compact_grouping(items, g1),
        is_compact_grouping(items, g2),
    ensures
        g1.len() == g2.len(),
        forall|g: int|
            0 <= g < g1.len() ==> (#[trigger] g1[g]).keyset_id == g2[g].keyset_id && g1[g].proofs@.len()
                == g2[g].proofs@.len(),
    decreases items.len(),
{
    if g1.len() > 0 {
        assert(g1.last() == g1[g1.len() - 1]);
        lemma_entries_nonempty(g1);
    }
    if g2.len() > 0 {
        assert(g2.last() == g2[g2.len() - 1]);
        lemma_entries_nonempty(g2);
    }
    if items.len() > 0 {
        assert(g1.len() > 0 && g2.len() > 0);
        lemma_grouping_last(items, g1);
        lemma_grouping_last(items, g2);
        let s1 = g1.last().proofs@.len() as int;
        let s2 = g2.last().proofs@.len() as int;
        lemma_last_run_unique(items, s1, s2);
        let t = items.take(items.len() - s1);
        lemma_compact_grouping_unique(t, g1.drop_last(), g2.drop_last());
        assert forall|g: int| 0 <= g < g1.len() implies (#[trigger] g1[g]).keyset_id == g2[g].keyset_id
            && g1[g].proofs@.len() == g2[g].proofs@.len() by {
            if g < g1.len() - 1 {
                assert(g1[g] == g1.drop_last()[g]);
                assert(g2[g] == g2.drop_last()[g]);
            }
        }
    } else {
        assert(g1.len() == 0);
        assert(g2.len() == 0);
    }
}

} // verus!
