//! Row placements of an adaptive plan, and how many of them a new plan changed.
use crate::diagnostics::RowKind;
use crate::model::NodeId;
use std::collections::HashMap;
use vstd::prelude::*;
use vstd::std_specs::hash::*;
use vstd::std_specs::iter::IteratorSpec;

verus! {

broadcast use group_hash_axioms;

/// A chosen row of a measured plan, as far as its placement signature reads it.
pub struct ChosenRow {
    pub kind: RowKind,
    pub template: usize,
    pub ids: Vec<NodeId>,
    /// Track widths as `f32` bit patterns.
    pub width_bits: Vec<u32>,
}

/// Number of a row kind inside a placement signature.
pub open spec fn kind_code(kind: RowKind) -> u64 {
    match kind {
        RowKind::Stack => 0,
        RowKind::Peer => 1,
        RowKind::Explanation => 2,
        RowKind::Tables => 3,
        RowKind::Gallery => 4,
    }
}

/// Where the group at `ordinal` of `row` stands: kind, template, ordinal,
/// every group of the row and every track width.
pub open spec fn row_signature(row: ChosenRow, ordinal: int) -> Seq<u64> {
    seq![kind_code(row.kind), row.template as u64, ordinal as u64] + row.ids@ + row.width_bits@.map_values(
        |b: u32| b as u64,
    )
}

/// `m` with the first `n` groups of `row` placed, later entries winning.
pub open spec fn place_row(m: Map<NodeId, Seq<u64>>, row: ChosenRow, n: nat) -> Map<NodeId, Seq<u64>>
    decreases n,
{
    if n == 0 {
        m
    } else {
        place_row(m, row, (n - 1) as nat).insert(row.ids@[n - 1], row_signature(row, n - 1))
    }
}

/// The placement of every group of the chosen rows; a group placed twice keeps
/// its last placement.
pub open spec fn placements(rows: Seq<ChosenRow>) -> Map<NodeId, Seq<u64>>
    decreases rows.len(),
{
    if rows.len() == 0 {
        Map::empty()
    } else {
        place_row(placements(rows.drop_last()), rows.last(), rows.last().ids@.len())
    }
}

/// Keys whose entry is new or different in `new`, plus keys that `new` dropped.
pub open spec fn changed_keys(old: Map<NodeId, Seq<u64>>, new: Map<NodeId, Seq<u64>>) -> nat {
    new.dom().filter(|id: NodeId| !old.contains_key(id) || old[id] != new[id]).len() + old.dom().difference(
        new.dom(),
    ).len()
}

/// The signatures a map holds, by key.
pub open spec fn signatures(m: Map<NodeId, Vec<u64>>) -> Map<NodeId, Seq<u64>> {
    m.map_values(|v: Vec<u64>| v@)
}

fn same_signature(a: &Vec<u64>, b: &Vec<u64>) -> (same: bool)
    ensures
        same == (a@ == b@),
{
    if a.len() != b.len() {
        return false;
    }
    let mut i: usize = 0;
    while i < a.len()
        invariant
            a@.len() == b@.len(),
            i <= a@.len(),
            forall|j: int| 0 <= j < i ==> a@[j] == b@[j],
        decreases a@.len() - i,
    {
        if a[i] != b[i] {
            return false;
        }
        i += 1;
    }
    assert(a@ =~= b@);
    true
}

fn signature_of(row: &ChosenRow, ordinal: usize) -> (sig: Vec<u64>)
    ensures
        sig@ == row_signature(*row, ordinal as int),
{
    let mut sig: Vec<u64> = Vec::new();
    sig.push(match row.kind {
        RowKind::Stack => 0,
        RowKind::Peer => 1,
        RowKind::Explanation => 2,
        RowKind::Tables => 3,
        RowKind::Gallery => 4,
    });
    sig.push(row.template as u64);
    sig.push(ordinal as u64);
    let ghost head = sig@;
    let mut i: usize = 0;
    while i < row.ids.len()
        invariant
            i <= row.ids@.len(),
            sig@ == head + row.ids@.take(i as int),
        decreases row.ids@.len() - i,
    {
        sig.push(row.ids[i]);
        assert(row.ids@.take(i + 1) =~= row.ids@.take(i as int).push(row.ids@[i as int]));
        i += 1;
    }
    assert(row.ids@.take(row.ids@.len() as int) =~= row.ids@);
    let ghost mid = sig@;
    let mut j: usize = 0;
    while j < row.width_bits.len()
        invariant
            j <= row.width_bits@.len(),
            sig@ == mid + row.width_bits@.take(j as int).map_values(|b: u32| b as u64),
        decreases row.width_bits@.len() - j,
    {
        sig.push(row.width_bits[j] as u64);
        assert(row.width_bits@.take(j + 1).map_values(|b: u32| b as u64) =~= row.width_bits@.take(
            j as int,
        ).map_values(|b: u32| b as u64).push(row.width_bits@[j as int] as u64));
        j += 1;
    }
    assert(row.width_bits@.take(row.width_bits@.len() as int) =~= row.width_bits@);
    assert(sig@ =~= row_signature(*row, ordinal as int));
    sig
}

/// The placement of every group of `rows`, keyed by group.
pub fn placements_of(rows: &Vec<ChosenRow>) -> (m: HashMap<NodeId, Vec<u64>>)
    ensures
        signatures(m@) == placements(rows@),
{
    let mut m: HashMap<NodeId, Vec<u64>> = HashMap::new();
    let mut r: usize = 0;
    assert(signatures(m@) =~= Map::<NodeId, Seq<u64>>::empty());
    while r < rows.len()
        invariant
            r <= rows@.len(),
            signatures(m@) == placements(rows@.take(r as int)),
        decreases rows@.len() - r,
    {
        let row = &rows[r];
        let ghost base = placements(rows@.take(r as int));
        let mut o: usize = 0;
        while o < row.ids.len()
            invariant
                *row == rows@[r as int],
                o <= row.ids@.len(),
                signatures(m@) == place_row(base, *row, o as nat),
            decreases row.ids@.len() - o,
        {
            let sig = signature_of(row, o);
            m.insert(row.ids[o], sig);
            assert(signatures(m@) =~= place_row(base, *row, o as nat).insert(
                row.ids@[o as int],
                row_signature(*row, o as int),
            ));
            o += 1;
        }
        assert(rows@.take(r + 1).drop_last() =~= rows@.take(r as int));
        r += 1;
    }
    assert(rows@.take(rows@.len() as int) =~= rows@);
    m
}

/// Number of keys whose entry `new` added or changed, plus keys it dropped.
pub fn changed_entries(old: &HashMap<NodeId, Vec<u64>>, new: &HashMap<NodeId, Vec<u64>>) -> (n: usize)
    requires
        old@.len() + new@.len() <= usize::MAX,
    ensures
        n == changed_keys(signatures(old@), signatures(new@)),
{
    let ghost o = signatures(old@);
    let ghost nw = signatures(new@);
    let ghost pred = |id: NodeId| !o.contains_key(id) || o[id] != nw[id];
    let new_len = new.len();
    let mut changed: usize = 0;
    let ghost mut seen: Set<NodeId> = Set::empty();
    let ghost s1 = spec_hash_map_iter(new).remaining();
    let ghost mut i1: int = 0;
    for entry in it: new.iter()
        invariant
            i1 == it.index(),
            s1 == it.seq(),
            o == signatures(old@),
            nw == signatures(new@),
            pred == (|id: NodeId| !o.contains_key(id) || o[id] != nw[id]),
            it.seq() == spec_hash_map_iter(new).remaining(),
            it.seq().no_duplicates(),
            it.seq().len() == new_len,
            seen.finite(),
            changed == seen.len(),
            seen == Set::new(
                |id: NodeId| exists|j: int| 0 <= j < it.index() && *it.seq()[j].0 == id && pred(id),
            ),
            changed <= it.index(),
    {
        let (id, sig) = entry;
        let differs = match old.get(id) {
            Some(before) => !same_signature(before, sig),
            None => true,
        };
        proof {
            assert(new@.contains_key(*id) && new@[*id] == *sig);
            assert(nw[*id] == sig@);
            assert(differs == pred(*id));
        }
        if differs {
            proof {
                if seen.contains(*id) {
                    let j = choose|j: int|
                        0 <= j < it.index() && *it.seq()[j].0 == *id && pred(*id);
                    assert(it.seq()[j] == it.seq()[it.index() as int]);
                }
                seen = seen.insert(*id);
            }
            changed = changed + 1;
        }
        proof {
            assert(seen =~= Set::new(
                |k: NodeId|
                    exists|j: int| 0 <= j < it.index() + 1 && *it.seq()[j].0 == k && pred(k),
            ));
            i1 = i1 + 1;
        }
    }
    assert(i1 == s1.len());
    proof {
        assert(seen =~= nw.dom().filter(pred)) by {
            assert forall|k: NodeId| nw.dom().filter(pred).contains(k) implies seen.contains(k) by {
                assert(new@.contains_key(k));
                assert(s1.contains((&k, &new@[k])));
                let j = choose|j: int| 0 <= j < s1.len() && s1[j] == (&k, &new@[k]);
                assert(*s1[j].0 == k);
            }
            assert forall|k: NodeId| seen.contains(k) implies nw.dom().filter(pred).contains(k) by {
                let j = choose|j: int| 0 <= j < i1 && *s1[j].0 == k && pred(k);
                assert(new@.contains_key(*s1[j].0));
            }
        }
    }
    let ghost kept = seen;
    let old_len = old.len();
    let mut dropped: usize = 0;
    let ghost mut gone: Set<NodeId> = Set::empty();
    let ghost s2 = spec_hash_map_iter(old).remaining();
    let ghost mut i2: int = 0;
    for entry in it2: old.iter()
        invariant
            i2 == it2.index(),
            s2 == it2.seq(),
            o == signatures(old@),
            nw == signatures(new@),
            it2.seq() == spec_hash_map_iter(old).remaining(),
            it2.seq().no_duplicates(),
            it2.seq().len() == old_len,
            gone.finite(),
            dropped == gone.len(),
            gone == Set::new(
                |id: NodeId|
                    exists|j: int| 0 <= j < it2.index() && *it2.seq()[j].0 == id && !nw.contains_key(id),
            ),
            dropped <= it2.index(),
    {
        let (id, value) = entry;
        proof {
            assert(old@.contains_key(*id) && old@[*id] == *value);
        }
        if !new.contains_key(id) {
            proof {
                if gone.contains(*id) {
                    let j = choose|j: int|
                        0 <= j < it2.index() && *it2.seq()[j].0 == *id && !nw.contains_key(*id);
                    assert(old@[*it2.seq()[j].0] == *it2.seq()[j].1);
                    assert(it2.seq()[j] == it2.seq()[it2.index() as int]);
                }
                gone = gone.insert(*id);
            }
            dropped = dropped + 1;
        }
        proof {
            assert(gone =~= Set::new(
                |k: NodeId|
                    exists|j: int|
                        0 <= j < it2.index() + 1 && *it2.seq()[j].0 == k && !nw.contains_key(k),
            ));
            i2 = i2 + 1;
        }
    }
    assert(i2 == s2.len());
    proof {
        assert(gone =~= o.dom().difference(nw.dom())) by {
            assert forall|k: NodeId| o.dom().difference(nw.dom()).contains(k) implies gone.contains(k) by {
                assert(old@.contains_key(k));
                assert(s2.contains((&k, &old@[k])));
                let j = choose|j: int| 0 <= j < s2.len() && s2[j] == (&k, &old@[k]);
                assert(*s2[j].0 == k);
            }
            assert forall|k: NodeId| gone.contains(k) implies o.dom().difference(nw.dom()).contains(k) by {
                let j = choose|j: int|
                    0 <= j < i2 && *s2[j].0 == k && !nw.contains_key(k);
                assert(old@.contains_key(*s2[j].0));
            }
        }
        assert(nw.dom() =~= new@.dom());
        assert(o.dom() =~= old@.dom());
        assert(kept.len() + gone.len() <= nw.dom().len() + o.dom().len()) by {
            vstd::set_lib::lemma_len_subset(kept, nw.dom());
            vstd::set_lib::lemma_len_subset(gone, o.dom());
        }
    }
    changed + dropped
}

/// How many groups a new plan placed differently from the previous one:
/// groups with a new or changed placement, plus groups that left every row.
pub fn changed_rows(previous: &Vec<ChosenRow>, next: &Vec<ChosenRow>) -> (n: usize)
    requires
        placements(previous@).len() + placements(next@).len() <= usize::MAX,
    ensures
        n == changed_keys(placements(previous@), placements(next@)),
{
    let old = placements_of(previous);
    let new = placements_of(next);
    assert(signatures(old@).dom() =~= old@.dom());
    assert(signatures(new@).dom() =~= new@.dom());
    changed_entries(&old, &new)
}

/// Comparing a placement map with itself finds no change.
pub proof fn lemma_changed_keys_reflexive(m: Map<NodeId, Seq<u64>>)
    ensures
        changed_keys(m, m) == 0,
{
    assert(m.dom().filter(|id: NodeId| !m.contains_key(id) || m[id] != m[id]) =~= Set::empty());
    assert(m.dom().difference(m.dom()) =~= Set::empty());
}

/// The change count does not depend on which plan came first.
pub proof fn lemma_changed_keys_symmetric(a: Map<NodeId, Seq<u64>>, b: Map<NodeId, Seq<u64>>)
    requires
        a.dom().finite(),
        b.dom().finite(),
    ensures
        changed_keys(a, b) == changed_keys(b, a),
{
    let common = a.dom().filter(|id: NodeId| b.contains_key(id) && a[id] != b[id]);
    let only_a = a.dom().difference(b.dom());
    let only_b = b.dom().difference(a.dom());
    a.dom().lemma_len_filter(|id: NodeId| b.contains_key(id) && a[id] != b[id]);
    vstd::set_lib::lemma_len_difference(a.dom(), b.dom());
    vstd::set_lib::lemma_len_difference(b.dom(), a.dom());
    assert(b.dom().filter(|id: NodeId| !a.contains_key(id) || a[id] != b[id]) =~= common + only_b);
    assert(a.dom().filter(|id: NodeId| !b.contains_key(id) || b[id] != a[id]) =~= common + only_a);
    vstd::set_lib::lemma_set_disjoint_lens(common, only_b);
    vstd::set_lib::lemma_set_disjoint_lens(common, only_a);
}

/// Replanning an unchanged arrangement reports no changed row groups, and the
/// count is the same whichever plan is taken as the previous one.
pub proof fn lemma_changed_rows_laws(a: Seq<ChosenRow>, b: Seq<ChosenRow>)
    ensures
        changed_keys(placements(a), placements(a)) == 0,
        changed_keys(placements(a), placements(b)) == changed_keys(placements(b), placements(a)),
{
    lemma_changed_keys_reflexive(placements(a));
    lemma_placements_finite(a);
    lemma_placements_finite(b);
    lemma_changed_keys_symmetric(placements(a), placements(b));
}

/// Rows with the same kind, template, groups and track widths.
pub open spec fn same_rows(a: Seq<ChosenRow>, b: Seq<ChosenRow>) -> bool {
    &&& a.len() == b.len()
    &&& forall|i: int|
        0 <= i < a.len() ==> {
            &&& (#[trigger] a[i]).kind == b[i].kind
            &&& a[i].template == b[i].template
            &&& a[i].ids@ == b[i].ids@
            &&& a[i].width_bits@ == b[i].width_bits@
        }
}

proof fn lemma_place_same_row(m: Map<NodeId, Seq<u64>>, a: ChosenRow, b: ChosenRow, n: nat)
    requires
        a.kind == b.kind,
        a.template == b.template,
        a.ids@ == b.ids@,
        a.width_bits@ == b.width_bits@,
    ensures
        place_row(m, a, n) == place_row(m, b, n),
    decreases n,
{
    if n > 0 {
        lemma_place_same_row(m, a, b, (n - 1) as nat);
        assert(row_signature(a, n - 1) == row_signature(b, n - 1));
    }
}

/// Plans whose chosen rows agree in kind, template, groups and track widths
/// place every group alike, so no row group counts as changed.
pub proof fn lemma_same_rows_unchanged(a: Seq<ChosenRow>, b: Seq<ChosenRow>)
    requires
        same_rows(a, b),
    ensures
        placements(a) == placements(b),
        changed_keys(placements(a), placements(b)) == 0,
    decreases a.len(),
{
    if a.len() > 0 {
        let ta = a.drop_last();
        let tb = b.drop_last();
        assert(same_rows(ta, tb)) by {
            assert forall|i: int| 0 <= i < ta.len() implies {
                &&& (#[trigger] ta[i]).kind == tb[i].kind
                &&& ta[i].template == tb[i].template
                &&& ta[i].ids@ == tb[i].ids@
                &&& ta[i].width_bits@ == tb[i].width_bits@
            } by {
                assert(ta[i] == a[i] && tb[i] == b[i]);
            }
        }
        lemma_same_rows_unchanged(ta, tb);
        assert(a.last() == a[a.len() - 1] && b.last() == b[b.len() - 1]);
        lemma_place_same_row(placements(ta), a.last(), b.last(), a.last().ids@.len());
    }
    lemma_changed_keys_reflexive(placements(a));
}

proof fn lemma_place_row_finite(m: Map<NodeId, Seq<u64>>, row: ChosenRow, n: nat)
    requires
        m.dom().finite(),
    ensures
        place_row(m, row, n).dom().finite(),
    decreases n,
{
    if n > 0 {
        lemma_place_row_finite(m, row, (n - 1) as nat);
    }
}

proof fn lemma_placements_finite(rows: Seq<ChosenRow>)
    ensures
        placements(rows).dom().finite(),
    decreases rows.len(),
{
    if rows.len() > 0 {
        lemma_placements_finite(rows.drop_last());
        lemma_place_row_finite(placements(rows.drop_last()), rows.last(), rows.last().ids@.len());
    }
}

} // verus!
