//! Publishing the retained semantic tree: when the native tree is reused,
//! revised or rebuilt, and which formula nodes carry live scroll state.
use vstd::prelude::*;

verus! {

/// What publishing does with the retained native tree.
#[derive(Clone, Copy, Debug, PartialEq, Eq, Structural)]
pub enum PublishStep {
    /// The retained tree already holds this revision in this scope.
    Reuse,
    /// Same scope, newer revision: revise its properties in place; a change
    /// of topology falls back to a rebuild.
    Revise,
    /// No retained tree for this scope: build one.
    Rebuild,
}

pub open spec fn publish_step_spec(retained: Option<(u64, u64)>, scope: u64, revision: u64) -> PublishStep {
    match retained {
        Some((s, r)) => if s == scope && r == revision {
            PublishStep::Reuse
        } else if s == scope {
            PublishStep::Revise
        } else {
            PublishStep::Rebuild
        },
        None => PublishStep::Rebuild,
    }
}

/// What to do with the retained tree, given its scope and revision.
pub fn publish_step(retained: Option<(u64, u64)>, scope: u64, revision: u64) -> (step: PublishStep)
    ensures
        step == publish_step_spec(retained, scope, revision),
{
    match retained {
        Some((s, r)) => if s == scope && r == revision {
            PublishStep::Reuse
        } else if s == scope {
            PublishStep::Revise
        } else {
            PublishStep::Rebuild
        },
        None => PublishStep::Rebuild,
    }
}

/// Whether `nodes`, formula nodes given with whether a scroll handle is
/// live, holds `id`.
pub open spec fn has_node(nodes: Seq<(u64, bool)>, id: u64) -> bool {
    exists|i: int| 0 <= i < nodes.len() && (#[trigger] nodes[i]).0 == id
}

/// Active nodes that are no longer formula nodes of the tree, in order.
pub open spec fn departed(active: Seq<u64>, nodes: Seq<(u64, bool)>) -> Seq<u64>
    decreases active.len(),
{
    if active.len() == 0 {
        Seq::empty()
    } else {
        let d = departed(active.drop_last(), nodes);
        if has_node(nodes, active.last()) {
            d
        } else {
            d.push(active.last())
        }
    }
}

/// Formula nodes whose scroll handle is live, in order.
pub open spec fn handled(nodes: Seq<(u64, bool)>) -> Seq<u64>
    decreases nodes.len(),
{
    if nodes.len() == 0 {
        Seq::empty()
    } else {
        let h = handled(nodes.drop_last());
        if nodes.last().1 {
            h.push(nodes.last().0)
        } else {
            h
        }
    }
}

/// Formula nodes without a live handle that were active, in order.
pub open spec fn dropped(nodes: Seq<(u64, bool)>, active: Seq<u64>) -> Seq<u64>
    decreases nodes.len(),
{
    if nodes.len() == 0 {
        Seq::empty()
    } else {
        let d = dropped(nodes.drop_last(), active);
        if !nodes.last().1 && active.contains(nodes.last().0) {
            d.push(nodes.last().0)
        } else {
            d
        }
    }
}

/// The dynamic formula state of one publication.
pub struct MathScrollFrame {
    /// Nodes restored to their published baseline.
    pub restored: Vec<u64>,
    /// Nodes republished with their live scroll range and value.
    pub updated: Vec<u64>,
    /// Nodes that carry live scroll state after this frame.
    pub active: Vec<u64>,
}

fn contains_id(ids: &Vec<u64>, id: u64) -> (found: bool)
    ensures
        found == ids@.contains(id),
{
    let mut i: usize = 0;
    while i < ids.len()
        invariant
            i <= ids@.len(),
            forall|k: int| 0 <= k < i ==> ids@[k] != id,
        decreases ids@.len() - i,
    {
        if ids[i] == id {
            return true;
        }
        i += 1;
    }
    false
}

fn holds_node(nodes: &Vec<(u64, bool)>, id: u64) -> (found: bool)
    ensures
        found == has_node(nodes@, id),
{
    let mut i: usize = 0;
    while i < nodes.len()
        invariant
            i <= nodes@.len(),
            forall|k: int| 0 <= k < i ==> (#[trigger] nodes@[k]).0 != id,
        decreases nodes@.len() - i,
    {
        if nodes[i].0 == id {
            return true;
        }
        i += 1;
    }
    false
}

/// Which formula nodes a publication restores and which it updates: nodes
/// that were active but left the tree are restored first, then each formula
/// node with a live scroll handle is updated, and each without one that was
/// active is restored. Afterwards exactly the handled nodes are active.
pub fn math_scroll_frame(active: &Vec<u64>, nodes: &Vec<(u64, bool)>) -> (frame: MathScrollFrame)
    ensures
        frame.restored@ == departed(active@, nodes@) + dropped(nodes@, active@),
        frame.updated@ == handled(nodes@),
        frame.active@ == handled(nodes@),
{
    let mut restored: Vec<u64> = Vec::new();
    let mut i: usize = 0;
    while i < active.len()
        invariant
            i <= active@.len(),
            restored@ == departed(active@.take(i as int), nodes@),
        decreases active@.len() - i,
    {
        let id = active[i];
        assert(active@.take(i + 1).drop_last() =~= active@.take(i as int));
        if !holds_node(nodes, id) {
            restored.push(id);
        }
        i += 1;
    }
    assert(active@.take(active@.len() as int) =~= active@);
    let ghost departed_part = restored@;
    let mut updated: Vec<u64> = Vec::new();
    let mut j: usize = 0;
    while j < nodes.len()
        invariant
            j <= nodes@.len(),
            updated@ == handled(nodes@.take(j as int)),
            restored@ == departed_part + dropped(nodes@.take(j as int), active@),
        decreases nodes@.len() - j,
    {
        let (id, live) = nodes[j];
        assert(nodes@.take(j + 1).drop_last() =~= nodes@.take(j as int));
        if live {
            updated.push(id);
        } else if contains_id(active, id) {
            restored.push(id);
        }
        j += 1;
    }
    assert(nodes@.take(nodes@.len() as int) =~= nodes@);
    let mut now_active: Vec<u64> = Vec::new();
    let mut k: usize = 0;
    while k < updated.len()
        invariant
            k <= updated@.len(),
            now_active@ == updated@.take(k as int),
        decreases updated@.len() - k,
    {
        now_active.push(updated[k]);
        assert(updated@.take(k + 1) =~= updated@.take(k as int).push(updated@[k as int]));
        k += 1;
    }
    assert(updated@.take(updated@.len() as int) =~= updated@);
    MathScrollFrame { restored, updated, active: now_active }
}

proof fn lemma_departed(active: Seq<u64>, nodes: Seq<(u64, bool)>, id: u64)
    ensures
        departed(active, nodes).contains(id) <==> active.contains(id) && !has_node(nodes, id),
    decreases active.len(),
{
    if active.len() > 0 {
        let t = active.drop_last();
        lemma_departed(t, nodes, id);
        assert(active =~= t.push(active.last()));
        lemma_push_contains(t, active.last(), id);
        lemma_push_contains(departed(t, nodes), active.last(), id);
    }
}

proof fn lemma_handled(nodes: Seq<(u64, bool)>, id: u64)
    ensures
        handled(nodes).contains(id) <==> exists|i: int| 0 <= i < nodes.len() && (#[trigger] nodes[i]).0 == id && nodes[i].1,
    decreases nodes.len(),
{
    if nodes.len() > 0 {
        let t = nodes.drop_last();
        lemma_handled(t, id);
        lemma_push_contains(handled(t), nodes.last().0, id);
        if exists|i: int| 0 <= i < nodes.len() && (#[trigger] nodes[i]).0 == id && nodes[i].1 {
            let i = choose|i: int| 0 <= i < nodes.len() && (#[trigger] nodes[i]).0 == id && nodes[i].1;
            if i < t.len() {
                assert(t[i] == nodes[i]);
            }
        }
        if exists|i: int| 0 <= i < t.len() && (#[trigger] t[i]).0 == id && t[i].1 {
            let i = choose|i: int| 0 <= i < t.len() && (#[trigger] t[i]).0 == id && t[i].1;
            assert(nodes[i] == t[i]);
        }
    }
}

proof fn lemma_dropped(nodes: Seq<(u64, bool)>, active: Seq<u64>, id: u64)
    ensures
        dropped(nodes, active).contains(id) <==> active.contains(id) && exists|i: int|
            0 <= i < nodes.len() && (#[trigger] nodes[i]).0 == id && !nodes[i].1,
    decreases nodes.len(),
{
    if nodes.len() > 0 {
        let t = nodes.drop_last();
        lemma_dropped(t, active, id);
        lemma_push_contains(dropped(t, active), nodes.last().0, id);
        if exists|i: int| 0 <= i < nodes.len() && (#[trigger] nodes[i]).0 == id && !nodes[i].1 {
            let i = choose|i: int| 0 <= i < nodes.len() && (#[trigger] nodes[i]).0 == id && !nodes[i].1;
            if i < t.len() {
                assert(t[i] == nodes[i]);
            }
        }
        if exists|i: int| 0 <= i < t.len() && (#[trigger] t[i]).0 == id && !t[i].1 {
            let i = choose|i: int| 0 <= i < t.len() && (#[trigger] t[i]).0 == id && !t[i].1;
            assert(nodes[i] == t[i]);
        }
    }
}

proof fn lemma_push_contains(s: Seq<u64>, x: u64, id: u64)
    ensures
        s.push(x).contains(id) <==> s.contains(id) || x == id,
{
    if s.push(x).contains(id) {
        let k = choose|k: int| 0 <= k < s.push(x).len() && s.push(x)[k] == id;
        if k < s.len() {
            assert(s[k] == id);
        }
    }
    if s.contains(id) {
        let k = choose|k: int| 0 <= k < s.len() && s[k] == id;
        assert(s.push(x)[k] == id);
    }
    if x == id {
        assert(s.push(x)[s.len() as int] == id);
    }
}

/// Every node that carried live scroll state before a publication either
/// carries it again or is restored to its baseline; a restored node never
/// stays active. This holds where each formula node appears once.
pub proof fn lemma_math_scroll_frame(active: Seq<u64>, nodes: Seq<(u64, bool)>, id: u64)
    requires
        forall|i: int, j: int| #![trigger nodes[i], nodes[j]] 0 <= i < j < nodes.len() ==> nodes[i].0 != nodes[j].0,
    ensures
        active.contains(id) ==> (departed(active, nodes) + dropped(nodes, active)).contains(id) || handled(nodes).contains(id),
        !((departed(active, nodes) + dropped(nodes, active)).contains(id) && handled(nodes).contains(id)),
        (departed(active, nodes) + dropped(nodes, active)).contains(id) ==> active.contains(id),
{
    lemma_departed(active, nodes, id);
    lemma_dropped(nodes, active, id);
    lemma_handled(nodes, id);
    let d = departed(active, nodes);
    let p = dropped(nodes, active);
    assert((d + p).contains(id) <==> d.contains(id) || p.contains(id)) by {
        if (d + p).contains(id) {
            let k = choose|k: int| 0 <= k < (d + p).len() && (d + p)[k] == id;
            if k < d.len() {
                assert(d[k] == id);
            } else {
                assert(p[k - d.len()] == id);
            }
        }
        if d.contains(id) {
            let k = choose|k: int| 0 <= k < d.len() && d[k] == id;
            assert((d + p)[k] == id);
        }
        if p.contains(id) {
            let k = choose|k: int| 0 <= k < p.len() && p[k] == id;
            assert((d + p)[k + d.len()] == id);
        }
    }
    if active.contains(id) && has_node(nodes, id) {
        let i = choose|i: int| 0 <= i < nodes.len() && (#[trigger] nodes[i]).0 == id;
        if !nodes[i].1 {
            assert(p.contains(id));
        } else {
            assert(handled(nodes).contains(id));
        }
    }
    if p.contains(id) && handled(nodes).contains(id) {
        let i = choose|i: int| 0 <= i < nodes.len() && (#[trigger] nodes[i]).0 == id && !nodes[i].1;
        let j = choose|j: int| 0 <= j < nodes.len() && (#[trigger] nodes[j]).0 == id && nodes[j].1;
        if i < j {
            assert(nodes[i].0 != nodes[j].0);
        } else if j < i {
            assert(nodes[j].0 != nodes[i].0);
        }
    }
    if d.contains(id) && handled(nodes).contains(id) {
        let j = choose|j: int| 0 <= j < nodes.len() && (#[trigger] nodes[j]).0 == id && nodes[j].1;
        assert(has_node(nodes, id));
    }
}

} // verus!
