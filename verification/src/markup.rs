//! The published form of a formula's MathML markup: each element becomes a
//! semantic node numbered in document order, and a node is published after
//! the nodes of its children.
use crate::accessibility::{math_markup_role, Role};
use vstd::prelude::*;

verus! {

/// One element of a markup tree. Children are indices of later elements of
/// the same tree.
pub struct MarkupNode {
    pub text: String,
    pub children: Vec<usize>,
}

/// Every child comes after its parent and lies inside the tree.
pub open spec fn well_formed(tree: Seq<MarkupNode>) -> bool {
    forall|i: int, k: int|
        0 <= i < tree.len() && 0 <= k < tree[i].children@.len() ==> i < #[trigger] tree[i].children@[k]
            < tree.len()
}

/// A published markup node: its ordinal, the element it shows, its role and
/// the ordinals of its children.
#[derive(Debug, PartialEq, Eq)]
pub struct PublishedMarkup {
    pub ordinal: usize,
    pub element: usize,
    pub role: Role,
    pub children: Vec<usize>,
}

pub open spec fn child(tree: Seq<MarkupNode>, i: int, k: int) -> int {
    tree[i].children@[k] as int
}

pub open spec fn valid_child(tree: Seq<MarkupNode>, i: int, k: int) -> bool {
    0 <= i < tree.len() && 0 <= k < tree[i].children@.len() && i < child(tree, i, k) < tree.len()
}

/// Elements in the subtree of `i`.
pub open spec fn subtree_size(tree: Seq<MarkupNode>, i: int) -> nat
    decreases tree.len() - i, 1int, 0int,
{
    if 0 <= i < tree.len() {
        1 + children_size(tree, i, tree[i].children@.len() as int)
    } else {
        0
    }
}

/// Elements in the subtrees of the first `k` children of `i`.
pub open spec fn children_size(tree: Seq<MarkupNode>, i: int, k: int) -> nat
    decreases tree.len() - i, 0int, k,
{
    if k <= 0 || !(0 <= i < tree.len()) || k > tree[i].children@.len() {
        0
    } else {
        children_size(tree, i, k - 1) + if valid_child(tree, i, k - 1) {
            subtree_size(tree, child(tree, i, k - 1))
        } else {
            0
        }
    }
}

pub open spec fn role_of(node: MarkupNode) -> Role {
    if node.text@.len() == 0 {
        Role::Group
    } else {
        Role::Label
    }
}

/// The ordinals of the first `k` children of `i`, when `i` has ordinal `o`.
pub open spec fn child_ordinals(tree: Seq<MarkupNode>, i: int, k: int, o: int) -> Seq<int>
    decreases k,
{
    if k <= 0 {
        Seq::empty()
    } else {
        child_ordinals(tree, i, k - 1, o).push(o + 1 + children_size(tree, i, k - 1))
    }
}

/// What publishing the subtree of `i` from ordinal `o` emits: each child's
/// subtree in order, then `i` itself. Ordinals follow document order.
pub open spec fn published(tree: Seq<MarkupNode>, i: int, o: int) -> Seq<(int, int, Role, Seq<int>)>
    decreases tree.len() - i, 1int, 0int,
{
    if 0 <= i < tree.len() {
        let n = tree[i].children@.len() as int;
        published_children(tree, i, n, o).push((o, i, role_of(tree[i]), child_ordinals(tree, i, n, o)))
    } else {
        Seq::empty()
    }
}

/// What publishing the subtrees of the first `k` children of `i` emits, when
/// `i` has ordinal `o`.
pub open spec fn published_children(tree: Seq<MarkupNode>, i: int, k: int, o: int) -> Seq<(int, int, Role, Seq<int>)>
    decreases tree.len() - i, 0int, k,
{
    if k <= 0 || !(0 <= i < tree.len()) || k > tree[i].children@.len() {
        Seq::empty()
    } else {
        published_children(tree, i, k - 1, o) + if valid_child(tree, i, k - 1) {
            published(tree, child(tree, i, k - 1), o + 1 + children_size(tree, i, k - 1))
        } else {
            Seq::empty()
        }
    }
}

/// A published node as a tuple of plain values.
pub open spec fn entry(p: PublishedMarkup) -> (int, int, Role, Seq<int>) {
    (p.ordinal as int, p.element as int, p.role, p.children@.map_values(|c: usize| c as int))
}

pub open spec fn entries(s: Seq<PublishedMarkup>) -> Seq<(int, int, Role, Seq<int>)> {
    s.map_values(|p: PublishedMarkup| entry(p))
}

proof fn lemma_children_size_grows(tree: Seq<MarkupNode>, i: int, k: int, m: int)
    requires
        0 <= k <= m,
        0 <= i < tree.len(),
        m <= tree[i].children@.len(),
    ensures
        children_size(tree, i, k) <= children_size(tree, i, m),
    decreases m - k,
{
    if k < m {
        lemma_children_size_grows(tree, i, k, m - 1);
    }
}

proof fn lemma_entries_push(s: Seq<PublishedMarkup>, p: PublishedMarkup)
    ensures
        entries(s.push(p)) == entries(s).push(entry(p)),
{
    assert(entries(s.push(p)) =~= entries(s).push(entry(p)));
}

/// Publishes the markup subtree of element `i`, numbering from `*ordinal`:
/// children first, each with the ordinals that follow its parent's and its
/// earlier siblings' subtrees, then `i` itself. Returns the ordinal of `i`.
pub fn publish_markup(
    tree: &Vec<MarkupNode>,
    i: usize,
    ordinal: &mut usize,
    out: &mut Vec<PublishedMarkup>,
) -> (own: usize)
    requires
        well_formed(tree@),
        i < tree@.len(),
        *old(ordinal) + subtree_size(tree@, i as int) <= usize::MAX,
    ensures
        own == *old(ordinal),
        *final(ordinal) == *old(ordinal) + subtree_size(tree@, i as int),
        entries(final(out)@) == entries(old(out)@) + published(tree@, i as int, own as int),
    decreases tree@.len() - i,
{
    let own = *ordinal;
    *ordinal = own + 1;
    let n = tree[i].children.len();
    let mut children: Vec<usize> = Vec::new();
    let ghost start = entries(out@);
    let mut k: usize = 0;
    proof {
        lemma_children_size_grows(tree@, i as int, 0, n as int);
        assert(entries(out@) =~= start + published_children(tree@, i as int, 0, own as int));
        assert(children@.map_values(|c: usize| c as int) =~= child_ordinals(tree@, i as int, 0, own as int));
    }
    while k < n
        invariant
            well_formed(tree@),
            i < tree@.len(),
            n == tree@[i as int].children@.len(),
            k <= n,
            own + subtree_size(tree@, i as int) <= usize::MAX,
            subtree_size(tree@, i as int) == 1 + children_size(tree@, i as int, n as int),
            *ordinal == own + 1 + children_size(tree@, i as int, k as int),
            entries(out@) == start + published_children(tree@, i as int, k as int, own as int),
            children@.map_values(|c: usize| c as int) == child_ordinals(tree@, i as int, k as int, own as int),
        decreases n - k,
    {
        let c = tree[i].children[k];
        proof {
            assert(valid_child(tree@, i as int, k as int));
            lemma_children_size_grows(tree@, i as int, k + 1, n as int);
        }
        let ghost before_children = children@;
        let child_ordinal = publish_markup(tree, c, ordinal, out);
        children.push(child_ordinal);
        proof {
            assert(children@.map_values(|c: usize| c as int) =~= before_children.map_values(|c: usize| c as int).push(
                child_ordinal as int,
            ));
        }
        k += 1;
    }
    let role = math_markup_role(tree[i].text.as_str());
    let ghost before_out = out@;
    let ghost kids = children@.map_values(|c: usize| c as int);
    out.push(PublishedMarkup { ordinal: own, element: i, role, children });
    proof {
        assert(out@ =~= before_out.push(out@.last()));
        lemma_entries_push(before_out, out@.last());
        assert(entry(out@.last()) == (own as int, i as int, role_of(tree@[i as int]), kids));
    }
    own
}

/// Publishing a subtree emits one node per element, and its ordinals stay
/// inside the subtree's block: from the root's ordinal up to its size later.
pub proof fn lemma_published_block(tree: Seq<MarkupNode>, i: int, o: int)
    requires
        0 <= i < tree.len(),
    ensures
        published(tree, i, o).len() == subtree_size(tree, i),
        forall|e: int|
            0 <= e < published(tree, i, o).len() ==> o <= (#[trigger] published(tree, i, o)[e]).0 < o
                + subtree_size(tree, i),
    decreases tree.len() - i, 1int, 0int,
{
    let n = tree[i].children@.len() as int;
    lemma_children_block(tree, i, n, o);
}

proof fn lemma_children_block(tree: Seq<MarkupNode>, i: int, k: int, o: int)
    requires
        0 <= i < tree.len(),
        0 <= k <= tree[i].children@.len(),
    ensures
        published_children(tree, i, k, o).len() == children_size(tree, i, k),
        forall|e: int|
            0 <= e < published_children(tree, i, k, o).len() ==> o < (#[trigger] published_children(tree, i, k, o)[e]).0
                <= o + children_size(tree, i, k),
    decreases tree.len() - i, 0int, k,
{
    if k > 0 {
        lemma_children_block(tree, i, k - 1, o);
        let before = published_children(tree, i, k - 1, o);
        if valid_child(tree, i, k - 1) {
            let c = child(tree, i, k - 1);
            let start = o + 1 + children_size(tree, i, k - 1);
            lemma_published_block(tree, c, start);
            let sub = published(tree, c, start);
            let all = before + sub;
            assert forall|e: int| 0 <= e < all.len() implies o < (#[trigger] all[e]).0 <= o + children_size(tree, i, k) by {
                if e >= before.len() {
                    assert(all[e] == sub[e - before.len()]);
                } else {
                    assert(all[e] == before[e]);
                }
            }
        } else {
            assert(published_children(tree, i, k, o) =~= before);
        }
    }
}

} // verus!
