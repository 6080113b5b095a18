//! Facts about the tree model of the arena: the ancestor chain, depths, and
//! how the traversal specifications split over lists of children.
use vstd::prelude::*;
use crate::arena::{Tree, reaches_root, tree_wf, ancestors_f, ancestors, depth, height_fuel};

verus! {

/// Reaching a root within `k` steps means reaching it within any larger
/// bound, and the ancestor chain is the same.
pub proof fn lemma_reaches_mono(m: Tree, i: usize, k: nat, k2: nat)
    requires
        reaches_root(m, i, k),
        k <= k2,
    ensures
        reaches_root(m, i, k2),
        ancestors_f(m, i, k) == ancestors_f(m, i, k2),
    decreases k,
{
    match m[i].parent {
        None => {},
        Some(p) => {
            lemma_reaches_mono(m, p, (k - 1) as nat, (k2 - 1) as nat);
        },
    }
}

/// When a root is reached within `k` steps, the chain starts at `i` and has
/// between one and `k` nodes, all of them in the tree.
pub proof fn lemma_ancestors_len(m: Tree, i: usize, k: nat)
    requires
        reaches_root(m, i, k),
    ensures
        1 <= ancestors_f(m, i, k).len() <= k,
        ancestors_f(m, i, k)[0] == i,
        forall|j: int| 0 <= j < ancestors_f(m, i, k).len() ==> m.dom().contains(
            #[trigger] ancestors_f(m, i, k)[j],
        ),
    decreases k,
{
    match m[i].parent {
        None => {},
        Some(p) => {
            lemma_ancestors_len(m, p, (k - 1) as nat);
            let rest = ancestors_f(m, p, (k - 1) as nat);
            assert(ancestors_f(m, i, k) == seq![i] + rest);
            assert forall|j: int| 0 <= j < ancestors_f(m, i, k).len() implies m.dom().contains(
                #[trigger] ancestors_f(m, i, k)[j],
            ) by {
                if j > 0 {
                    assert(ancestors_f(m, i, k)[j] == rest[j - 1]);
                }
            }
        },
    }
}

/// A live node of a well-formed tree has at least one level below it to visit.
pub proof fn lemma_live_fuel(m: Tree, i: usize)
    requires
        tree_wf(m),
        m.dom().contains(i),
    ensures
        height_fuel(m, i) >= 1,
        depth(m, i) < m.dom().len(),
        ancestors(m, i).len() == depth(m, i) + 1,
        ancestors(m, i)[0] == i,
{
    lemma_ancestors_len(m, i, m.dom().len());
}

/// The depth of a child is one more than that of its parent, so it has one
/// level less below it.
pub proof fn lemma_child_depth(m: Tree, p: usize, c: usize)
    requires
        tree_wf(m),
        m.dom().contains(c),
        m[c].parent == Some(p),
    ensures
        m.dom().contains(p),
        depth(m, c) == depth(m, p) + 1,
        height_fuel(m, p) == height_fuel(m, c) + 1,
        height_fuel(m, c) >= 1,
        ancestors(m, c) == seq![c] + ancestors(m, p),
{
    let n = m.dom().len();
    assert(reaches_root(m, c, n));
    assert(reaches_root(m, p, (n - 1) as nat));
    lemma_reaches_mono(m, p, (n - 1) as nat, n);
    assert(ancestors_f(m, c, n) == seq![c] + ancestors_f(m, p, (n - 1) as nat));
    lemma_live_fuel(m, c);
    lemma_live_fuel(m, p);
}

/// A child of a live node is the node's child in the well-formed tree: it is
/// live and its parent is that node.
pub proof fn lemma_child_of(m: Tree, p: usize, j: int)
    requires
        tree_wf(m),
        m.dom().contains(p),
        0 <= j < m[p].children.len(),
    ensures
        m.dom().contains(m[p].children[j]),
        m[m[p].children[j]].parent == Some(p),
        height_fuel(m, p) == height_fuel(m, m[p].children[j]) + 1,
        height_fuel(m, m[p].children[j]) >= 1,
{
    let c = m[p].children[j];
    assert(m.dom().contains(c) && m[c].parent == Some(p));
    lemma_child_depth(m, p, c);
}

} // verus!
