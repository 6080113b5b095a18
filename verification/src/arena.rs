//! The scene tree is stored in an `indextree` arena. This module declares the
//! arena to Verus, gives its contents a name, and wraps the arena operations
//! that the engine uses. Nodes are named by the one-based slot index that
//! `usize::from(NodeId)` gives.
use vstd::prelude::*;
use indextree::{Arena, NodeEdge};
use std::num::NonZeroUsize;
use crate::node::SceneNode;

verus! {

#[verifier::external_type_specification]
#[verifier::external_body]
#[verifier::reject_recursive_types(T)]
pub struct ExArena<T>(Arena<T>);

/// A live node of the arena: its parent, its children in order, and its data.
pub struct NodeEntry {
    pub parent: Option<usize>,
    pub children: Seq<usize>,
    pub data: SceneNode,
}

/// The live nodes of an arena, by slot index.
pub uninterp spec fn arena_nodes(arena: Arena<SceneNode>) -> Map<usize, NodeEntry>;

/// The number of slots of an arena, removed ones included (`Arena::len`).
pub uninterp spec fn arena_slots(arena: Arena<SceneNode>) -> nat;

/// The tree model of the arena.
pub type Tree = Map<usize, NodeEntry>;

/// Walking up from `i`, a node without parent is reached within `k` steps.
pub open spec fn reaches_root(m: Tree, i: usize, k: nat) -> bool
    decreases k,
{
    &&& m.dom().contains(i)
    &&& k > 0
    &&& match m[i].parent {
        None => true,
        Some(p) => reaches_root(m, p, (k - 1) as nat),
    }
}

/// A well-formed forest: parent and child links agree, no child occurs
/// twice, and every node reaches a root (so there is no cycle).
pub open spec fn tree_wf(m: Tree) -> bool {
    &&& m.dom().finite()
    &&& forall|i: usize| #[trigger] m.dom().contains(i) ==> i >= 1
    &&& forall|i: usize| #[trigger] m.dom().contains(i) ==> m[i].children.no_duplicates()
    &&& forall|i: usize, j: int|
        #![trigger m[i].children[j]]
        m.dom().contains(i) && 0 <= j < m[i].children.len() ==> {
            &&& m.dom().contains(m[i].children[j])
            &&& m[m[i].children[j]].parent == Some(i)
        }
    &&& forall|i: usize| #[trigger] m.dom().contains(i) && m[i].parent is Some ==> {
            &&& m.dom().contains(m[i].parent->0)
            &&& m[m[i].parent->0].children.contains(i)
        }
    &&& forall|i: usize| #[trigger] m.dom().contains(i) ==> reaches_root(m, i, m.dom().len())
}

/// `i` followed by its ancestors, nearest first, walking at most `k` steps.
pub open spec fn ancestors_f(m: Tree, i: usize, k: nat) -> Seq<usize>
    decreases k,
{
    if k == 0 {
        seq![]
    } else {
        seq![i] + match m[i].parent {
            None => seq![],
            Some(p) => ancestors_f(m, p, (k - 1) as nat),
        }
    }
}

/// `i` followed by its ancestors, nearest first.
pub open spec fn ancestors(m: Tree, i: usize) -> Seq<usize> {
    ancestors_f(m, i, m.dom().len())
}

/// The number of ancestors of `i`.
pub open spec fn depth(m: Tree, i: usize) -> nat {
    (ancestors(m, i).len() - 1) as nat
}

/// The number of tree levels from `i` down that a traversal may visit.
pub open spec fn height_fuel(m: Tree, i: usize) -> nat {
    (m.dom().len() - depth(m, i)) as nat
}

/// Pre-order of the subtree of `i`, visiting at most `f` levels.
pub open spec fn pre_f(m: Tree, i: usize, f: nat) -> Seq<usize>
    decreases f, 0nat,
{
    if f == 0 {
        seq![]
    } else {
        seq![i] + pre_list(m, m[i].children, (f - 1) as nat)
    }
}

/// The pre-orders of the subtrees of `kids`, one after another.
pub open spec fn pre_list(m: Tree, kids: Seq<usize>, f: nat) -> Seq<usize>
    decreases f, kids.len() + 1,
{
    if kids.len() == 0 {
        seq![]
    } else {
        pre_list(m, kids.drop_last(), f) + pre_f(m, kids.last(), f)
    }
}

/// `i` and its descendants in pre-order (tree order).
pub open spec fn descendants(m: Tree, i: usize) -> Seq<usize> {
    pre_f(m, i, height_fuel(m, i))
}

/// The edges of a depth-first traversal of the subtree of `i`: `(false, n)` on
/// entering `n`, `(true, n)` on leaving it.
pub open spec fn trav_f(m: Tree, i: usize, f: nat) -> Seq<(bool, usize)>
    decreases f, 0nat,
{
    if f == 0 {
        seq![]
    } else {
        seq![(false, i)] + trav_list(m, m[i].children, (f - 1) as nat) + seq![(true, i)]
    }
}

/// The traversals of the subtrees of `kids`, one after another.
pub open spec fn trav_list(m: Tree, kids: Seq<usize>, f: nat) -> Seq<(bool, usize)>
    decreases f, kids.len() + 1,
{
    if kids.len() == 0 {
        seq![]
    } else {
        trav_list(m, kids.drop_last(), f) + trav_f(m, kids.last(), f)
    }
}

/// The depth-first traversal edges of the subtree of `i`.
pub open spec fn traversal(m: Tree, i: usize) -> Seq<(bool, usize)> {
    trav_f(m, i, height_fuel(m, i))
}

/// Whether `a` is `b` or one of its ancestors.
pub open spec fn is_ancestor_or_self(m: Tree, a: usize, b: usize) -> bool {
    ancestors(m, b).contains(a)
}

/// The tree after `c` is taken out of its parent's children and loses its parent.
pub open spec fn detached(m: Tree, c: usize) -> Tree {
    if !m.dom().contains(c) {
        m
    } else {
        match m[c].parent {
            None => m,
            Some(p) => m.insert(
                p,
                NodeEntry {
                    parent: m[p].parent,
                    children: m[p].children.remove_value(c),
                    data: m[p].data,
                },
            ).insert(c, NodeEntry { parent: None, children: m[c].children, data: m[c].data }),
        }
    }
}

/// The tree after `c` is detached and then added as the last child of `p`.
pub open spec fn appended(m: Tree, p: usize, c: usize) -> Tree {
    let d = detached(m, c);
    d.insert(p, NodeEntry { parent: d[p].parent, children: d[p].children.push(c), data: d[p].data })
        .insert(c, NodeEntry { parent: Some(p), children: d[c].children, data: d[c].data })
}

/// The tree after `c` is detached and then added as the first child of `p`.
pub open spec fn prepended(m: Tree, p: usize, c: usize) -> Tree {
    let d = detached(m, c);
    d.insert(
        p,
        NodeEntry { parent: d[p].parent, children: seq![c] + d[p].children, data: d[p].data },
    ).insert(c, NodeEntry { parent: Some(p), children: d[c].children, data: d[c].data })
}

/// The tree after the subtree of `i` is detached and all its nodes removed.
pub open spec fn subtree_removed(m: Tree, i: usize) -> Tree {
    if !m.dom().contains(i) {
        m
    } else {
        let d = detached(m, i);
        d.remove_keys(Set::new(|x: usize| descendants(m, i).contains(x)))
    }
}

/// Creates an empty arena (`Arena::new`): no node and no slot.
#[verifier::external_body]
pub(crate) fn arena_new() -> (r: Arena<SceneNode>)
    ensures
        arena_nodes(r) =~= Map::empty(),
        arena_slots(r) == 0,
{
    Arena::new()
}

/// The number of slots of the arena, removed ones included (`Arena::len`).
/// Claimed: live nodes have indices from 1 up to this number.
#[verifier::external_body]
pub(crate) fn arena_len(arena: &Arena<SceneNode>) -> (r: usize)
    ensures
        r == arena_slots(*arena),
        arena_nodes(*arena).dom().len() <= r,
        forall|i: usize| #[trigger] arena_nodes(*arena).dom().contains(i) ==> 1 <= i <= r,
{
    arena.len()
}

/// Adds a node without parent or children (`Arena::new_node`). Claimed: its
/// index was not live, is at most the new slot count, and the slot count
/// grows by at most one (a removed slot may be reused). The arena panics
/// when its last index is taken, which `requires` leaves out.
#[verifier::external_body]
pub(crate) fn arena_new_node(arena: &mut Arena<SceneNode>, data: SceneNode) -> (r: usize)
    requires
        arena_slots(*old(arena)) < usize::MAX,
    ensures
        !arena_nodes(*old(arena)).dom().contains(r),
        1 <= r <= arena_slots(*final(arena)),
        arena_slots(*old(arena)) <= arena_slots(*final(arena)) <= arena_slots(*old(arena)) + 1,
        arena_nodes(*final(arena)) == arena_nodes(*old(arena)).insert(
            r,
            NodeEntry { parent: None, children: seq![], data },
        ),
{
    usize::from(arena.new_node(data))
}

/// Whether slot `i` holds a live node (`Arena::get_node_id_at` is `Some`).
#[verifier::external_body]
pub(crate) fn arena_is_live(arena: &Arena<SceneNode>, i: usize) -> (r: bool)
    requires
        i >= 1,
    ensures
        r == arena_nodes(*arena).dom().contains(i),
{
    arena.get_node_id_at(NonZeroUsize::new(i).unwrap()).is_some()
}

/// The parent of a live node (`NodeId::parent`), as the model records it.
#[verifier::external_body]
pub(crate) fn arena_parent(arena: &Arena<SceneNode>, i: usize) -> (r: Option<usize>)
    requires
        i >= 1,
        arena_nodes(*arena).dom().contains(i),
    ensures
        r == arena_nodes(*arena)[i].parent,
{
    let id = arena.get_node_id_at(NonZeroUsize::new(i).unwrap()).unwrap();
    id.parent(arena).map(usize::from)
}

/// The children of a live node, first to last (`NodeId::children`).
#[verifier::external_body]
pub(crate) fn arena_children(arena: &Arena<SceneNode>, i: usize) -> (r: Vec<usize>)
    requires
        i >= 1,
        arena_nodes(*arena).dom().contains(i),
    ensures
        r@ == arena_nodes(*arena)[i].children,
{
    let id = arena.get_node_id_at(NonZeroUsize::new(i).unwrap()).unwrap();
    id.children(arena).map(usize::from).collect()
}

/// A copy of the data of a live node (`Node::get`); links are untouched.
#[verifier::external_body]
pub(crate) fn arena_data(arena: &Arena<SceneNode>, i: usize) -> (r: SceneNode)
    requires
        i >= 1,
        arena_nodes(*arena).dom().contains(i),
    ensures
        r == arena_nodes(*arena)[i].data,
{
    let id = arena.get_node_id_at(NonZeroUsize::new(i).unwrap()).unwrap();
    *arena[id].get()
}

/// Replaces the data of a live node (`Node::get_mut`); links and slots are
/// untouched.
#[verifier::external_body]
pub(crate) fn arena_set_data(arena: &mut Arena<SceneNode>, i: usize, data: SceneNode)
    requires
        i >= 1,
        arena_nodes(*old(arena)).dom().contains(i),
    ensures
        arena_slots(*final(arena)) == arena_slots(*old(arena)),
        arena_nodes(*final(arena)) == arena_nodes(*old(arena)).insert(
            i,
            NodeEntry {
                parent: arena_nodes(*old(arena))[i].parent,
                children: arena_nodes(*old(arena))[i].children,
                data,
            },
        ),
{
    let id = arena.get_node_id_at(NonZeroUsize::new(i).unwrap()).unwrap();
    *arena[id].get_mut() = data;
}

/// Detaches a node from its parent and siblings (`NodeId::detach`): the
/// arena then holds `detached` of what it held; the node keeps its
/// children, and the slot count is unchanged.
#[verifier::external_body]
pub(crate) fn arena_detach(arena: &mut Arena<SceneNode>, i: usize)
    requires
        i >= 1,
        arena_nodes(*old(arena)).dom().contains(i),
        tree_wf(arena_nodes(*old(arena))),
    ensures
        arena_slots(*final(arena)) == arena_slots(*old(arena)),
        arena_nodes(*final(arena)) == detached(arena_nodes(*old(arena)), i),
{
    let id = arena.get_node_id_at(NonZeroUsize::new(i).unwrap()).unwrap();
    id.detach(arena);
}

/// Makes `c` the last child of `p`, detaching it first (`NodeId::append`):
/// the arena then holds `appended` of what it held. The arena panics when
/// `c` is `p` or one of its ancestors, or a node is removed; `requires`
/// leaves those inputs out.
#[verifier::external_body]
pub(crate) fn arena_append(arena: &mut Arena<SceneNode>, p: usize, c: usize)
    requires
        p >= 1,
        c >= 1,
        p != c,
        arena_nodes(*old(arena)).dom().contains(p),
        arena_nodes(*old(arena)).dom().contains(c),
        !is_ancestor_or_self(arena_nodes(*old(arena)), c, p),
        tree_wf(arena_nodes(*old(arena))),
    ensures
        arena_slots(*final(arena)) == arena_slots(*old(arena)),
        arena_nodes(*final(arena)) == appended(arena_nodes(*old(arena)), p, c),
{
    let pid = arena.get_node_id_at(NonZeroUsize::new(p).unwrap()).unwrap();
    let cid = arena.get_node_id_at(NonZeroUsize::new(c).unwrap()).unwrap();
    pid.append(cid, arena);
}

/// Makes `c` the first child of `p`, detaching it first (`NodeId::prepend`):
/// the arena then holds `prepended` of what it held. The arena panics when
/// `c` is `p` or one of its ancestors, or a node is removed; `requires`
/// leaves those inputs out.
#[verifier::external_body]
pub(crate) fn arena_prepend(arena: &mut Arena<SceneNode>, p: usize, c: usize)
    requires
        p >= 1,
        c >= 1,
        p != c,
        arena_nodes(*old(arena)).dom().contains(p),
        arena_nodes(*old(arena)).dom().contains(c),
        !is_ancestor_or_self(arena_nodes(*old(arena)), c, p),
        tree_wf(arena_nodes(*old(arena))),
    ensures
        arena_slots(*final(arena)) == arena_slots(*old(arena)),
        arena_nodes(*final(arena)) == prepended(arena_nodes(*old(arena)), p, c),
{
    let pid = arena.get_node_id_at(NonZeroUsize::new(p).unwrap()).unwrap();
    let cid = arena.get_node_id_at(NonZeroUsize::new(c).unwrap()).unwrap();
    pid.prepend(cid, arena);
}

/// Detaches a node and removes it with all its descendants
/// (`NodeId::remove_subtree`): the arena then holds `subtree_removed` of
/// what it held; removed slots stay counted.
#[verifier::external_body]
pub(crate) fn arena_remove_subtree(arena: &mut Arena<SceneNode>, i: usize)
    requires
        i >= 1,
        arena_nodes(*old(arena)).dom().contains(i),
        tree_wf(arena_nodes(*old(arena))),
    ensures
        arena_slots(*final(arena)) == arena_slots(*old(arena)),
        arena_nodes(*final(arena)) == subtree_removed(arena_nodes(*old(arena)), i),
{
    let id = arena.get_node_id_at(NonZeroUsize::new(i).unwrap()).unwrap();
    id.remove_subtree(arena);
}

/// A live node and its descendants in tree order (`NodeId::descendants`),
/// as `descendants` of the model.
#[verifier::external_body]
pub(crate) fn arena_descendants(arena: &Arena<SceneNode>, i: usize) -> (r: Vec<usize>)
    requires
        i >= 1,
        arena_nodes(*arena).dom().contains(i),
        tree_wf(arena_nodes(*arena)),
    ensures
        r@ == descendants(arena_nodes(*arena), i),
{
    let id = arena.get_node_id_at(NonZeroUsize::new(i).unwrap()).unwrap();
    id.descendants(arena).map(usize::from).collect()
}

/// A live node and its ancestors, nearest first (`NodeId::ancestors`), as
/// `ancestors` of the model.
#[verifier::external_body]
pub(crate) fn arena_ancestors(arena: &Arena<SceneNode>, i: usize) -> (r: Vec<usize>)
    requires
        i >= 1,
        arena_nodes(*arena).dom().contains(i),
        tree_wf(arena_nodes(*arena)),
    ensures
        r@ == ancestors(arena_nodes(*arena), i),
{
    let id = arena.get_node_id_at(NonZeroUsize::new(i).unwrap()).unwrap();
    id.ancestors(arena).map(usize::from).collect()
}

/// The depth-first traversal edges of the subtree of a live node
/// (`NodeId::traverse`): `(false, n)` for `NodeEdge::Start(n)`, `(true, n)`
/// for `NodeEdge::End(n)`.
#[verifier::external_body]
pub(crate) fn arena_traverse(arena: &Arena<SceneNode>, i: usize) -> (r: Vec<(bool, usize)>)
    requires
        i >= 1,
        arena_nodes(*arena).dom().contains(i),
        tree_wf(arena_nodes(*arena)),
    ensures
        r@ == traversal(arena_nodes(*arena), i),
{
    let id = arena.get_node_id_at(NonZeroUsize::new(i).unwrap()).unwrap();
    id.traverse(arena).map(|edge| match edge {
        NodeEdge::Start(n) => (false, usize::from(n)),
        NodeEdge::End(n) => (true, usize::from(n)),
    }).collect()
}

} // verus!
