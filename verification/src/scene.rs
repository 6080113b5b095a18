//! The scene: the tree of nodes to render, held in the arena, with the
//! operations that attach, detach and remove nodes and the traversals that
//! the engine's update stages use.
use vstd::prelude::*;
use indextree::Arena;
use crate::arena::{
    detached, pre_list,
    Tree, NodeEntry, arena_nodes, arena_slots, tree_wf, ancestors, descendants, traversal,
    is_ancestor_or_self, appended, prepended, subtree_removed, height_fuel, reaches_root,
    ancestors_f, arena_new, arena_len, arena_new_node, arena_is_live, arena_parent,
    arena_children, arena_data, arena_set_data, arena_append, arena_prepend,
    arena_remove_subtree, arena_descendants, arena_ancestors, arena_traverse,
};
use crate::tree::{lemma_reaches_mono, lemma_live_fuel, lemma_child_of};
use crate::node::SceneNode;
use crate::flags::{RenderableFlags, NEEDS_LAYOUT_BIT, NEEDS_PAINT_BIT};

verus! {

/// The tree with the data of live node `i` replaced.
pub open spec fn with_data(m: Tree, i: usize, d: SceneNode) -> Tree {
    m.insert(i, NodeEntry { parent: m[i].parent, children: m[i].children, data: d })
}

/// The tree with `bits` added to the rendering flags of node `i`.
pub open spec fn with_flags(m: Tree, i: usize, bits: u32) -> Tree {
    with_data(
        m,
        i,
        SceneNode {
            rendering_flags: RenderableFlags { bits: m[i].data.rendering_flags.bits | bits },
            ..m[i].data
        },
    )
}

/// Whether the node is gone from the scene: not live, or marked for deletion.
pub open spec fn is_removed_spec(m: Tree, i: usize) -> bool {
    !m.dom().contains(i) || m[i].data.is_deleted
}

/// The scene tree.
pub struct Scene {
    nodes: Arena<SceneNode>,
}

impl Scene {
    /// The tree model of the scene.
    pub closed spec fn tree(&self) -> Tree {
        arena_nodes(self.nodes)
    }

    /// The number of arena slots, removed ones included.
    pub closed spec fn slots(&self) -> nat {
        arena_slots(self.nodes)
    }

    /// The scene tree is a well-formed forest.
    pub open spec fn wf(&self) -> bool {
        tree_wf(self.tree())
    }

    /// An empty scene.
    pub fn new() -> (s: Scene)
        ensures
            s.wf(),
            s.tree() =~= Map::empty(),
            s.slots() == 0,
    {
        Scene { nodes: arena_new() }
    }

    /// The number of arena slots, removed ones included.
    pub fn slot_count(&self) -> (r: usize)
        ensures
            r == self.slots(),
            forall|i: usize| #[trigger] self.tree().dom().contains(i) ==> 1 <= i <= r,
    {
        arena_len(&self.nodes)
    }

    /// Whether the node is live in the tree.
    pub fn is_alive(&self, id: usize) -> (r: bool)
        requires
            self.wf(),
        ensures
            r == self.tree().dom().contains(id),
    {
        if id == 0 {
            false
        } else {
            arena_is_live(&self.nodes, id)
        }
    }

    /// A copy of the node's data, if the node is live.
    pub fn node(&self, id: usize) -> (r: Option<SceneNode>)
        requires
            self.wf(),
        ensures
            r == (if self.tree().dom().contains(id) {
                Some(self.tree()[id].data)
            } else {
                None
            }),
    {
        if self.is_alive(id) {
            Some(arena_data(&self.nodes, id))
        } else {
            None
        }
    }

    /// Replaces the data of a live node; does nothing for a node that is not live.
    pub fn set_node(&mut self, id: usize, data: SceneNode)
        requires
            old(self).wf(),
        ensures
            final(self).wf(),
            final(self).slots() == old(self).slots(),
            old(self).tree().dom().contains(id) ==> final(self).tree() == with_data(
                old(self).tree(),
                id,
                data,
            ),
            !old(self).tree().dom().contains(id) ==> final(self).tree() == old(self).tree(),
    {
        if self.is_alive(id) {
            arena_set_data(&mut self.nodes, id, data);
            proof {
                lemma_with_data_wf(old(self).tree(), id, data);
            }
        }
    }

    /// The parent of a live node; `None` for a root or a node that is not live.
    pub fn parent(&self, id: usize) -> (r: Option<usize>)
        requires
            self.wf(),
        ensures
            r == (if self.tree().dom().contains(id) {
                self.tree()[id].parent
            } else {
                None
            }),
    {
        if self.is_alive(id) {
            arena_parent(&self.nodes, id)
        } else {
            None
        }
    }

    /// The children of a live node in order; empty for a node that is not live.
    pub fn children(&self, id: usize) -> (r: Vec<usize>)
        requires
            self.wf(),
        ensures
            r@ == (if self.tree().dom().contains(id) {
                self.tree()[id].children
            } else {
                Seq::empty()
            }),
    {
        if self.is_alive(id) {
            arena_children(&self.nodes, id)
        } else {
            Vec::new()
        }
    }

    /// A live node and its descendants in tree order; empty for a node that
    /// is not live.
    pub fn descendants(&self, id: usize) -> (r: Vec<usize>)
        requires
            self.wf(),
        ensures
            r@ == (if self.tree().dom().contains(id) {
                descendants(self.tree(), id)
            } else {
                Seq::empty()
            }),
    {
        if self.is_alive(id) {
            arena_descendants(&self.nodes, id)
        } else {
            Vec::new()
        }
    }

    /// A live node and its ancestors, nearest first; empty for a node that is
    /// not live.
    pub fn ancestors(&self, id: usize) -> (r: Vec<usize>)
        requires
            self.wf(),
        ensures
            r@ == (if self.tree().dom().contains(id) {
                ancestors(self.tree(), id)
            } else {
                Seq::empty()
            }),
    {
        if self.is_alive(id) {
            arena_ancestors(&self.nodes, id)
        } else {
            Vec::new()
        }
    }

    /// Whether `a` is `b` or one of its ancestors, `b` being live.
    pub fn is_ancestor_or_self(&self, a: usize, b: usize) -> (r: bool)
        requires
            self.wf(),
            self.tree().dom().contains(b),
        ensures
            r == is_ancestor_or_self(self.tree(), a, b),
    {
        let anc = arena_ancestors(&self.nodes, b);
        let mut k: usize = 0;
        while k < anc.len()
            invariant
                anc@ == ancestors(self.tree(), b),
                0 <= k <= anc.len(),
                forall|j: int| 0 <= j < k ==> anc@[j] != a,
            decreases anc.len() - k,
        {
            if anc[k] == a {
                return true;
            }
            k = k + 1;
        }
        false
    }

    /// Whether the node is gone from the scene: not live, or marked for deletion.
    pub fn is_node_removed(&self, id: usize) -> (r: bool)
        requires
            self.wf(),
        ensures
            r == is_removed_spec(self.tree(), id),
    {
        match self.node(id) {
            Some(n) => n.is_deleted,
            None => true,
        }
    }

    /// Adds `bits` to the flags of a live node; does nothing otherwise.
    pub fn insert_flags(&mut self, id: usize, flags: RenderableFlags)
        requires
            old(self).wf(),
        ensures
            final(self).wf(),
            final(self).slots() == old(self).slots(),
            old(self).tree().dom().contains(id) ==> final(self).tree() == with_flags(
                old(self).tree(),
                id,
                flags.bits,
            ),
            !old(self).tree().dom().contains(id) ==> final(self).tree() == old(self).tree(),
    {
        if let Some(mut n) = self.node(id) {
            n.insert_flags(flags);
            self.set_node(id, n);
        }
    }

    /// Attaches `child` as the last child of `parent`, detaching it from its
    /// former place. The child is then marked for repaint and the parent for
    /// layout. Nothing happens when the parent is not live.
    pub fn append_node_to(&mut self, child: usize, parent: usize)
        requires
            old(self).wf(),
            old(self).tree().dom().contains(child),
            old(self).tree().dom().contains(parent) ==> !is_ancestor_or_self(
                old(self).tree(),
                child,
                parent,
            ),
        ensures
            final(self).wf(),
            final(self).slots() == old(self).slots(),
            !old(self).tree().dom().contains(parent) ==> final(self).tree() == old(self).tree(),
            old(self).tree().dom().contains(parent) ==> final(self).tree() == with_flags(
                with_flags(appended(old(self).tree(), parent, child), child, NEEDS_PAINT_BIT),
                parent,
                NEEDS_LAYOUT_BIT,
            ),
    {
        if !self.is_alive(parent) {
            return;
        }
        proof {
            lemma_live_fuel(self.tree(), parent);
        }
        arena_append(&mut self.nodes, parent, child);
        proof {
            lemma_appended_dom(old(self).tree(), parent, child);
            crate::forest::law_append_keeps_forest(old(self).tree(), parent, child);
        }
        self.insert_flags(child, RenderableFlags::needs_paint());
        self.insert_flags(parent, RenderableFlags::needs_layout());
    }

    /// Attaches `child` as the first child of `parent`, detaching it from its
    /// former place. The child is then marked for repaint and the parent for
    /// layout.
    pub fn prepend_node_to(&mut self, child: usize, parent: usize)
        requires
            old(self).wf(),
            old(self).tree().dom().contains(child),
            old(self).tree().dom().contains(parent),
            !is_ancestor_or_self(old(self).tree(), child, parent),
        ensures
            final(self).wf(),
            final(self).slots() == old(self).slots(),
            final(self).tree() == with_flags(
                with_flags(prepended(old(self).tree(), parent, child), child, NEEDS_PAINT_BIT),
                parent,
                NEEDS_LAYOUT_BIT,
            ),
    {
        proof {
            lemma_live_fuel(self.tree(), parent);
        }
        arena_prepend(&mut self.nodes, parent, child);
        proof {
            lemma_prepended_dom(old(self).tree(), parent, child);
            crate::forest::law_prepend_keeps_forest(old(self).tree(), parent, child);
        }
        self.insert_flags(child, RenderableFlags::needs_paint());
        self.insert_flags(parent, RenderableFlags::needs_layout());
    }

    /// Adds a node to the scene, attached to `parent` when one is given (as by
    /// `append_node_to`). `None` when the arena has no index left for a new node.
    pub fn insert_node(&mut self, node: SceneNode, parent: Option<usize>) -> (r: Option<usize>)
        requires
            old(self).wf(),
        ensures
            final(self).wf(),
            r is None <==> old(self).slots() == usize::MAX,
            r is None ==> final(self).tree() == old(self).tree(),
            r matches Some(id) ==> {
                let t = old(self).tree().insert(
                    id,
                    NodeEntry { parent: None, children: seq![], data: node },
                );
                &&& !old(self).tree().dom().contains(id)
                &&& id >= 1
                &&& match parent {
                    None => final(self).tree() == t,
                    Some(p) => if old(self).tree().dom().contains(p) {
                        final(self).tree() == with_flags(
                            with_flags(appended(t, p, id), id, NEEDS_PAINT_BIT),
                            p,
                            NEEDS_LAYOUT_BIT,
                        )
                    } else {
                        final(self).tree() == t
                    },
                }
            },
    {
        let len = arena_len(&self.nodes);
        if len == usize::MAX {
            return None;
        }
        let id = arena_new_node(&mut self.nodes, node);
        proof {
            lemma_insert_isolated_wf(old(self).tree(), id, node);
        }
        match parent {
            None => {},
            Some(p) => {
                if p != id {
                    proof {
                        if old(self).tree().dom().contains(p) {
                            lemma_fresh_not_ancestor(old(self).tree(), id, node, p);
                        }
                    }
                    self.append_node_to(id, p);
                }
            },
        }
        Some(id)
    }

    /// Detaches a live node from its parent; its subtree stays with it.
    pub fn detach_node(&mut self, id: usize)
        requires
            old(self).wf(),
        ensures
            final(self).wf(),
            final(self).slots() == old(self).slots(),
            final(self).tree() == detached(old(self).tree(), id),
    {
        if self.is_alive(id) {
            crate::arena::arena_detach(&mut self.nodes, id);
            proof {
                crate::forest::law_detach_keeps_forest(old(self).tree(), id);
            }
        }
    }

    /// Removes a live node and its whole subtree from the scene.
    pub fn remove_node(&mut self, id: usize)
        requires
            old(self).wf(),
        ensures
            final(self).wf(),
            final(self).slots() == old(self).slots(),
            final(self).tree() == subtree_removed(old(self).tree(), id),
    {
        if self.is_alive(id) {
            arena_remove_subtree(&mut self.nodes, id);
            proof {
                crate::forest::law_remove_keeps_forest(old(self).tree(), id);
            }
        }
    }
}

/// Replacing the data of a live node keeps the tree well formed.
pub proof fn lemma_with_data_wf(m: Tree, i: usize, d: SceneNode)
    requires
        tree_wf(m),
        m.dom().contains(i),
    ensures
        tree_wf(with_data(m, i, d)),
        with_data(m, i, d).dom() == m.dom(),
{
    let m2 = with_data(m, i, d);
    assert(m2.dom() =~= m.dom());
    assert forall|x: usize, k: nat| #[trigger] reaches_root(m, x, k) implies reaches_root(m2, x, k) by {
        lemma_reaches_same_links(m, m2, x, k);
    }
}

/// Reaching a root only depends on the parent links.
pub proof fn lemma_reaches_same_links(m: Tree, m2: Tree, x: usize, k: nat)
    requires
        reaches_root(m, x, k),
        forall|y: usize| m.dom().contains(y) ==> #[trigger] m2.dom().contains(y) && m2[y].parent
            == m[y].parent,
    ensures
        reaches_root(m2, x, k),
        ancestors_f(m2, x, k) == ancestors_f(m, x, k),
    decreases k,
{
    assert(m2.dom().contains(x));
    match m[x].parent {
        None => {},
        Some(p) => {
            lemma_reaches_same_links(m, m2, p, (k - 1) as nat);
        },
    }
}

/// Detaching keeps the set of live nodes.
pub proof fn lemma_detached_dom(m: Tree, c: usize)
    requires
        tree_wf(m),
    ensures
        detached(m, c).dom() == m.dom(),
{
    if m.dom().contains(c) {
        if let Some(p0) = m[c].parent {
            assert(m.dom().contains(p0));
        }
    }
    assert(detached(m, c).dom() =~= m.dom());
}

/// Appending keeps the set of live nodes.
pub proof fn lemma_appended_dom(m: Tree, p: usize, c: usize)
    requires
        tree_wf(m),
        m.dom().contains(p),
        m.dom().contains(c),
    ensures
        appended(m, p, c).dom() == m.dom(),
{
    lemma_detached_dom(m, c);
    assert(appended(m, p, c).dom() =~= m.dom());
}

/// Prepending keeps the set of live nodes.
pub proof fn lemma_prepended_dom(m: Tree, p: usize, c: usize)
    requires
        tree_wf(m),
        m.dom().contains(p),
        m.dom().contains(c),
    ensures
        prepended(m, p, c).dom() == m.dom(),
{
    lemma_detached_dom(m, c);
    assert(prepended(m, p, c).dom() =~= m.dom());
}

/// Adding a node without parent or children keeps the tree well formed.
pub proof fn lemma_insert_isolated_wf(m: Tree, id: usize, d: SceneNode)
    requires
        tree_wf(m),
        !m.dom().contains(id),
        id >= 1,
    ensures
        tree_wf(m.insert(id, NodeEntry { parent: None, children: seq![], data: d })),
{
    let m2 = m.insert(id, NodeEntry { parent: None, children: seq![], data: d });
    assert(m2.dom().len() == m.dom().len() + 1);
    assert forall|x: usize| #[trigger] m2.dom().contains(x) implies reaches_root(
        m2,
        x,
        m2.dom().len(),
    ) by {
        if x != id {
            lemma_reaches_same_links(m, m2, x, m.dom().len());
            lemma_reaches_mono(m2, x, m.dom().len(), m2.dom().len());
        }
    }
    assert forall|i: usize, j: int|
        #![trigger m2[i].children[j]]
        m2.dom().contains(i) && 0 <= j < m2[i].children.len() implies {
            &&& m2.dom().contains(m2[i].children[j])
            &&& m2[m2[i].children[j]].parent == Some(i)
        } by {
        if i != id {
            assert(m[i].children[j] != id);
        }
    }
}

/// A freshly added node is not an ancestor of any node that was there before.
pub proof fn lemma_fresh_not_ancestor(m: Tree, id: usize, d: SceneNode, p: usize)
    requires
        tree_wf(m),
        !m.dom().contains(id),
        m.dom().contains(p),
        id >= 1,
    ensures
        !is_ancestor_or_self(
            m.insert(id, NodeEntry { parent: None, children: seq![], data: d }),
            id,
            p,
        ),
{
    let m2 = m.insert(id, NodeEntry { parent: None, children: seq![], data: d });
    let n = m.dom().len();
    lemma_reaches_same_links(m, m2, p, n);
    lemma_reaches_mono(m2, p, n, m2.dom().len());
    crate::tree::lemma_ancestors_len(m, p, n);
    let a = ancestors_f(m, p, n);
    assert(ancestors(m2, p) == a);
    if a.contains(id) {
        let j = choose|j: int| 0 <= j < a.len() && a[j] == id;
        assert(m.dom().contains(a[j]));
    }
}


/// Appending `c` to `p` makes `c` the last child of `p`, after the other
/// children of `p` in their order, and `p` the parent of `c`. The set of live
/// nodes, and the data of each, stay as they were.
pub proof fn law_append_last_child(m: Tree, p: usize, c: usize)
    requires
        tree_wf(m),
        m.dom().contains(p),
        m.dom().contains(c),
        p != c,
    ensures
        appended(m, p, c).dom() == m.dom(),
        appended(m, p, c)[p].children == m[p].children.remove_value(c).push(c),
        appended(m, p, c)[p].children.last() == c,
        appended(m, p, c)[c].parent == Some(p),
        forall|x: usize| #[trigger] m.dom().contains(x) ==> appended(m, p, c)[x].data == m[x].data,
{
    lemma_appended_dom(m, p, c);
    lemma_detached_keeps_other_children(m, c, p);
}

/// Prepending `c` to `p` makes `c` the first child of `p`, before the other
/// children of `p` in their order, and `p` the parent of `c`. The set of live
/// nodes, and the data of each, stay as they were.
pub proof fn law_prepend_first_child(m: Tree, p: usize, c: usize)
    requires
        tree_wf(m),
        m.dom().contains(p),
        m.dom().contains(c),
        p != c,
    ensures
        prepended(m, p, c).dom() == m.dom(),
        prepended(m, p, c)[p].children == seq![c] + m[p].children.remove_value(c),
        prepended(m, p, c)[p].children[0] == c,
        prepended(m, p, c)[c].parent == Some(p),
        forall|x: usize| #[trigger] m.dom().contains(x) ==> prepended(m, p, c)[x].data == m[x].data,
{
    lemma_prepended_dom(m, p, c);
    lemma_detached_keeps_other_children(m, c, p);
}

/// After `c` is detached, a node `p` other than `c` has its children less
/// `c`, and every node keeps its data.
proof fn lemma_detached_keeps_other_children(m: Tree, c: usize, p: usize)
    requires
        tree_wf(m),
        m.dom().contains(p),
        m.dom().contains(c),
        p != c,
    ensures
        detached(m, c)[p].children == m[p].children.remove_value(c),
        forall|x: usize| #[trigger] m.dom().contains(x) ==> detached(m, c)[x].data == m[x].data,
{
    match m[c].parent {
        Some(q) => {
            if q != p {
                if m[p].children.contains(c) {
                    let j = choose|j: int| 0 <= j < m[p].children.len() && m[p].children[j] == c;
                    assert(m[m[p].children[j]].parent == Some(p));
                }
                m[p].children.index_of_first_ensures(c);
            }
        },
        None => {
            if m[p].children.contains(c) {
                let j = choose|j: int| 0 <= j < m[p].children.len() && m[p].children[j] == c;
                assert(m[m[p].children[j]].parent == Some(p));
            }
            m[p].children.index_of_first_ensures(c);
        },
    }
}

/// Removing the subtree of `n` removes `n` and exactly its descendants, the
/// nodes that have `n` among their ancestors; every other node stays live,
/// and the tree stays well formed.
pub proof fn law_remove_subtree(m: Tree, n: usize)
    requires
        tree_wf(m),
        m.dom().contains(n),
    ensures
        !subtree_removed(m, n).dom().contains(n),
        forall|x: usize| #[trigger] subtree_removed(m, n).dom().contains(x) <==> (m.dom().contains(x)
            && !descendants(m, n).contains(x)),
        forall|x: usize| #[trigger] subtree_removed(m, n).dom().contains(x) <==> (m.dom().contains(x)
            && !is_ancestor_or_self(m, n, x)),
        tree_wf(subtree_removed(m, n)),
{
    crate::forest::law_remove_keeps_forest(m, n);
    assert forall|x: usize| #[trigger] subtree_removed(m, n).dom().contains(x) <==> (m.dom().contains(x)
        && !is_ancestor_or_self(m, n, x)) by {
        crate::forest::law_descendants_are_below(m, n, x);
        lemma_detached_dom(m, n);
    }
    lemma_detached_dom(m, n);
    crate::tree::lemma_live_fuel(m, n);
    let f = height_fuel(m, n);
    assert(descendants(m, n) == seq![n] + pre_list(m, m[n].children, (f - 1) as nat));
    assert(descendants(m, n)[0] == n);
}


/// The nodes that take pointer events in the subtree of `i`, in tree order,
/// leaving out hidden nodes and everything below them; at most `f` levels.
pub open spec fn hit_f(m: Tree, i: usize, f: nat) -> Seq<usize>
    decreases f, 0nat,
{
    if f == 0 || !m.dom().contains(i) || m[i].data.hidden {
        seq![]
    } else {
        (if m[i].data.pointer_events {
            seq![i]
        } else {
            seq![]
        }) + hit_list(m, m[i].children, (f - 1) as nat)
    }
}

/// `hit_f` of each of `kids`, one after another.
pub open spec fn hit_list(m: Tree, kids: Seq<usize>, f: nat) -> Seq<usize>
    decreases f, kids.len() + 1,
{
    if kids.len() == 0 {
        seq![]
    } else {
        hit_list(m, kids.drop_last(), f) + hit_f(m, kids.last(), f)
    }
}

/// The nodes eligible for pointer hit testing under `root`, in tree order:
/// those with pointer events, outside every hidden subtree.
pub open spec fn hit_test_list(m: Tree, root: usize) -> Seq<usize> {
    hit_f(m, root, height_fuel(m, root))
}

/// Whether `x` can be hit under `root`: it is live, it is `root` or below
/// it, it takes pointer events, and neither it nor any node on the way up
/// to `root` (both included) is hidden.
pub open spec fn hit_testable(m: Tree, root: usize, x: usize) -> bool {
    &&& m.dom().contains(x)
    &&& m[x].data.pointer_events
    &&& exists|t: int| #![trigger ancestors(m, x)[t]] 0 <= t < ancestors(m, x).len() && ancestors(m, x)[t] == root
        && forall|j: int| 0 <= j <= t ==> !(#[trigger] m[ancestors(m, x)[j]]).data.hidden
}

/// A node of `hit_list` of `kids` is in `hit_f` of one of them.
proof fn lemma_hit_list_contains(m: Tree, kids: Seq<usize>, f: nat, x: usize)
    ensures
        hit_list(m, kids, f).contains(x) <==> exists|j: int| 0 <= j < kids.len() && #[trigger] hit_f(m, kids[j], f).contains(x),
    decreases kids.len(),
{
    if kids.len() > 0 {
        let init = kids.drop_last();
        let last = kids.len() - 1;
        lemma_hit_list_contains(m, init, f, x);
        let a = hit_list(m, init, f);
        let b = hit_f(m, kids[last], f);
        assert(kids.last() == kids[last]);
        assert(hit_list(m, kids, f) == a + b);
        if (a + b).contains(x) {
            let i = choose|i: int| 0 <= i < (a + b).len() && (a + b)[i] == x;
            if i < a.len() {
                assert(a[i] == x);
                assert(a.contains(x));
                let j = choose|j: int| 0 <= j < init.len() && #[trigger] hit_f(m, init[j], f).contains(x);
                assert(init[j] == kids[j]);
                assert(hit_f(m, kids[j], f).contains(x));
            } else {
                assert(b[i - a.len()] == x);
                assert(b.contains(x));
            }
        }
        if exists|j: int| 0 <= j < kids.len() && #[trigger] hit_f(m, kids[j], f).contains(x) {
            let j = choose|j: int| 0 <= j < kids.len() && #[trigger] hit_f(m, kids[j], f).contains(x);
            if j < last {
                assert(init[j] == kids[j]);
                assert(hit_f(m, init[j], f).contains(x));
                assert(a.contains(x));
                let i = choose|i: int| 0 <= i < a.len() && a[i] == x;
                assert((a + b)[i] == x);
            } else {
                assert(b.contains(x));
                let i = choose|i: int| 0 <= i < b.len() && b[i] == x;
                assert((a + b)[a.len() + i] == x);
            }
        }
    }
}

/// `hit_f` of a live node `i` with `f` levels holds exactly the nodes that
/// can be hit under `i`, fewer than `f` levels below it.
proof fn lemma_hit_f_contains(m: Tree, i: usize, f: nat, x: usize)
    requires
        tree_wf(m),
        m.dom().contains(i),
    ensures
        hit_f(m, i, f).contains(x) <==> (f > 0 && hit_testable(m, i, x) && crate::arena::depth(m, x)
            < crate::arena::depth(m, i) + f),
    decreases f,
{
    lemma_live_fuel(m, i);
    if f > 0 && !m[i].data.hidden {
        let kids = m[i].children;
        let head: Seq<usize> = if m[i].data.pointer_events {
            seq![i]
        } else {
            seq![]
        };
        let rest = hit_list(m, kids, (f - 1) as nat);
        assert(hit_f(m, i, f) == head + rest);
        lemma_hit_list_contains(m, kids, (f - 1) as nat, x);
        if hit_f(m, i, f).contains(x) {
            let k = choose|k: int| 0 <= k < (head + rest).len() && (head + rest)[k] == x;
            if k < head.len() {
                assert(x == i);
                assert(ancestors(m, x)[0] == i);
                assert forall|j: int| 0 <= j <= 0 implies !(#[trigger] m[ancestors(m, x)[j]]).data.hidden by {}
            } else {
                assert(rest[k - head.len()] == x);
                assert(rest.contains(x));
                let j = choose|j: int| 0 <= j < kids.len() && #[trigger] hit_f(m, kids[j], (f - 1) as nat).contains(x);
                let kid = kids[j];
                crate::tree::lemma_child_of(m, i, j);
                lemma_hit_f_contains(m, kid, (f - 1) as nat, x);
                crate::tree::lemma_child_depth(m, i, kid);
                let t = choose|t: int| #![trigger ancestors(m, x)[t]] 0 <= t < ancestors(m, x).len() && ancestors(m, x)[t] == kid
                    && forall|j: int| 0 <= j <= t ==> !(#[trigger] m[ancestors(m, x)[j]]).data.hidden;
                crate::forest::lemma_parent_on_chain(m, x, t);
                assert(ancestors(m, x)[t + 1] == i);
                assert forall|j2: int| 0 <= j2 <= t + 1 implies !(#[trigger] m[ancestors(m, x)[j2]]).data.hidden by {
                    if j2 <= t {
                    }
                }
            }
        }
        if hit_testable(m, i, x) && crate::arena::depth(m, x) < crate::arena::depth(m, i) + f {
            let t = choose|t: int| #![trigger ancestors(m, x)[t]] 0 <= t < ancestors(m, x).len() && ancestors(m, x)[t] == i
                && forall|j: int| 0 <= j <= t ==> !(#[trigger] m[ancestors(m, x)[j]]).data.hidden;
            lemma_live_fuel(m, x);
            if x == i {
                assert((head + rest)[0] == i);
            } else {
                assert(t > 0);
                crate::forest::lemma_ancestor_chain(m, x, t - 1);
                let kid = ancestors(m, x)[t - 1];
                lemma_live_fuel(m, kid);
                assert(m[kid].parent == Some(i)) by {
                    crate::forest::lemma_ancestor_chain(m, x, t);
                    if m[kid].parent is None {
                        assert(ancestors(m, kid) == seq![kid]);
                        assert(ancestors(m, x).subrange(t - 1, ancestors(m, x).len() as int).len() >= 2);
                    } else {
                        crate::forest::lemma_parent_on_chain(m, x, t - 1);
                    }
                }
                crate::tree::lemma_child_depth(m, i, kid);
                assert(m[i].children.contains(kid));
                let j = choose|j: int| 0 <= j < kids.len() && kids[j] == kid;
                assert(ancestors(m, x)[t - 1] == kid);
                assert forall|j2: int| 0 <= j2 <= t - 1 implies !(#[trigger] m[ancestors(m, x)[j2]]).data.hidden by {}
                lemma_hit_f_contains(m, kid, (f - 1) as nat, x);
                assert(hit_f(m, kids[j], (f - 1) as nat).contains(x));
                assert(rest.contains(x));
                let k = choose|k: int| 0 <= k < rest.len() && rest[k] == x;
                assert((head + rest)[head.len() + k] == x);
            }
        }
    } else if hit_testable(m, i, x) && f > 0 {
        let t = choose|t: int| #![trigger ancestors(m, x)[t]] 0 <= t < ancestors(m, x).len() && ancestors(m, x)[t] == i
            && forall|j: int| 0 <= j <= t ==> !(#[trigger] m[ancestors(m, x)[j]]).data.hidden;
        assert(!m[ancestors(m, x)[t]].data.hidden);
    }
}

/// The hit test list under a live root holds exactly the nodes that can be
/// hit under it: live nodes at or below the root that take pointer events,
/// with no hidden node between them and the root.
pub proof fn law_hit_test_list(m: Tree, root: usize, x: usize)
    requires
        tree_wf(m),
        m.dom().contains(root),
    ensures
        hit_test_list(m, root).contains(x) <==> hit_testable(m, root, x),
{
    lemma_live_fuel(m, root);
    lemma_hit_f_contains(m, root, height_fuel(m, root), x);
    if m.dom().contains(x) {
        lemma_live_fuel(m, x);
    }
}

/// Whether a traversal edge is the end of a node's visit.
pub open spec fn is_end_edge() -> spec_fn((bool, usize)) -> bool {
    |e: (bool, usize)| e.0
}

/// The node of a traversal edge.
pub open spec fn edge_node() -> spec_fn((bool, usize)) -> usize {
    |e: (bool, usize)| e.1
}

/// The ends of the traversal edges, in order: the nodes in post-order.
pub open spec fn edge_ends(edges: Seq<(bool, usize)>) -> Seq<usize> {
    edges.filter(is_end_edge()).map_values(edge_node())
}

/// The subtree of `root` in post-order, children before their parent.
pub open spec fn post_order(m: Tree, root: usize) -> Seq<usize> {
    edge_ends(traversal(m, root))
}

/// The post-orders of the subtrees of `kids`, one after another.
pub open spec fn post_orders_of(m: Tree, kids: Seq<usize>) -> Seq<usize>
    decreases kids.len(),
{
    if kids.len() == 0 {
        seq![]
    } else {
        post_orders_of(m, kids.drop_last()) + post_order(m, kids.last())
    }
}

/// The ends of two runs of edges are the ends of each, one after the other.
proof fn lemma_edge_ends_add(a: Seq<(bool, usize)>, b: Seq<(bool, usize)>)
    ensures
        edge_ends(a + b) == edge_ends(a) + edge_ends(b),
{
    Seq::filter_distributes_over_add(a, b, is_end_edge());
    assert(edge_ends(a + b) =~= edge_ends(a) + edge_ends(b));
}

/// The ends of the traversals of the first `j` children of `i` are the
/// post-orders of those children.
proof fn lemma_post_orders_prefix(m: Tree, i: usize, j: int)
    requires
        tree_wf(m),
        m.dom().contains(i),
        0 <= j <= m[i].children.len(),
    ensures
        edge_ends(crate::arena::trav_list(m, m[i].children.take(j), (height_fuel(m, i) - 1) as nat))
            == post_orders_of(m, m[i].children.take(j)),
    decreases j,
{
    let kids = m[i].children.take(j);
    let f = (height_fuel(m, i) - 1) as nat;
    if j == 0 {
        assert(edge_ends(Seq::<(bool, usize)>::empty()) =~= Seq::<usize>::empty());
    } else {
        lemma_post_orders_prefix(m, i, j - 1);
        assert(kids.drop_last() =~= m[i].children.take(j - 1));
        assert(kids.last() == m[i].children[j - 1]);
        lemma_child_of(m, i, j - 1);
        lemma_edge_ends_add(
            crate::arena::trav_list(m, kids.drop_last(), f),
            crate::arena::trav_f(m, kids.last(), f),
        );
    }
}

/// A node comes last in the post-order of its subtree, after the post-orders
/// of its children, each child's block in the order of the children: every
/// node comes after all of its descendants.
pub proof fn law_post_order_parent_last(m: Tree, i: usize)
    requires
        tree_wf(m),
        m.dom().contains(i),
    ensures
        post_order(m, i) == post_orders_of(m, m[i].children) + seq![i],
        post_order(m, i).last() == i,
{
    lemma_live_fuel(m, i);
    let f = height_fuel(m, i);
    let kids = m[i].children;
    let mid = crate::arena::trav_list(m, kids, (f - 1) as nat);
    assert(traversal(m, i) == seq![(false, i)] + mid + seq![(true, i)]);
    lemma_edge_ends_add(seq![(false, i)] + mid, seq![(true, i)]);
    lemma_edge_ends_add(seq![(false, i)], mid);
    assert(edge_ends(seq![(false, i)]) =~= Seq::<usize>::empty()) by {
        reveal_with_fuel(Seq::filter, 2);
    }
    assert(edge_ends(seq![(true, i)]) =~= seq![i]) by {
        reveal_with_fuel(Seq::filter, 2);
    }
    lemma_post_orders_prefix(m, i, kids.len() as int);
    assert(kids.take(kids.len() as int) =~= kids);
    assert(post_order(m, i) =~= post_orders_of(m, kids) + seq![i]);
}

/// The depth of a live node; 0 for a node that is not live.
pub open spec fn depth_of(m: Tree, x: usize) -> nat {
    if m.dom().contains(x) {
        crate::arena::depth(m, x)
    } else {
        0
    }
}

/// The ids of the first `n` arena slots, in order: 1 up to `n`.
pub open spec fn slot_ids(n: nat) -> Seq<usize> {
    Seq::new(n, |j: int| (j + 1) as usize)
}

/// Whether a node is live and marked for deletion.
pub open spec fn marked_deleted(m: Tree, x: usize) -> bool {
    m.dom().contains(x) && m[x].data.is_deleted
}

/// Whether a node is live and not marked for deletion.
pub open spec fn kept(m: Tree, x: usize) -> bool {
    m.dom().contains(x) && !m[x].data.is_deleted
}

/// `groups` lists, by increasing depth, each depth that occurs among
/// `nodes` with the nodes of that depth in their order in `nodes`.
pub open spec fn is_depth_grouping(m: Tree, nodes: Seq<usize>, groups: Seq<(usize, Seq<usize>)>) -> bool {
    &&& forall|k: int| 0 <= k < groups.len() ==> {
        &&& (#[trigger] groups[k]).1 == nodes.filter(|x: usize| depth_of(m, x) == groups[k].0)
        &&& groups[k].1.len() > 0
    }
    &&& forall|k1: int, k2: int| 0 <= k1 < k2 < groups.len() ==> #[trigger] groups[k1].0 < #[trigger] groups[k2].0
    &&& forall|x: usize| #[trigger] nodes.contains(x) ==> exists|k: int| 0 <= k < groups.len() && groups[k].0 == depth_of(m, x)
}

impl Scene {
    /// Adds to `result` the nodes eligible for hit testing under `node`.
    fn collect_hit_test_nodes(&self, node: usize, result: &mut Vec<usize>, Ghost(f): Ghost<nat>)
        requires
            self.wf(),
            self.tree().dom().contains(node) ==> f == height_fuel(self.tree(), node),
        ensures
            final(result)@ == old(result)@ + hit_f(self.tree(), node, f),
        decreases f,
    {
        if !self.is_alive(node) {
            assert(hit_f(self.tree(), node, f) == Seq::<usize>::empty());
            assert(result@ =~= old(result)@ + hit_f(self.tree(), node, f));
            return;
        }
        proof {
            lemma_live_fuel(self.tree(), node);
        }
        let data = arena_data(&self.nodes, node);
        if data.hidden {
            assert(result@ =~= old(result)@ + hit_f(self.tree(), node, f));
            return;
        }
        if data.pointer_events {
            result.push(node);
        }
        let ghost base = result@;
        let kids = arena_children(&self.nodes, node);
        let mut j: usize = 0;
        assert(kids@.take(0) =~= Seq::<usize>::empty());
        assert(result@ =~= base + hit_list(self.tree(), kids@.take(0), (f - 1) as nat));
        while j < kids.len()
            invariant
                self.wf(),
                self.tree().dom().contains(node),
                f == height_fuel(self.tree(), node),
                f >= 1,
                kids@ == self.tree()[node].children,
                0 <= j <= kids.len(),
                result@ == base + hit_list(self.tree(), kids@.take(j as int), (f - 1) as nat),
            decreases kids.len() - j,
        {
            proof {
                lemma_child_of(self.tree(), node, j as int);
                assert(kids@.take(j + 1).drop_last() =~= kids@.take(j as int));
                assert(kids@.take(j + 1).last() == kids@[j as int]);
            }
            self.collect_hit_test_nodes(kids[j], result, Ghost((f - 1) as nat));
            assert(result@ =~= base + hit_list(self.tree(), kids@.take(j + 1), (f - 1) as nat));
            j = j + 1;
        }
        assert(kids@.take(kids.len() as int) =~= kids@);
        assert(result@ =~= old(result)@ + hit_f(self.tree(), node, f));
    }

    /// The nodes eligible for pointer hit testing under `root`, in tree
    /// order: the nodes with pointer events, hidden subtrees left out.
    pub fn hit_test_nodes(&self, root: usize) -> (r: Vec<usize>)
        requires
            self.wf(),
        ensures
            r@ == hit_test_list(self.tree(), root),
    {
        let mut result: Vec<usize> = Vec::new();
        self.collect_hit_test_nodes(root, &mut result, Ghost(height_fuel(self.tree(), root)));
        assert(result@ =~= hit_test_list(self.tree(), root));
        result
    }

    /// The subtree of a live root in post-order, children before parents.
    pub fn post_order(&self, root: usize) -> (r: Vec<usize>)
        requires
            self.wf(),
            self.tree().dom().contains(root),
        ensures
            r@ == post_order(self.tree(), root),
    {
        let edges = arena_traverse(&self.nodes, root);
        let mut r: Vec<usize> = Vec::new();
        let mut k: usize = 0;
        let ghost pred = is_end_edge();
        assert(edges@.take(0) =~= Seq::<(bool, usize)>::empty());
        assert(edges@.take(0).filter(pred) =~= Seq::<(bool, usize)>::empty()) by {
            reveal(Seq::filter);
        }
        assert(r@ =~= edge_ends(edges@.take(0)));
        while k < edges.len()
            invariant
                0 <= k <= edges.len(),
                r@ == edge_ends(edges@.take(k as int)),
                pred == is_end_edge(),
            decreases edges.len() - k,
        {
            let e = edges[k];
            proof {
                assert(edges@.take(k + 1) =~= edges@.take(k as int).push(e));
                edges@.take(k as int).lemma_filter_push(e, pred);
            }
            let ghost before = edges@.take(k as int).filter(pred);
            if e.0 {
                r.push(e.1);
                assert(edges@.take(k + 1).filter(pred) == before.push(e));
                assert(before.push(e).map_values(edge_node()) =~= before.map_values(edge_node()).push(e.1));
                assert(r@ =~= edge_ends(edges@.take(k + 1)));
            } else {
                assert(edges@.take(k + 1).filter(pred) == before);
                assert(r@ =~= edge_ends(edges@.take(k + 1)));
            }
            k = k + 1;
        }
        assert(edges@.take(edges.len() as int) =~= edges@);
        r
    }

    /// The number of ancestors of a live node; 0 for a node that is not live.
    pub fn node_depth(&self, x: usize) -> (r: usize)
        requires
            self.wf(),
        ensures
            r == depth_of(self.tree(), x),
            r < usize::MAX,
    {
        let a = self.ancestors(x);
        proof {
            if self.tree().dom().contains(x) {
                lemma_live_fuel(self.tree(), x);
            }
        }
        if a.len() == 0 {
            0
        } else {
            a.len() - 1
        }
    }

    /// Groups `nodes` by depth: one group per depth that occurs, by
    /// increasing depth, each holding the nodes of that depth in their order.
    pub fn depth_groups(&self, nodes: &Vec<usize>) -> (r: Vec<(usize, Vec<usize>)>)
        requires
            self.wf(),
        ensures
            is_depth_grouping(self.tree(), nodes@, r@.map_values(|g: (usize, Vec<usize>)| (g.0, g.1@))),
    {
        let ghost m = self.tree();
        let mut ds: Vec<usize> = Vec::new();
        let mut maxd: usize = 0;
        let mut i: usize = 0;
        while i < nodes.len()
            invariant
                m == self.tree(),
                self.wf(),
                0 <= i <= nodes.len(),
                ds@.len() == i,
                forall|j: int| 0 <= j < i ==> ds@[j] == depth_of(m, nodes@[j]),
                forall|j: int| 0 <= j < i ==> ds@[j] <= maxd,
                maxd < usize::MAX,
            decreases nodes.len() - i,
        {
            let d = self.node_depth(nodes[i]);
            ds.push(d);
            if d > maxd {
                maxd = d;
            }
            i = i + 1;
        }
        let mut groups: Vec<(usize, Vec<usize>)> = Vec::new();
        let mut d: usize = 0;
        while d <= maxd
            invariant
                m == self.tree(),
                0 <= d <= maxd + 1,
                maxd < usize::MAX,
                ds@.len() == nodes@.len(),
                forall|j: int| 0 <= j < nodes@.len() ==> ds@[j] == depth_of(m, nodes@[j]),
                forall|j: int| 0 <= j < nodes@.len() ==> ds@[j] <= maxd,
                forall|k: int| 0 <= k < groups@.len() ==> {
                    &&& (#[trigger] groups@[k]).1@ == nodes@.filter(|x: usize| depth_of(m, x) == groups@[k].0)
                    &&& groups@[k].1@.len() > 0
                    &&& groups@[k].0 < d
                },
                forall|k1: int, k2: int| 0 <= k1 < k2 < groups@.len() ==> #[trigger] groups@[k1].0 < #[trigger] groups@[k2].0,
                forall|j: int| 0 <= j < nodes@.len() && ds@[j] < d ==> exists|k: int| 0 <= k < groups@.len() && groups@[k].0 == ds@[j],
            decreases maxd + 1 - d,
        {
            let ghost pred = |x: usize| depth_of(m, x) == d;
            let mut g: Vec<usize> = Vec::new();
            let mut j: usize = 0;
            assert(nodes@.take(0).filter(pred) =~= Seq::<usize>::empty()) by {
                reveal(Seq::filter);
            }
            assert(nodes@.take(0) =~= Seq::<usize>::empty());
            while j < nodes.len()
                invariant
                    0 <= j <= nodes.len(),
                    ds@.len() == nodes@.len(),
                    forall|t: int| 0 <= t < nodes@.len() ==> ds@[t] == depth_of(m, nodes@[t]),
                    g@ == nodes@.take(j as int).filter(pred),
                    pred == (|x: usize| depth_of(m, x) == d),
                decreases nodes.len() - j,
            {
                proof {
                    assert(nodes@.take(j + 1) =~= nodes@.take(j as int).push(nodes@[j as int]));
                    nodes@.take(j as int).lemma_filter_push(nodes@[j as int], pred);
                }
                if ds[j] == d {
                    g.push(nodes[j]);
                }
                j = j + 1;
            }
            assert(nodes@.take(nodes.len() as int) =~= nodes@);
            let ghost old_groups = groups@;
            if g.len() > 0 {
                groups.push((d, g));
            } else {
                proof {
                    assert forall|t: int| 0 <= t < nodes@.len() implies ds@[t] != d by {
                        if ds@[t] == d {
                            nodes@.lemma_filter_contains(pred, t);
                            assert(pred(nodes@[t]));
                            assert(nodes@.filter(pred).contains(nodes@[t]));
                        }
                    }
                }
            }
            proof {
                assert forall|t: int| 0 <= t < nodes@.len() && ds@[t] < d + 1 implies exists|k: int|
                    0 <= k < groups@.len() && groups@[k].0 == ds@[t] by {
                    if ds@[t] == d {
                        let k = (groups@.len() - 1) as int;
                        assert(groups@[k].0 == d);
                    } else {
                        let k = choose|k: int| 0 <= k < old_groups.len() && old_groups[k].0 == ds@[t];
                        assert(groups@[k] == old_groups[k]);
                    }
                }
            }
            d = d + 1;
        }
        let ghost gv = groups@.map_values(|g: (usize, Vec<usize>)| (g.0, g.1@));
        assert forall|x: usize| #[trigger] nodes@.contains(x) implies exists|k: int|
            0 <= k < gv.len() && gv[k].0 == depth_of(m, x) by {
            let t = choose|t: int| 0 <= t < nodes@.len() && nodes@[t] == x;
            let k = choose|k: int| 0 <= k < groups@.len() && groups@[k].0 == ds@[t];
            assert(gv[k].0 == groups@[k].0);
        }
        assert forall|k: int| 0 <= k < gv.len() implies {
            &&& (#[trigger] gv[k]).1 == nodes@.filter(|x: usize| depth_of(m, x) == gv[k].0)
            &&& gv[k].1.len() > 0
        } by {
            assert(gv[k] == (groups@[k].0, groups@[k].1@));
        }
        assert forall|k1: int, k2: int| 0 <= k1 < k2 < gv.len() implies #[trigger] gv[k1].0 < #[trigger] gv[k2].0 by {
            assert(gv[k1].0 == groups@[k1].0);
            assert(gv[k2].0 == groups@[k2].0);
        }
        groups
    }

    /// The live nodes marked for deletion, in the order of their arena slots.
    pub fn deleted_nodes(&self) -> (r: Vec<usize>)
        requires
            self.wf(),
        ensures
            r@ == slot_ids(self.slots()).filter(|x: usize| marked_deleted(self.tree(), x)),
            forall|x: usize| marked_deleted(self.tree(), x) ==> r@.contains(x),
    {
        let ghost m = self.tree();
        let ghost pred = |x: usize| marked_deleted(m, x);
        let n = self.slot_count();
        let ghost ids = slot_ids(n as nat);
        let mut r: Vec<usize> = Vec::new();
        let mut i: usize = 0;
        assert(ids.take(0) =~= Seq::<usize>::empty());
        assert(ids.take(0).filter(pred) =~= Seq::<usize>::empty()) by {
            reveal(Seq::filter);
        }
        while i < n
            invariant
                self.wf(),
                m == self.tree(),
                n == self.slots(),
                ids == slot_ids(n as nat),
                0 <= i <= n,
                r@ == ids.take(i as int).filter(pred),
                pred == (|x: usize| marked_deleted(m, x)),
            decreases n - i,
        {
            let x = i + 1;
            proof {
                assert(ids.take(i + 1) =~= ids.take(i as int).push(x));
                ids.take(i as int).lemma_filter_push(x, pred);
            }
            let deleted = match self.node(x) {
                Some(d) => d.is_deleted,
                None => false,
            };
            if deleted {
                r.push(x);
            }
            i = i + 1;
        }
        assert(ids.take(n as int) =~= ids);
        proof {
            assert forall|x: usize| marked_deleted(m, x) implies r@.contains(x) by {
                assert(1 <= x <= n);
                assert(ids[x - 1] == x);
                ids.lemma_filter_contains(pred, x - 1);
            }
        }
        r
    }

    /// The nodes of the subtree of `root` that are not marked for deletion,
    /// in tree order; empty when `root` is not live.
    pub fn kept_in_subtree(&self, root: usize) -> (r: Vec<usize>)
        requires
            self.wf(),
        ensures
            r@ == (if self.tree().dom().contains(root) {
                descendants(self.tree(), root).filter(|x: usize| kept(self.tree(), x))
            } else {
                Seq::empty()
            }),
    {
        let ghost m = self.tree();
        let ghost pred = |x: usize| kept(m, x);
        let desc = self.descendants(root);
        let mut r: Vec<usize> = Vec::new();
        let mut k: usize = 0;
        assert(desc@.take(0).filter(pred) =~= Seq::<usize>::empty()) by {
            reveal(Seq::filter);
        }
        assert(desc@.take(0) =~= Seq::<usize>::empty());
        while k < desc.len()
            invariant
                self.wf(),
                m == self.tree(),
                0 <= k <= desc.len(),
                r@ == desc@.take(k as int).filter(pred),
                pred == (|x: usize| kept(m, x)),
            decreases desc.len() - k,
        {
            let x = desc[k];
            proof {
                assert(desc@.take(k + 1) =~= desc@.take(k as int).push(x));
                desc@.take(k as int).lemma_filter_push(x, pred);
            }
            let keep = match self.node(x) {
                Some(n) => !n.is_deleted,
                None => false,
            };
            if keep {
                r.push(x);
            }
            k = k + 1;
        }
        assert(desc@.take(desc.len() as int) =~= desc@);
        proof {
            if !self.tree().dom().contains(root) {
                assert(desc@ =~= Seq::<usize>::empty());
                assert(r@ =~= Seq::<usize>::empty()) by {
                    reveal(Seq::filter);
                }
            }
        }
        r
    }
}

} // verus!
