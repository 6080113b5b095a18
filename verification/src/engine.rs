//! The engine state: the scene tree and its root, the layers registered on
//! it, the scheduled changes and animations, the callback and pointer
//! handler registries, the hover state and the traversal caches. Each
//! method is one decision of the engine; the work between them that needs
//! floating point, layout, drawing or the callback closures is done by the
//! caller.
use vstd::prelude::*;
use std::collections::HashMap;
use crate::arena::{Tree, ancestors, appended, prepended, detached, is_ancestor_or_self, subtree_removed, descendants};
use crate::scene::{Scene, with_flags, with_data, hit_test_list, post_order, is_depth_grouping, marked_deleted, kept, slot_ids};
use crate::node::{SceneNode, next_frame};
use crate::flags::{RenderableFlags, NEEDS_LAYOUT_BIT, NEEDS_PAINT_BIT};
use crate::transactions::{Transactions, TransactionRecord, entries_map, seq_insert, seq_swap_remove, schedule_all};
use crate::animations::{Animations, AnimationFlags, AnimationTick, apply_ticks, started_in, finished_in};
use crate::callbacks::{
    Callbacks, CallbacksView, CallbackRecord, TransactionEventType, Invocation, transaction_callbacks,
    callback_calls, fired_once, empty_view, pushed_view, persistent_view, dropped_view,
};
use crate::pointer::{PointerCallback, PointerEventType, HoverChange, hover_change, hover_change_spec, handlers_of, without};
use crate::storage::{FlatStorage, next_index};
use crate::values::NoopChange;

verus! {

broadcast use vstd::std_specs::hash::group_hash_axioms;

/// Errors of layer operations.
#[derive(Clone, Copy, Debug, PartialEq, Eq, Structural)]
pub enum LayerError {
    /// The layer handle, or the parent it is attached to, no longer names a
    /// node of the scene.
    StaleNode,
}

/// A command of the debug server on a node.
#[derive(Clone, Copy, Debug, PartialEq, Eq, Structural)]
pub enum DebugCommand {
    Highlight,
    Unhighlight,
    Unknown,
}

/// The name of the command that highlights a node.
pub open spec fn highlight_name() -> Seq<u8> {
    seq![104u8, 105u8, 103u8, 104u8, 108u8, 105u8, 103u8, 104u8, 116u8]
}

/// The name of the command that unhighlights a node.
pub open spec fn unhighlight_name() -> Seq<u8> {
    seq![117u8, 110u8] + highlight_name()
}

/// The command a name stands for.
pub open spec fn debug_command_of(name: Seq<u8>) -> DebugCommand {
    if name == highlight_name() {
        DebugCommand::Highlight
    } else if name == unhighlight_name() {
        DebugCommand::Unhighlight
    } else {
        DebugCommand::Unknown
    }
}

/// Whether `name` from `offset` on is `expected`.
fn bytes_from(name: &[u8], offset: usize, expected: &[u8]) -> (r: bool)
    requires
        offset <= name@.len(),
    ensures
        r == (name@.subrange(offset as int, name@.len() as int) == expected@),
{
    if name.len() - offset != expected.len() {
        assert(name@.subrange(offset as int, name@.len() as int).len() != expected@.len());
        return false;
    }
    let mut i: usize = 0;
    while i < expected.len()
        invariant
            offset <= name@.len(),
            name@.len() == name.len(),
            name@.len() - offset == expected@.len(),
            0 <= i <= expected@.len(),
            forall|j: int| 0 <= j < i ==> name@[offset + j] == expected@[j],
        decreases expected@.len() - i,
    {
        if name[offset + i] != expected[i] {
            assert(name@.subrange(offset as int, name@.len() as int)[i as int] != expected@[i as int]);
            return false;
        }
        i = i + 1;
    }
    assert(name@.subrange(offset as int, name@.len() as int) =~= expected@);
    true
}

/// The command of the debug server a name stands for: `highlight`,
/// `unhighlight`, or an unknown one.
pub fn parse_debug_command(name: &[u8]) -> (r: DebugCommand)
    ensures
        r == debug_command_of(name@),
{
    let highlight: [u8; 9] = [104u8, 105u8, 103u8, 104u8, 108u8, 105u8, 103u8, 104u8, 116u8];
    assert(highlight@ =~= highlight_name());
    if bytes_from(name, 0, &highlight) {
        assert(name@.subrange(0, name@.len() as int) =~= name@);
        return DebugCommand::Highlight;
    }
    assert(name@.subrange(0, name@.len() as int) =~= name@);
    if name.len() >= 2 && name[0] == 117u8 && name[1] == 110u8 && bytes_from(name, 2, &highlight) {
        assert(name@ =~= seq![117u8, 110u8] + name@.subrange(2, name@.len() as int));
        return DebugCommand::Unhighlight;
    }
    proof {
        if name@ == unhighlight_name() {
            assert(name@.subrange(2, name@.len() as int) =~= highlight_name());
        }
    }
    DebugCommand::Unknown
}

/// The engine state.
pub struct Engine {
    id: usize,
    scene: Scene,
    scene_root: Option<usize>,
    layers: HashMap<usize, usize>,
    layer_keys: HashMap<usize, String>,
    transactions: Transactions,
    animations: Animations,
    transaction_handlers: FlatStorage<Callbacks>,
    value_handlers: FlatStorage<Callbacks>,
    animation_handlers: FlatStorage<Callbacks>,
    pointer_handlers: FlatStorage<PointerCallback>,
    next_callback_id: usize,
    next_pointer_handler_id: usize,
    current_hover_node: Option<usize>,
    hit_test_node_list: Vec<usize>,
    hit_test_node_list_dirty: bool,
    cached_nodes_post_order: Vec<usize>,
    cached_depth_groups: Vec<(usize, Vec<usize>)>,
    traversal_cache_dirty: bool,
}

impl Engine {
    /// The id of the engine.
    pub closed spec fn engine_id(&self) -> usize {
        self.id
    }

    /// The id of the engine.
    pub fn id(&self) -> (r: usize)
        ensures
            r == self.engine_id(),
    {
        self.id
    }

    /// The scene tree.
    pub closed spec fn tree(&self) -> Tree {
        self.scene.tree()
    }

    /// The number of slots of the scene's arena, removed nodes included.
    pub closed spec fn slots(&self) -> nat {
        self.scene.slots()
    }

    /// The root of the scene, if set.
    pub closed spec fn root(&self) -> Option<usize> {
        self.scene_root
    }

    /// The layers registered on the engine: node id to layout node key.
    pub closed spec fn layers(&self) -> Map<usize, usize> {
        self.layers@
    }

    /// The scheduled changes.
    pub closed spec fn txs(&self) -> Transactions {
        self.transactions
    }

    /// The animations.
    pub closed spec fn anims(&self) -> Animations {
        self.animations
    }

    /// Callbacks by transaction id.
    pub closed spec fn transaction_handlers(&self) -> Map<usize, CallbacksView> {
        self.transaction_handlers.view().map_values(|c: Callbacks| c.view())
    }

    /// Callbacks by value id.
    pub closed spec fn value_handlers(&self) -> Map<usize, CallbacksView> {
        self.value_handlers.view().map_values(|c: Callbacks| c.view())
    }

    /// Callbacks by animation id.
    pub closed spec fn animation_handlers(&self) -> Map<usize, CallbacksView> {
        self.animation_handlers.view().map_values(|c: Callbacks| c.view())
    }

    /// Pointer handlers by node id.
    pub closed spec fn pointer_handlers(&self) -> Map<usize, PointerCallback> {
        self.pointer_handlers.view()
    }

    /// The id the next registered callback gets.
    pub closed spec fn next_callback_id(&self) -> usize {
        self.next_callback_id
    }

    /// The id the next registered pointer handler gets.
    pub closed spec fn next_pointer_handler_id(&self) -> usize {
        self.next_pointer_handler_id
    }

    /// The node under the pointer.
    pub closed spec fn hover(&self) -> Option<usize> {
        self.current_hover_node
    }

    /// The cached list of nodes eligible for hit testing.
    pub closed spec fn hit_list(&self) -> Seq<usize> {
        self.hit_test_node_list@
    }

    /// Whether the hit test list must be rebuilt.
    pub closed spec fn hit_dirty(&self) -> bool {
        self.hit_test_node_list_dirty
    }

    /// The cached post-order of the scene.
    pub closed spec fn post_order_cache(&self) -> Seq<usize> {
        self.cached_nodes_post_order@
    }

    /// The cached depth groups of the scene.
    pub closed spec fn depth_groups_cache(&self) -> Seq<(usize, Seq<usize>)> {
        self.cached_depth_groups@.map_values(|g: (usize, Vec<usize>)| (g.0, g.1@))
    }

    /// Whether the traversal caches must be rebuilt.
    pub closed spec fn traversal_dirty(&self) -> bool {
        self.traversal_cache_dirty
    }

    /// The engine state is consistent: the tree is a well-formed forest and
    /// no transaction id occurs twice.
    pub open spec fn wf(&self) -> bool {
        &&& crate::arena::tree_wf(self.tree())
        &&& self.txs().wf()
    }

    /// The key of a layer: the one last set for it, empty until then.
    pub closed spec fn key_of(&self, layer: usize) -> Seq<char> {
        if self.layer_keys@.contains_key(layer) {
            self.layer_keys@[layer]@
        } else {
            Seq::empty()
        }
    }

    /// The scheduling state (changes, animations, callbacks, pointer
    /// handlers and their counters) is the same in both engines.
    pub open spec fn same_schedule(&self, other: &Engine) -> bool {
        &&& self.txs() == other.txs()
        &&& self.anims() == other.anims()
        &&& self.transaction_handlers() == other.transaction_handlers()
        &&& self.value_handlers() == other.value_handlers()
        &&& self.animation_handlers() == other.animation_handlers()
        &&& self.next_callback_id() == other.next_callback_id()
        &&& self.next_pointer_handler_id() == other.next_pointer_handler_id()
    }

    /// A new engine with an empty scene and nothing scheduled; both caches
    /// start out to be built.
    pub fn new(id: usize) -> (r: Engine)
        ensures
            r.wf(),
            r.engine_id() == id,
            r.tree() =~= Map::empty(),
            r.root() is None,
            r.layers() =~= Map::empty(),
            forall|n: usize| r.key_of(n) == Seq::<char>::empty(),
            r.hover() is None,
            r.hit_dirty(),
            r.traversal_dirty(),
            r.slots() == 0,
            r.txs().entries() == Seq::<(usize, TransactionRecord)>::empty(),
            r.txs().values() == Map::<usize, usize>::empty(),
            r.txs().next_id() == 0,
            r.anims().view() == Map::<usize, AnimationFlags>::empty(),
            r.anims().storage.next_id() == 0,
            r.transaction_handlers() == Map::<usize, CallbacksView>::empty(),
            r.value_handlers() == Map::<usize, CallbacksView>::empty(),
            r.animation_handlers() == Map::<usize, CallbacksView>::empty(),
            r.pointer_handlers() == Map::<usize, PointerCallback>::empty(),
            r.next_callback_id() == 0,
            r.next_pointer_handler_id() == 0,
            r.hit_list() == Seq::<usize>::empty(),
            r.post_order_cache() == Seq::<usize>::empty(),
            r.depth_groups_cache() == Seq::<(usize, Seq<usize>)>::empty(),
    {
        Engine {
            id,
            scene: Scene::new(),
            scene_root: None,
            layers: HashMap::new(),
            layer_keys: HashMap::new(),
            transactions: Transactions::new(),
            animations: Animations::new(),
            transaction_handlers: FlatStorage::new(),
            value_handlers: FlatStorage::new(),
            animation_handlers: FlatStorage::new(),
            pointer_handlers: FlatStorage::new(),
            next_callback_id: 0,
            next_pointer_handler_id: 0,
            current_hover_node: None,
            hit_test_node_list: Vec::new(),
            hit_test_node_list_dirty: true,
            cached_nodes_post_order: Vec::new(),
            cached_depth_groups: Vec::new(),
            traversal_cache_dirty: true,
        }
    }

    /// The root of the scene.
    pub fn scene_root(&self) -> (r: Option<usize>)
        ensures
            r == self.root(),
    {
        self.scene_root
    }

    /// A copy of a live node's data.
    pub fn scene_get_node(&self, node: usize) -> (r: Option<SceneNode>)
        requires
            self.wf(),
        ensures
            r == (if self.tree().dom().contains(node) {
                Some(self.tree()[node].data)
            } else {
                None
            }),
    {
        self.scene.node(node)
    }

    /// The parent of a live node.
    pub fn scene_get_node_parent(&self, node: usize) -> (r: Option<usize>)
        requires
            self.wf(),
        ensures
            r == (if self.tree().dom().contains(node) {
                self.tree()[node].parent
            } else {
                None
            }),
    {
        self.scene.parent(node)
    }

    /// The children of a live node, in order.
    pub fn node_children(&self, node: usize) -> (r: Vec<usize>)
        requires
            self.wf(),
        ensures
            r@ == (if self.tree().dom().contains(node) {
                self.tree()[node].children
            } else {
                Seq::empty()
            }),
    {
        self.scene.children(node)
    }

    /// A live node and its descendants, in tree order.
    pub fn node_descendants(&self, node: usize) -> (r: Vec<usize>)
        requires
            self.wf(),
        ensures
            r@ == (if self.tree().dom().contains(node) {
                descendants(self.tree(), node)
            } else {
                Seq::empty()
            }),
    {
        self.scene.descendants(node)
    }

    /// The layout node key of a registered layer.
    pub fn get_layer(&self, node: usize) -> (r: Option<usize>)
        ensures
            r == (if self.layers().contains_key(node) {
                Some(self.layers()[node])
            } else {
                None
            }),
    {
        match self.layers.get(&node) {
            Some(l) => Some(*l),
            None => None,
        }
    }

    /// Whether the layer's scene node still exists.
    pub fn is_layer_alive(&self, node: usize) -> (r: bool)
        requires
            self.wf(),
        ensures
            r == self.tree().dom().contains(node),
    {
        self.scene.is_alive(node)
    }

    /// Sets the key of a layer.
    pub fn set_layer_key(&mut self, layer: usize, key: &str)
        requires
            old(self).wf(),
        ensures
            final(self).wf(),
            final(self).key_of(layer) == key@,
            forall|n: usize| n != layer ==> final(self).key_of(n) == old(self).key_of(n),
            final(self).tree() == old(self).tree(),
            final(self).layers() == old(self).layers(),
            final(self).root() == old(self).root(),
            final(self).same_schedule(old(self)),
            final(self).pointer_handlers() == old(self).pointer_handlers(),
            final(self).hover() == old(self).hover(),
    {
        self.layer_keys.insert(layer, key.to_owned());
    }

    /// The key of a layer, empty until one is set.
    pub fn layer_key(&self, layer: usize) -> (r: String)
        ensures
            r@ == self.key_of(layer),
    {
        match self.layer_keys.get(&layer) {
            Some(k) => k.clone(),
            None => String::new(),
        }
    }

    /// A registered layer whose key is `key`, or `None` when no registered
    /// layer has that key. Which one is found when several have it is left
    /// open, as the layers are kept in a hash map.
    pub fn find_layer_by_key(&self, key: &str) -> (r: Option<usize>)
        ensures
            r matches Some(n) ==> self.layers().contains_key(n) && self.key_of(n) == key@,
            r is None ==> forall|n: usize| #[trigger] self.layers().contains_key(n) ==> self.key_of(n) != key@,
    {
        let wanted = key.to_owned();
        let ghost dom = self.layers@.dom();
        for n in it: self.layers.keys()
            invariant
                it.seq().unref().to_set() == dom,
                dom == self.layers@.dom(),
                wanted@ == key@,
                forall|j: int| 0 <= j < it.index() ==> self.key_of(*it.seq()[j]) != key@,
        {
            if self.layer_key(*n) == wanted {
                return Some(*n);
            }
        }
        None
    }

    /// Creates a node for a new layer, not attached to any parent, and
    /// registers the layer with its layout node key. `None` when the arena
    /// has no index left. A node is named by its arena slot: the slot of a
    /// removed node may be given to a new one, and a handle kept from the
    /// removed node then names the new node.
    pub fn new_layer(&mut self, layout_id: usize) -> (r: Option<usize>)
        requires
            old(self).wf(),
        ensures
            final(self).wf(),
            final(self).same_schedule(old(self)),
            final(self).root() == old(self).root(),
            final(self).hover() == old(self).hover(),
            r is None <==> old(self).slots() == usize::MAX,
            r is None ==> final(self).tree() == old(self).tree() && final(self).layers() == old(self).layers(),
            r matches Some(id) ==> {
                &&& !old(self).tree().dom().contains(id)
                &&& final(self).tree() == old(self).tree().insert(
                    id,
                    crate::arena::NodeEntry { parent: None, children: seq![], data: SceneNode::new_spec() },
                )
                &&& final(self).layers() == old(self).layers().insert(id, layout_id)
                &&& final(self).key_of(id) == Seq::<char>::empty()
                &&& forall|n: usize| n != id ==> final(self).key_of(n) == old(self).key_of(n)
            },
    {
        let node = SceneNode::new();
        match self.scene.insert_node(node, None) {
            Some(id) => {
                self.layers.insert(id, layout_id);
                self.layer_keys.remove(&id);
                Some(id)
            },
            None => None,
        }
    }

    /// Marks the hit test list to be rebuilt.
    pub fn invalidate_hit_test_node_list(&mut self)
        ensures
            final(self).hit_dirty(),
            final(self).traversal_dirty() == old(self).traversal_dirty(),
            final(self).tree() == old(self).tree(),
            final(self).root() == old(self).root(),
            final(self).layers() == old(self).layers(),
            final(self).pointer_handlers() == old(self).pointer_handlers(),
            final(self).hover() == old(self).hover(),
            final(self).hit_list() == old(self).hit_list(),
            final(self).post_order_cache() == old(self).post_order_cache(),
            final(self).depth_groups_cache() == old(self).depth_groups_cache(),
            final(self).same_schedule(old(self)),
            final(self).wf() == old(self).wf(),
    {
        self.hit_test_node_list_dirty = true;
    }

    /// Marks the traversal caches to be rebuilt.
    pub fn invalidate_traversal_cache(&mut self)
        ensures
            final(self).traversal_dirty(),
            final(self).hit_dirty() == old(self).hit_dirty(),
            final(self).tree() == old(self).tree(),
            final(self).root() == old(self).root(),
            final(self).layers() == old(self).layers(),
            final(self).pointer_handlers() == old(self).pointer_handlers(),
            final(self).hover() == old(self).hover(),
            final(self).hit_list() == old(self).hit_list(),
            final(self).post_order_cache() == old(self).post_order_cache(),
            final(self).depth_groups_cache() == old(self).depth_groups_cache(),
            final(self).same_schedule(old(self)),
            final(self).wf() == old(self).wf(),
    {
        self.traversal_cache_dirty = true;
    }
}


/// The node a layer is attached to: the given parent, or else the root.
pub open spec fn append_target(root: Option<usize>, parent: Option<usize>) -> Option<usize> {
    if parent is Some {
        parent
    } else {
        root
    }
}

/// The tree after a node is marked for deletion: it is hidden at once and
/// marked to be removed.
pub open spec fn marked_for_deletion(t: Tree, node: usize) -> Tree {
    if t.dom().contains(node) {
        with_data(t, node, SceneNode { is_deleted: true, hidden: true, ..t[node].data })
    } else {
        t
    }
}

/// The pointer handlers after those of the subtree of `node` are dropped.
pub open spec fn handlers_without_subtree(
    ph: Map<usize, PointerCallback>,
    t: Tree,
    node: usize,
) -> Map<usize, PointerCallback> {
    if t.dom().contains(node) {
        ph.remove_keys(descendants(t, node).to_set().insert(node))
    } else {
        ph
    }
}

/// The tree after `scene_remove_layer`: when the node has a parent, the
/// parent is marked for layout and the node's subtree is removed; a node
/// without parent stays.
pub open spec fn tree_after_removal(t: Tree, node: usize) -> Tree {
    if t.dom().contains(node) {
        match t[node].parent {
            Some(p) => subtree_removed(with_flags(t, p, NEEDS_LAYOUT_BIT), node),
            None => t,
        }
    } else {
        t
    }
}

/// The parent whose layout is to be recomputed when `node` is removed from
/// `t`: its parent, unless that is itself marked for deletion.
pub open spec fn relayout_parent(t: Tree, node: usize) -> Option<usize> {
    if t.dom().contains(node) {
        match t[node].parent {
            Some(p) => if !t[p].data.is_deleted {
                Some(p)
            } else {
                None
            },
            None => None,
        }
    } else {
        None
    }
}

/// The tree, layers and pointer handlers after removing each of `ids` in order.
pub open spec fn after_removals(
    t: Tree,
    layers: Map<usize, usize>,
    ph: Map<usize, PointerCallback>,
    ids: Seq<usize>,
) -> (Tree, Map<usize, usize>, Map<usize, PointerCallback>)
    decreases ids.len(),
{
    if ids.len() == 0 {
        (t, layers, ph)
    } else {
        let (t0, l0, p0) = after_removals(t, layers, ph, ids.drop_last());
        let x = ids.last();
        (tree_after_removal(t0, x), l0.remove(x), handlers_without_subtree(p0, t0, x))
    }
}

impl Engine {
    /// Whether attaching `layer` to `parent` (or to the root) would put a
    /// node under itself.
    pub open spec fn would_cycle(&self, layer: usize, parent: Option<usize>) -> bool {
        match append_target(self.root(), parent) {
            Some(np) => self.tree().dom().contains(np) && self.tree().dom().contains(layer)
                && is_ancestor_or_self(self.tree(), layer, np),
            None => false,
        }
    }

    /// Whether attaching `layer` to `parent` (or to the root) would put a
    /// node under itself, which the arena refuses.
    pub fn creates_cycle(&self, layer: usize, parent: Option<usize>) -> (r: bool)
        requires
            self.wf(),
        ensures
            r == self.would_cycle(layer, parent),
    {
        let target = match parent {
            Some(p) => Some(p),
            None => self.scene_root,
        };
        match target {
            Some(np) => {
                if self.scene.is_alive(np) && self.scene.is_alive(layer) {
                    self.scene.is_ancestor_or_self(layer, np)
                } else {
                    false
                }
            },
            None => false,
        }
    }

    /// Makes `layer` the root of the scene, detaching it from its parent.
    pub fn scene_set_root(&mut self, layer: usize) -> (r: usize)
        requires
            old(self).wf(),
        ensures
            r == layer,
            final(self).wf(),
            final(self).root() == Some(layer),
            final(self).tree() == detached(old(self).tree(), layer),
            final(self).layers() == old(self).layers(),
            final(self).same_schedule(old(self)),
            final(self).pointer_handlers() == old(self).pointer_handlers(),
            final(self).hover() == old(self).hover(),
    {
        self.scene.detach_node(layer);
        self.scene_root = Some(layer);
        layer
    }

    /// Appends the layer's node to `parent`, or to the root when no parent
    /// is given; with neither, the layer becomes the root. Fails with
    /// `StaleNode` when the layer is not registered, its node is gone, or the
    /// node it would be attached to is gone.
    pub fn append_layer(&mut self, layer: usize, parent: Option<usize>) -> (r: Result<(), LayerError>)
        requires
            old(self).wf(),
            !old(self).would_cycle(layer, parent),
        ensures
            final(self).wf(),
            final(self).layers() == old(self).layers(),
            final(self).same_schedule(old(self)),
            final(self).pointer_handlers() == old(self).pointer_handlers(),
            final(self).hover() == old(self).hover(),
            r is Err <==> (!old(self).layers().contains_key(layer) || !old(self).tree().dom().contains(layer)
                || (append_target(old(self).root(), parent) matches Some(np) && !old(self).tree().dom().contains(np))),
            r is Err ==> final(self).tree() == old(self).tree() && final(self).root() == old(self).root(),
            r is Ok ==> final(self).hit_dirty() && final(self).traversal_dirty(),
            r is Ok ==> match append_target(old(self).root(), parent) {
                Some(np) => final(self).tree() == with_flags(
                    with_flags(appended(old(self).tree(), np, layer), layer, NEEDS_PAINT_BIT),
                    np,
                    NEEDS_LAYOUT_BIT,
                ) && final(self).root() == old(self).root(),
                None => final(self).tree() == detached(old(self).tree(), layer) && final(self).root() == Some(layer),
            },
    {
        if self.get_layer(layer).is_none() {
            return Err(LayerError::StaleNode);
        }
        if !self.scene.is_alive(layer) {
            return Err(LayerError::StaleNode);
        }
        let target = match parent {
            Some(p) => Some(p),
            None => self.scene_root,
        };
        match target {
            Some(np) => {
                if !self.scene.is_alive(np) {
                    return Err(LayerError::StaleNode);
                }
                self.scene.append_node_to(layer, np);
            },
            None => {
                self.scene_set_root(layer);
            },
        }
        self.invalidate_hit_test_node_list();
        self.invalidate_traversal_cache();
        Ok(())
    }

    /// Appends the layer to the root of the scene.
    pub fn add_layer(&mut self, layer: usize) -> (r: Result<(), LayerError>)
        requires
            old(self).wf(),
            !old(self).would_cycle(layer, None),
        ensures
            final(self).wf(),
            final(self).layers() == old(self).layers(),
            final(self).same_schedule(old(self)),
            final(self).pointer_handlers() == old(self).pointer_handlers(),
            final(self).hover() == old(self).hover(),
            r is Err <==> (!old(self).layers().contains_key(layer) || !old(self).tree().dom().contains(layer)
                || (old(self).root() matches Some(np) && !old(self).tree().dom().contains(np))),
            r is Err ==> final(self).tree() == old(self).tree() && final(self).root() == old(self).root(),
            r is Ok ==> final(self).hit_dirty() && final(self).traversal_dirty(),
            r is Ok ==> match old(self).root() {
                Some(np) => final(self).tree() == with_flags(
                    with_flags(appended(old(self).tree(), np, layer), layer, NEEDS_PAINT_BIT),
                    np,
                    NEEDS_LAYOUT_BIT,
                ) && final(self).root() == old(self).root(),
                None => final(self).tree() == detached(old(self).tree(), layer) && final(self).root() == Some(layer),
            },
    {
        self.append_layer(layer, None)
    }

    /// Prepends the layer's node to `parent`, or to the root when no parent
    /// is given; with neither, the layer becomes the root. Fails with
    /// `StaleNode` when the layer's node is gone or the node it would be
    /// attached to is gone.
    pub fn prepend_layer(&mut self, layer: usize, parent: Option<usize>) -> (r: Result<(), LayerError>)
        requires
            old(self).wf(),
            !old(self).would_cycle(layer, parent),
        ensures
            final(self).wf(),
            final(self).layers() == old(self).layers(),
            final(self).same_schedule(old(self)),
            final(self).pointer_handlers() == old(self).pointer_handlers(),
            final(self).hover() == old(self).hover(),
            r is Err <==> (!old(self).tree().dom().contains(layer)
                || (append_target(old(self).root(), parent) matches Some(np) && !old(self).tree().dom().contains(np))),
            r is Err ==> final(self).tree() == old(self).tree() && final(self).root() == old(self).root(),
            r is Ok ==> final(self).hit_dirty() && final(self).traversal_dirty(),
            r is Ok ==> match append_target(old(self).root(), parent) {
                Some(np) => final(self).tree() == with_flags(
                    with_flags(prepended(old(self).tree(), np, layer), layer, NEEDS_PAINT_BIT),
                    np,
                    NEEDS_LAYOUT_BIT,
                ) && final(self).root() == old(self).root(),
                None => final(self).tree() == detached(old(self).tree(), layer) && final(self).root() == Some(layer),
            },
    {
        if !self.scene.is_alive(layer) {
            return Err(LayerError::StaleNode);
        }
        let target = match parent {
            Some(p) => Some(p),
            None => self.scene_root,
        };
        match target {
            Some(np) => {
                if !self.scene.is_alive(np) {
                    return Err(LayerError::StaleNode);
                }
                self.scene.prepend_node_to(layer, np);
            },
            None => {
                self.scene_set_root(layer);
            },
        }
        self.invalidate_hit_test_node_list();
        self.invalidate_traversal_cache();
        Ok(())
    }

    /// Drops the pointer handlers of a live node and of its descendants.
    fn cleanup_pointer_handlers_for_subtree(&mut self, layer: usize)
        requires
            old(self).wf(),
        ensures
            final(self).wf(),
            final(self).tree() == old(self).tree(),
            final(self).root() == old(self).root(),
            final(self).layers() == old(self).layers(),
            final(self).same_schedule(old(self)),
            final(self).hover() == old(self).hover(),
            final(self).hit_dirty() == old(self).hit_dirty(),
            final(self).traversal_dirty() == old(self).traversal_dirty(),
            final(self).pointer_handlers() == handlers_without_subtree(
                old(self).pointer_handlers(),
                old(self).tree(),
                layer,
            ),
    {
        if !self.scene.is_alive(layer) {
            return;
        }
        let desc = self.scene.descendants(layer);
        self.pointer_handlers.remove_at(layer);
        let mut k: usize = 0;
        while k < desc.len()
            invariant
                self.wf(),
                self.tree() == old(self).tree(),
                self.root() == old(self).root(),
                self.layers() == old(self).layers(),
                self.same_schedule(old(self)),
                self.hover() == old(self).hover(),
                self.hit_dirty() == old(self).hit_dirty(),
                self.traversal_dirty() == old(self).traversal_dirty(),
                0 <= k <= desc.len(),
                self.pointer_handlers() == old(self).pointer_handlers().remove_keys(
                    desc@.take(k as int).to_set().insert(layer),
                ),
            decreases desc.len() - k,
        {
            self.pointer_handlers.remove_at(desc[k]);
            proof {
                assert(desc@.take(k + 1) =~= desc@.take(k as int).push(desc@[k as int]));
                desc@.take(k as int).lemma_push_to_set_commute(desc@[k as int]);
                assert(self.pointer_handlers() =~= old(self).pointer_handlers().remove_keys(
                    desc@.take(k + 1).to_set().insert(layer),
                ));
            }
            k = k + 1;
        }
        assert(desc@.take(desc.len() as int) =~= desc@);
    }

    /// Removes a layer from the scene at the next cleanup. The layer is hidden
    /// at once, so the hit test list is marked to be rebuilt; its pointer
    /// handlers and those of its descendants are dropped at once.
    pub fn mark_for_delete(&mut self, layer: usize)
        requires
            old(self).wf(),
        ensures
            final(self).wf(),
            final(self).tree() == marked_for_deletion(old(self).tree(), layer),
            final(self).root() == old(self).root(),
            final(self).layers() == old(self).layers(),
            final(self).same_schedule(old(self)),
            final(self).hover() == old(self).hover(),
            final(self).traversal_dirty(),
            final(self).hit_dirty(),
            final(self).pointer_handlers() == handlers_without_subtree(
                old(self).pointer_handlers(),
                old(self).tree(),
                layer,
            ),
    {
        self.cleanup_pointer_handlers_for_subtree(layer);
        match self.scene.node(layer) {
            Some(n) => {
                let mut n2 = n;
                n2.mark_for_deletion();
                n2.set_hidden(true);
                self.scene.set_node(layer, n2);
            },
            None => {},
        }
        self.invalidate_traversal_cache();
        self.invalidate_hit_test_node_list();
    }

    /// Removes a layer: its pointer handlers and those of its descendants
    /// are dropped, its node's subtree is removed from the scene when the node
    /// has a parent (the parent is then marked for layout), and the layer is
    /// unregistered. Returns the parent whose layout is to be recomputed: the
    /// node's parent, unless it is itself marked for deletion.
    pub fn scene_remove_layer(&mut self, layer: usize) -> (r: Option<usize>)
        requires
            old(self).wf(),
        ensures
            final(self).wf(),
            final(self).tree() == tree_after_removal(old(self).tree(), layer),
            final(self).root() == old(self).root(),
            final(self).layers() == old(self).layers().remove(layer),
            final(self).same_schedule(old(self)),
            final(self).hover() == old(self).hover(),
            final(self).hit_dirty(),
            final(self).traversal_dirty() == old(self).traversal_dirty(),
            final(self).pointer_handlers() == handlers_without_subtree(
                old(self).pointer_handlers(),
                old(self).tree(),
                layer,
            ),
            r == relayout_parent(old(self).tree(), layer),
    {
        self.cleanup_pointer_handlers_for_subtree(layer);
        let parent_id = self.scene.parent(layer);
        let mut relayout: Option<usize> = None;
        match parent_id {
            Some(pid) => {
                match self.scene.node(pid) {
                    Some(pn) => {
                        if !pn.is_deleted {
                            relayout = Some(pid);
                        }
                        self.scene.insert_flags(pid, RenderableFlags::needs_layout());
                        proof {
                            crate::scene::lemma_with_data_wf(old(self).tree(), pid, SceneNode {
                                rendering_flags: RenderableFlags {
                                    bits: old(self).tree()[pid].data.rendering_flags.bits | NEEDS_LAYOUT_BIT,
                                },
                                ..old(self).tree()[pid].data
                            });
                        }
                        self.scene.remove_node(layer);
                    },
                    None => {},
                }
            },
            None => {},
        }
        self.layers.remove(&layer);
        self.invalidate_hit_test_node_list();
        relayout
    }

    /// The live nodes marked for deletion, in the order of their arena
    /// slots: all of them, attached to the root or not.
    pub fn nodes_marked_for_deletion(&self) -> (r: Vec<usize>)
        requires
            self.wf(),
        ensures
            r@ == slot_ids(self.slots()).filter(|x: usize| marked_deleted(self.tree(), x)),
            forall|x: usize| marked_deleted(self.tree(), x) ==> r@.contains(x),
    {
        self.scene.deleted_nodes()
    }

    /// The nodes under the root that take part in layout: those not marked
    /// for deletion, in tree order.
    pub fn nodes_for_layout(&self) -> (r: Vec<usize>)
        requires
            self.wf(),
        ensures
            r@ == match self.root() {
                Some(root) => if self.tree().dom().contains(root) {
                    descendants(self.tree(), root).filter(|x: usize| kept(self.tree(), x))
                } else {
                    Seq::empty()
                },
                None => Seq::empty(),
            },
    {
        match self.scene_root {
            Some(root) => self.scene.kept_in_subtree(root),
            None => Vec::new(),
        }
    }

    /// Whether an update has to go on to layout, node updates and callbacks
    /// after the changes were executed: some node was updated, the tree
    /// changed shape, or an animation started or finished. Otherwise the
    /// update only cleans up the nodes marked for deletion.
    pub fn update_needed(&self, updated: &Vec<usize>, started: &Vec<usize>, finished: &Vec<usize>) -> (r: bool)
        ensures
            r == (updated@.len() > 0 || self.traversal_dirty() || started@.len() > 0 || finished@.len() > 0),
    {
        updated.len() > 0 || self.traversal_cache_dirty || started.len() > 0 || finished.len() > 0
    }

    /// Removes the layers whose nodes are marked for deletion, in the order
    /// of their arena slots, and returns each with the parent whose layout is
    /// to be recomputed for it. A node without parent stays in the scene; its
    /// layer is unregistered all the same.
    pub fn cleanup_nodes(&mut self) -> (r: Vec<(usize, Option<usize>)>)
        requires
            old(self).wf(),
        ensures
            final(self).wf(),
            ({
                let deleted = slot_ids(old(self).slots()).filter(|x: usize| marked_deleted(old(self).tree(), x));
                &&& r@.len() == deleted.len()
                &&& forall|j: int| 0 <= j < r@.len() ==> (#[trigger] r@[j]).0 == deleted[j] && r@[j].1 == relayout_parent(
                    after_removals(old(self).tree(), old(self).layers(), old(self).pointer_handlers(), deleted.take(j)).0,
                    deleted[j],
                )
                &&& (final(self).tree(), final(self).layers(), final(self).pointer_handlers()) == after_removals(
                    old(self).tree(),
                    old(self).layers(),
                    old(self).pointer_handlers(),
                    deleted,
                )
            }),
            final(self).root() == old(self).root(),
            final(self).same_schedule(old(self)),
            final(self).hover() == old(self).hover(),
            r@.len() > 0 ==> final(self).hit_dirty(),
            r@.len() == 0 ==> final(self).hit_dirty() == old(self).hit_dirty(),
            final(self).traversal_dirty() == old(self).traversal_dirty(),
    {
        let deleted = self.nodes_marked_for_deletion();
        let mut out: Vec<(usize, Option<usize>)> = Vec::new();
        let mut k: usize = 0;
        assert(deleted@.take(0) =~= Seq::<usize>::empty());
        while k < deleted.len()
            invariant
                self.wf(),
                0 <= k <= deleted.len(),
                out@.len() == k,
                forall|j: int| 0 <= j < k ==> (#[trigger] out@[j]).0 == deleted@[j] && out@[j].1 == relayout_parent(
                    after_removals(old(self).tree(), old(self).layers(), old(self).pointer_handlers(), deleted@.take(j)).0,
                    deleted@[j],
                ),
                (self.tree(), self.layers(), self.pointer_handlers()) == after_removals(
                    old(self).tree(),
                    old(self).layers(),
                    old(self).pointer_handlers(),
                    deleted@.take(k as int),
                ),
                self.root() == old(self).root(),
                self.same_schedule(old(self)),
                self.hover() == old(self).hover(),
                k > 0 ==> self.hit_dirty(),
                k == 0 ==> self.hit_dirty() == old(self).hit_dirty(),
                self.traversal_dirty() == old(self).traversal_dirty(),
            decreases deleted.len() - k,
        {
            proof {
                assert(deleted@.take(k + 1).drop_last() =~= deleted@.take(k as int));
            }
            let node = deleted[k];
            let relayout = self.scene_remove_layer(node);
            out.push((node, relayout));
            k = k + 1;
        }
        assert(deleted@.take(deleted.len() as int) =~= deleted@);
        out
    }
}


/// A handle on a scheduled change.
#[derive(Clone, Copy, Debug, PartialEq, Eq, Structural)]
pub struct TransactionRef {
    pub id: usize,
    pub value_id: usize,
    pub engine_id: usize,
}

/// A handle on an animation.
#[derive(Clone, Copy, Debug, PartialEq, Eq, Structural)]
pub struct AnimationRef {
    pub id: usize,
    pub engine_id: usize,
}

/// A no-op change is driven by no animation.
impl From<NoopChange> for Option<AnimationRef> {
    fn from(change: NoopChange) -> (r: Option<AnimationRef>) {
        None
    }
}

impl vstd::std_specs::convert::FromSpecImpl<NoopChange> for Option<AnimationRef> {
    open spec fn obeys_from_spec() -> bool {
        true
    }

    open spec fn from_spec(v: NoopChange) -> Option<AnimationRef> {
        None
    }
}

/// A scheduled change and the state of the animation that drives it.
#[derive(Clone, Copy, Debug, PartialEq, Eq, Structural)]
pub struct TransactionStep {
    pub id: usize,
    pub record: TransactionRecord,
    pub state: AnimationFlags,
    /// Whether the change is driven by an animation of the engine; otherwise
    /// it is applied at once, with full progress.
    pub animated: bool,
}

/// A callback to call, with the node and the change it belongs to.
#[derive(Clone, Copy, Debug, PartialEq, Eq, Structural)]
pub struct CallbackCall {
    pub node_id: usize,
    pub transaction_id: usize,
    pub value_id: usize,
    pub invocation: Invocation,
}

/// The animation that drives a change: the shared one when given, else the
/// change's own.
pub open spec fn driving_animation(own: Option<AnimationRef>, shared: Option<AnimationRef>) -> Option<usize> {
    match shared {
        Some(a) => Some(a.id),
        None => match own {
            Some(a) => Some(a.id),
            None => None,
        },
    }
}

/// The changes to schedule, each with the animation that drives it.
pub open spec fn scheduled_changes(
    changes: Seq<(usize, usize, Option<AnimationRef>)>,
    shared: Option<AnimationRef>,
) -> Seq<(usize, usize, Option<usize>)> {
    changes.map_values(|c: (usize, usize, Option<AnimationRef>)| (c.0, c.1, driving_animation(c.2, shared)))
}

/// Scheduling a batch of changes on a state whose ids in use are below the
/// counter, without the counter wrapping, leaves for each value the last
/// change of the batch for it pending, under the id the batch handed it, with
/// its node, its value and the animation that drives it (the shared one when
/// given, else its own); the value maps to that id.
pub proof fn law_schedule_changes(
    e: Seq<(usize, TransactionRecord)>,
    v: Map<usize, usize>,
    n: usize,
    changes: Seq<(usize, usize, Option<AnimationRef>)>,
    shared: Option<AnimationRef>,
    i: int,
)
    requires
        crate::transactions::keys_distinct(e),
        forall|k: usize| #[trigger] entries_map(e).contains_key(k) ==> k < n,
        forall|x: usize| #[trigger] v.contains_key(x) ==> v[x] < n,
        n + changes.len() <= usize::MAX,
        0 <= i < changes.len(),
        forall|j: int| i < j < changes.len() ==> (#[trigger] changes[j]).1 != changes[i].1,
    ensures
        ({
            let (e2, v2, n2) = schedule_all(e, v, n, scheduled_changes(changes, shared));
            &&& n2 == n + changes.len()
            &&& v2.contains_key(changes[i].1)
            &&& v2[changes[i].1] == n + i
            &&& entries_map(e2).contains_key((n + i) as usize)
            &&& entries_map(e2)[(n + i) as usize] == (TransactionRecord {
                node_id: changes[i].0,
                value_id: changes[i].1,
                animation_id: driving_animation(changes[i].2, shared),
            })
        }),
{
    let sc = scheduled_changes(changes, shared);
    crate::transactions::law_schedule_all(e, v, n, sc);
    assert(sc[i] == (changes[i].0, changes[i].1, driving_animation(changes[i].2, shared)));
    assert(crate::transactions::last_for_value(sc, i)) by {
        assert forall|j: int| i < j < sc.len() implies (#[trigger] sc[j]).1 != sc[i].1 by {
            assert(sc[j].1 == changes[j].1);
        }
    }
}

/// The state of a change with no animation, or whose animation is gone: done.
pub open spec fn done_state() -> AnimationFlags {
    AnimationFlags { is_started: false, is_running: false, is_finished: true }
}

/// The animation state that drives a change.
pub open spec fn step_state(anims: Map<usize, AnimationFlags>, rec: TransactionRecord) -> AnimationFlags {
    match rec.animation_id {
        Some(a) => if anims.contains_key(a) {
            anims[a]
        } else {
            done_state()
        },
        None => done_state(),
    }
}

/// Whether a change is driven by an animation of the engine.
pub open spec fn step_animated(anims: Map<usize, AnimationFlags>, rec: TransactionRecord) -> bool {
    rec.animation_id matches Some(a) && anims.contains_key(a)
}

/// The callbacks of a key, or none.
pub open spec fn callbacks_or_empty(m: Map<usize, CallbacksView>, k: usize) -> CallbacksView {
    if m.contains_key(k) {
        m[k]
    } else {
        empty_view()
    }
}

/// The tree after the flags of the first `k` changes were added to their live nodes.
pub open spec fn flags_applied(t: Tree, e: Seq<(usize, TransactionRecord)>, f: Seq<RenderableFlags>, k: nat) -> Tree
    decreases k,
{
    if k == 0 {
        t
    } else {
        let t0 = flags_applied(t, e, f, (k - 1) as nat);
        let n = e[k - 1].1.node_id;
        if t0.dom().contains(n) {
            with_flags(t0, n, f[k - 1].bits)
        } else {
            t0
        }
    }
}

/// Executing the pending changes marks each live node of a change with the
/// flags its command returned: afterwards the node holds those flags, and
/// every flag it held before. No node is added or removed.
pub proof fn law_changes_mark_nodes(t: Tree, e: Seq<(usize, TransactionRecord)>, f: Seq<RenderableFlags>, k: nat, i: int, x: usize)
    requires
        k <= e.len(),
        k <= f.len(),
    ensures
        flags_applied(t, e, f, k).dom() == t.dom(),
        t.dom().contains(x) ==> flags_applied(t, e, f, k)[x].data.rendering_flags.bits & t[x].data.rendering_flags.bits
            == t[x].data.rendering_flags.bits,
        0 <= i < k && t.dom().contains(e[i].1.node_id) ==> flags_applied(t, e, f, k)[e[i].1.node_id].data.rendering_flags.bits
            & f[i].bits == f[i].bits,
    decreases k,
{
    if k == 0 {
        if t.dom().contains(x) {
            let b = t[x].data.rendering_flags.bits;
            assert(b & b == b) by (bit_vector);
        }
    } else {
        let k0 = (k - 1) as nat;
        law_changes_mark_nodes(t, e, f, k0, i, x);
        let t0 = flags_applied(t, e, f, k0);
        let n = e[k - 1].1.node_id;
        if t0.dom().contains(n) {
            let t1 = with_flags(t0, n, f[k - 1].bits);
            assert(t1.dom() =~= t0.dom());
            if t.dom().contains(x) {
                crate::flags::law_insert_contains(
                    t0[x].data.rendering_flags.bits,
                    f[k - 1].bits,
                    t[x].data.rendering_flags.bits,
                );
            }
            if 0 <= i < k && t.dom().contains(e[i].1.node_id) {
                let y = e[i].1.node_id;
                if i < k - 1 {
                    crate::flags::law_insert_contains(t0[y].data.rendering_flags.bits, f[k - 1].bits, f[i].bits);
                } else {
                    crate::flags::law_insert_contains(t0[y].data.rendering_flags.bits, f[k - 1].bits, 0);
                }
            }
        }
    }
}

/// The ids of the changes that are done.
pub open spec fn finished_ids(anims: Map<usize, AnimationFlags>, e: Seq<(usize, TransactionRecord)>) -> Seq<usize>
    decreases e.len(),
{
    if e.len() == 0 {
        seq![]
    } else {
        finished_ids(anims, e.drop_last()) + if step_state(anims, e.last().1).is_finished {
            seq![e.last().0]
        } else {
            seq![]
        }
    }
}

/// Changes are applied the same way whether immediate or animated: a
/// pending change is done after an update exactly when it has no animation,
/// its animation is gone, or its animation is finished. So an immediate
/// change is done at its first update, and an animated one waits for its
/// animation. (Transaction ids are distinct.)
pub proof fn law_finished_changes(anims: Map<usize, AnimationFlags>, e: Seq<(usize, TransactionRecord)>, i: int)
    requires
        crate::transactions::keys_distinct(e),
        0 <= i < e.len(),
    ensures
        finished_ids(anims, e).contains(e[i].0) <==> match e[i].1.animation_id {
            Some(a) => !anims.contains_key(a) || anims[a].is_finished,
            None => true,
        },
    decreases e.len(),
{
    let init = e.drop_last();
    let rest = finished_ids(anims, init);
    let last = e.len() - 1;
    let tail: Seq<usize> = if step_state(anims, e.last().1).is_finished {
        seq![e.last().0]
    } else {
        seq![]
    };
    assert(finished_ids(anims, e) == rest + tail);
    assert(e.last() == e[last]);
    lemma_concat_contains(rest, tail, e[i].0);
    assert(crate::transactions::keys_distinct(init)) by {
        assert forall|a: int, b: int| 0 <= a < init.len() && 0 <= b < init.len() && a != b implies init[a].0 != init[b].0 by {
            assert(init[a] == e[a] && init[b] == e[b]);
        }
    }
    lemma_finished_ids_keys(anims, init);
    if i < last {
        law_finished_changes(anims, init, i);
        assert(init[i] == e[i]);
        assert(e[i].0 != e[last].0);
        if tail.contains(e[i].0) {
            assert(tail[0] == e[last].0);
        }
    } else {
        if rest.contains(e[i].0) {
            let j = choose|j: int| 0 <= j < init.len() && init[j].0 == e[i].0;
            assert(init[j] == e[j]);
        }
        if step_state(anims, e.last().1).is_finished {
            assert(tail[0] == e[i].0);
        }
    }
}

/// An element of a concatenation is in one of its parts.
proof fn lemma_concat_contains(a: Seq<usize>, b: Seq<usize>, y: usize)
    ensures
        (a + b).contains(y) <==> a.contains(y) || b.contains(y),
{
    if (a + b).contains(y) {
        let k = choose|k: int| 0 <= k < (a + b).len() && (a + b)[k] == y;
        if k < a.len() {
            assert(a[k] == y);
        } else {
            assert(b[k - a.len()] == y);
        }
    }
    if a.contains(y) {
        let k = choose|k: int| 0 <= k < a.len() && a[k] == y;
        assert((a + b)[k] == y);
    }
    if b.contains(y) {
        let k = choose|k: int| 0 <= k < b.len() && b[k] == y;
        assert((a + b)[a.len() + k] == y);
    }
}

/// The finished ids of the entries are keys of the entries.
proof fn lemma_finished_ids_keys(anims: Map<usize, AnimationFlags>, e: Seq<(usize, TransactionRecord)>)
    ensures
        forall|x: usize| #[trigger] finished_ids(anims, e).contains(x) ==> exists|j: int| 0 <= j < e.len() && e[j].0 == x,
    decreases e.len(),
{
    if e.len() > 0 {
        let init = e.drop_last();
        lemma_finished_ids_keys(anims, init);
        assert forall|x: usize| #[trigger] finished_ids(anims, e).contains(x) implies exists|j: int| 0 <= j < e.len() && e[j].0 == x by {
            let rest = finished_ids(anims, init);
            let tail: Seq<usize> = if step_state(anims, e.last().1).is_finished {
                seq![e.last().0]
            } else {
                seq![]
            };
            assert(finished_ids(anims, e) == rest + tail);
            lemma_concat_contains(rest, tail, x);
            if rest.contains(x) {
                let j = choose|j: int| 0 <= j < init.len() && init[j].0 == x;
                assert(e[j] == init[j]);
            } else {
                assert(tail[0] == x);
                assert(e[e.len() - 1].0 == x);
            }
        }
    }
}

/// The registry with the once-only callbacks of key `k` dropped.
pub open spec fn cleanup_key(m: Map<usize, CallbacksView>, k: usize) -> Map<usize, CallbacksView> {
    if m.contains_key(k) {
        m.insert(k, persistent_view(m[k]))
    } else {
        m
    }
}

/// The registry with the callbacks of `dropped` removed from key `k`.
pub open spec fn drop_key(m: Map<usize, CallbacksView>, k: usize, dropped: Seq<CallbackRecord>) -> Map<usize, CallbacksView> {
    if m.contains_key(k) {
        m.insert(k, dropped_view(m[k], dropped))
    } else {
        m
    }
}

/// The pending changes, value map and callback registries after the
/// finished changes `tids` were cleaned up in order.
pub open spec fn after_cleanup(
    e: Seq<(usize, TransactionRecord)>,
    values: Map<usize, usize>,
    th: Map<usize, CallbacksView>,
    vh: Map<usize, CallbacksView>,
    tids: Seq<usize>,
) -> (Seq<(usize, TransactionRecord)>, Map<usize, usize>, Map<usize, CallbacksView>, Map<usize, CallbacksView>)
    decreases tids.len(),
{
    if tids.len() == 0 {
        (e, values, th, vh)
    } else {
        let (e0, v0, th0, vh0) = after_cleanup(e, values, th, vh, tids.drop_last());
        let tid = tids.last();
        if entries_map(e0).contains_key(tid) {
            let vid = entries_map(e0)[tid].value_id;
            (
                seq_swap_remove(e0, tid),
                if v0.contains_key(vid) && v0[vid] == tid { v0.remove(vid) } else { v0 },
                cleanup_key(th0, tid),
                cleanup_key(vh0, vid),
            )
        } else {
            (e0, v0, cleanup_key(th0, tid), vh0)
        }
    }
}

/// Cleaning up finished changes leaves exactly the other changes pending,
/// each with its record.
pub proof fn law_cleanup_pending(
    e: Seq<(usize, TransactionRecord)>,
    values: Map<usize, usize>,
    th: Map<usize, CallbacksView>,
    vh: Map<usize, CallbacksView>,
    tids: Seq<usize>,
)
    requires
        crate::transactions::keys_distinct(e),
    ensures
        crate::transactions::keys_distinct(after_cleanup(e, values, th, vh, tids).0),
        entries_map(after_cleanup(e, values, th, vh, tids).0) == entries_map(e).remove_keys(tids.to_set()),
    decreases tids.len(),
{
    if tids.len() == 0 {
        assert(tids.to_set() =~= Set::<usize>::empty());
        assert(entries_map(e).remove_keys(tids.to_set()) =~= entries_map(e));
    } else {
        let init = tids.drop_last();
        let tid = tids.last();
        law_cleanup_pending(e, values, th, vh, init);
        let e0 = after_cleanup(e, values, th, vh, init).0;
        assert(tids == init.push(tid));
        init.lemma_push_to_set_commute(tid);
        if entries_map(e0).contains_key(tid) {
            crate::transactions::lemma_seq_swap_remove_map(e0, tid);
        }
        assert(entries_map(after_cleanup(e, values, th, vh, tids).0) =~= entries_map(e).remove_keys(tids.to_set()));
    }
}

/// Tags each call with its node and change.
pub open spec fn tagged(calls: Seq<Invocation>, node_id: usize, tid: usize, vid: usize) -> Seq<CallbackCall> {
    calls.map_values(|c: Invocation| CallbackCall { node_id, transaction_id: tid, value_id: vid, invocation: c })
}

/// The calls made and the callback registries after the callbacks of the
/// first `k` pending changes were triggered in order.
pub open spec fn after_trigger(
    t: Tree,
    anims: Map<usize, AnimationFlags>,
    started: Seq<usize>,
    e: Seq<(usize, TransactionRecord)>,
    th: Map<usize, CallbacksView>,
    vh: Map<usize, CallbacksView>,
    k: nat,
) -> (Seq<CallbackCall>, Map<usize, CallbacksView>, Map<usize, CallbacksView>)
    decreases k,
{
    if k == 0 {
        (seq![], th, vh)
    } else {
        let (c0, th0, vh0) = after_trigger(t, anims, started, e, th, vh, (k - 1) as nat);
        let (tid, rec) = e[k - 1];
        if crate::scene::is_removed_spec(t, rec.node_id) {
            (c0, th0, vh0)
        } else {
            let st = step_state(anims, rec);
            let stt = match rec.animation_id {
                Some(a) => started.contains(a),
                None => false,
            };
            let trv = callbacks_or_empty(th0, tid);
            let vv = callbacks_or_empty(vh0, rec.value_id);
            (
                c0 + tagged(callback_calls(st.is_running, st.is_finished, stt, trv, vv), rec.node_id, tid, rec.value_id),
                drop_key(th0, tid, fired_once(st.is_running, st.is_finished, stt, trv)),
                drop_key(vh0, rec.value_id, fired_once(st.is_running, st.is_finished, stt, vv)),
            )
        }
    }
}

/// Taking the view of each value commutes with inserting.
pub proof fn lemma_views_insert(m: Map<usize, Callbacks>, k: usize, c: Callbacks)
    ensures
        m.insert(k, c).map_values(|x: Callbacks| x.view()) == m.map_values(|x: Callbacks| x.view()).insert(k, c.view()),
{
    assert(m.insert(k, c).map_values(|x: Callbacks| x.view()) =~= m.map_values(|x: Callbacks| x.view()).insert(k, c.view()));
}

/// Removing a key commutes with taking the views of the stored callbacks.
pub proof fn lemma_views_remove(m: Map<usize, Callbacks>, k: usize)
    ensures
        m.remove(k).map_values(|x: Callbacks| x.view()) == m.map_values(|x: Callbacks| x.view()).remove(k),
{
    assert(m.remove(k).map_values(|x: Callbacks| x.view()) =~= m.map_values(|x: Callbacks| x.view()).remove(k));
}

/// Drops the once-only callbacks stored under `k`.
fn cleanup_once_at(s: &mut FlatStorage<Callbacks>, k: usize)
    ensures
        final(s).next_id() == old(s).next_id(),
        final(s).view().map_values(|c: Callbacks| c.view()) == cleanup_key(old(s).view().map_values(|c: Callbacks| c.view()), k),
{
    match s.remove_at(k) {
        Some(c) => {
            let mut c2 = c;
            c2.cleanup_once_callbacks();
            s.insert_with_id(c2, k);
            proof {
                lemma_views_insert(old(s).view().remove(k), k, c2);
                assert(old(s).view().remove(k).insert(k, c2) =~= old(s).view().insert(k, c2));
                lemma_views_insert(old(s).view(), k, c2);
            }
        },
        None => {},
    }
}

/// Removes the callbacks of `dropped` from those stored under `k`.
fn drop_at(s: &mut FlatStorage<Callbacks>, k: usize, dropped: &Vec<CallbackRecord>)
    ensures
        final(s).next_id() == old(s).next_id(),
        final(s).view().map_values(|c: Callbacks| c.view()) == drop_key(old(s).view().map_values(|c: Callbacks| c.view()), k, dropped@),
{
    match s.remove_at(k) {
        Some(c) => {
            let mut c2 = c;
            c2.remove_all(dropped);
            s.insert_with_id(c2, k);
            proof {
                assert(old(s).view().remove(k).insert(k, c2) =~= old(s).view().insert(k, c2));
                lemma_views_insert(old(s).view(), k, c2);
            }
        },
        None => {},
    }
}

/// Adds a callback to the list of `event` of the set stored under `k`,
/// creating the set when there is none.
fn push_at(s: &mut FlatStorage<Callbacks>, k: usize, event: TransactionEventType, handler: CallbackRecord)
    ensures
        final(s).next_id() == old(s).next_id(),
        final(s).view().map_values(|c: Callbacks| c.view()) == old(s).view().map_values(|c: Callbacks| c.view()).insert(
            k,
            pushed_view(callbacks_or_empty(old(s).view().map_values(|c: Callbacks| c.view()), k), event, handler),
        ),
{
    let mut ch = match s.remove_at(k) {
        Some(c) => c,
        None => Callbacks::new(),
    };
    ch.push(event, handler);
    s.insert_with_id(ch, k);
    proof {
        assert(old(s).view().remove(k).insert(k, ch) =~= old(s).view().insert(k, ch));
        lemma_views_insert(old(s).view(), k, ch);
        assert(ch.view() == pushed_view(callbacks_or_empty(old(s).view().map_values(|c: Callbacks| c.view()), k), event, handler));
    }
}

impl Engine {
    /// The number of pending changes.
    pub fn pending_transactions_count(&self) -> (r: usize)
        ensures
            r == self.txs().entries().len(),
    {
        self.transactions.len()
    }

    /// Adds an animation, running at once when `autostart` holds.
    pub fn add_animation(&mut self, autostart: bool) -> (r: AnimationRef)
        ensures
            r.engine_id == old(self).engine_id(),
            r.id == old(self).anims().storage.next_id(),
            final(self).anims().view() == old(self).anims().view().insert(
                r.id,
                AnimationFlags { is_started: false, is_running: autostart, is_finished: false },
            ),
            final(self).anims().storage.next_id() == next_index(old(self).anims().storage.next_id()),
            final(self).txs() == old(self).txs(),
            final(self).wf() == old(self).wf(),
            final(self).engine_id() == old(self).engine_id(),
    {
        let id = self.animations.add_animation(autostart);
        AnimationRef { id, engine_id: self.id }
    }

    /// Restarts an animation.
    pub fn start_animation(&mut self, animation: AnimationRef)
        ensures
            old(self).anims().view().contains_key(animation.id) ==> final(self).anims().view() == old(self).anims().view().insert(
                animation.id,
                AnimationFlags { is_running: true, is_finished: false, ..old(self).anims().view()[animation.id] },
            ),
            !old(self).anims().view().contains_key(animation.id) ==> final(self).anims().view() == old(self).anims().view(),
            final(self).anims().storage.next_id() == old(self).anims().storage.next_id(),
            final(self).txs() == old(self).txs(),
            final(self).wf() == old(self).wf(),
    {
        self.animations.start_animation(animation.id);
    }

    /// Removes an animation.
    pub fn cancel_animation(&mut self, animation: AnimationRef)
        ensures
            final(self).anims().view() == old(self).anims().view().remove(animation.id),
            final(self).anims().storage.next_id() == old(self).anims().storage.next_id(),
            final(self).txs() == old(self).txs(),
            final(self).wf() == old(self).wf(),
    {
        self.animations.cancel_animation(animation.id);
    }

    /// The state of an animation.
    pub fn get_animation(&self, animation: AnimationRef) -> (r: Option<AnimationFlags>)
        ensures
            r == (if self.anims().view().contains_key(animation.id) {
                Some(self.anims().view()[animation.id])
            } else {
                None
            }),
    {
        self.animations.get(animation.id)
    }

    /// Schedules a change of a value of a node, driven by an animation when
    /// one is given. A change pending for the same value is cancelled.
    pub fn schedule_change(&mut self, target_id: usize, value_id: usize, animation: Option<AnimationRef>) -> (r: TransactionRef)
        requires
            old(self).wf(),
        ensures
            final(self).wf(),
            r.id == old(self).txs().next_id(),
            r.value_id == value_id,
            r.engine_id == old(self).engine_id(),
            final(self).txs().next_id() == next_index(old(self).txs().next_id()),
            final(self).txs().values() == old(self).txs().values().insert(value_id, r.id),
            ({
                let rec = TransactionRecord {
                    node_id: target_id,
                    value_id,
                    animation_id: match animation {
                        Some(a) => Some(a.id),
                        None => None,
                    },
                };
                let inserted = seq_insert(old(self).txs().entries(), r.id, rec);
                final(self).txs().entries() == (if old(self).txs().values().contains_key(value_id) {
                    seq_swap_remove(inserted, old(self).txs().values()[value_id])
                } else {
                    inserted
                })
            }),
            final(self).anims() == old(self).anims(),
            final(self).tree() == old(self).tree(),
            final(self).engine_id() == old(self).engine_id(),
    {
        let aid = match animation {
            Some(a) => Some(a.id),
            None => None,
        };
        let id = self.transactions.schedule(target_id, value_id, aid);
        TransactionRef { id, value_id, engine_id: self.id }
    }

    /// Schedules changes `(node, value, animation)` in order. When a shared
    /// animation is given, it drives all of them; otherwise each is driven by
    /// its own animation, if it has one.
    pub fn schedule_changes(
        &mut self,
        changes: &Vec<(usize, usize, Option<AnimationRef>)>,
        animation: Option<AnimationRef>,
    ) -> (r: Vec<TransactionRef>)
        requires
            old(self).wf(),
        ensures
            final(self).wf(),
            r@.len() == changes@.len(),
            ({
                let sc = scheduled_changes(changes@, animation);
                let o = old(self).txs();
                &&& (final(self).txs().entries(), final(self).txs().values(), final(self).txs().next_id())
                    == schedule_all(o.entries(), o.values(), o.next_id(), sc)
                &&& forall|i: int| 0 <= i < r@.len() ==> #[trigger] r@[i] == (TransactionRef {
                    id: schedule_all(o.entries(), o.values(), o.next_id(), sc.take(i)).2,
                    value_id: changes@[i].1,
                    engine_id: old(self).engine_id(),
                })
            }),
            final(self).anims() == old(self).anims(),
            final(self).tree() == old(self).tree(),
            final(self).engine_id() == old(self).engine_id(),
    {
        let ghost sc = scheduled_changes(changes@, animation);
        let ghost o = old(self).txs();
        let mut out: Vec<TransactionRef> = Vec::new();
        let mut k: usize = 0;
        assert(sc.take(0) =~= Seq::<(usize, usize, Option<usize>)>::empty());
        while k < changes.len()
            invariant
                self.wf(),
                0 <= k <= changes.len(),
                sc == scheduled_changes(changes@, animation),
                out@.len() == k,
                (self.txs().entries(), self.txs().values(), self.txs().next_id())
                    == schedule_all(o.entries(), o.values(), o.next_id(), sc.take(k as int)),
                forall|i: int| 0 <= i < k ==> #[trigger] out@[i] == (TransactionRef {
                    id: schedule_all(o.entries(), o.values(), o.next_id(), sc.take(i)).2,
                    value_id: changes@[i].1,
                    engine_id: old(self).engine_id(),
                }),
                o == old(self).txs(),
                self.anims() == old(self).anims(),
                self.tree() == old(self).tree(),
                self.engine_id() == old(self).engine_id(),
            decreases changes.len() - k,
        {
            let (node, value, own) = changes[k];
            let driver = match animation {
                Some(a) => Some(a),
                None => own,
            };
            let t = self.schedule_change(node, value, driver);
            proof {
                assert(sc.take(k + 1).drop_last() =~= sc.take(k as int));
                assert(sc.take(k + 1).last() == sc[k as int]);
            }
            out.push(t);
            k = k + 1;
        }
        assert(sc.take(changes.len() as int) =~= sc);
        out
    }

    /// Attaches a pending change to an animation: the change is then driven
    /// by it. Every other pending change stays as it was; nothing happens
    /// when the change is no longer pending.
    pub fn attach_animation(&mut self, transaction: TransactionRef, animation: AnimationRef)
        requires
            old(self).wf(),
        ensures
            final(self).wf(),
            final(self).txs().pending() == (if old(self).txs().pending().contains_key(transaction.id) {
                old(self).txs().pending().insert(
                    transaction.id,
                    TransactionRecord { animation_id: Some(animation.id), ..old(self).txs().pending()[transaction.id] },
                )
            } else {
                old(self).txs().pending()
            }),
            old(self).txs().pending().contains_key(transaction.id) ==> final(self).txs().entries() == seq_insert(
                old(self).txs().entries(),
                transaction.id,
                TransactionRecord { animation_id: Some(animation.id), ..old(self).txs().pending()[transaction.id] },
            ),
            !old(self).txs().pending().contains_key(transaction.id) ==> final(self).txs().entries() == old(self).txs().entries(),
            final(self).txs().values() == old(self).txs().values(),
            final(self).txs().next_id() == old(self).txs().next_id(),
            final(self).anims() == old(self).anims(),
            final(self).tree() == old(self).tree(),
    {
        self.transactions.set_animation(transaction.id, animation.id);
        proof {
            if old(self).txs().pending().contains_key(transaction.id) {
                crate::transactions::lemma_seq_insert_map(
                    old(self).txs().entries(),
                    transaction.id,
                    TransactionRecord { animation_id: Some(animation.id), ..old(self).txs().pending()[transaction.id] },
                );
            }
        }
    }

    /// Cancels a pending change.
    pub fn cancel_transaction(&mut self, transaction: TransactionRef)
        requires
            old(self).wf(),
        ensures
            final(self).wf(),
            final(self).txs().entries() == seq_swap_remove(old(self).txs().entries(), transaction.id),
            final(self).txs().values() == old(self).txs().values(),
            final(self).txs().next_id() == old(self).txs().next_id(),
            final(self).anims() == old(self).anims(),
            final(self).tree() == old(self).tree(),
    {
        self.transactions.cancel(transaction.id);
    }

    /// The pending change of a handle.
    pub fn get_transaction(&self, transaction: TransactionRef) -> (r: Option<TransactionRecord>)
        requires
            self.wf(),
        ensures
            r == (if self.txs().pending().contains_key(transaction.id) {
                Some(self.txs().pending()[transaction.id])
            } else {
                None
            }),
    {
        self.transactions.get(transaction.id)
    }

    /// The pending change that will set a value.
    pub fn get_transaction_for_value(&self, value_id: usize) -> (r: Option<TransactionRecord>)
        requires
            self.wf(),
        ensures
            r == (if self.txs().values().contains_key(value_id) && self.txs().pending().contains_key(
                self.txs().values()[value_id],
            ) {
                Some(self.txs().pending()[self.txs().values()[value_id]])
            } else {
                None
            }),
    {
        self.transactions.get_for_value(value_id)
    }

    /// The animation state that drives a change.
    fn state_of(&self, rec: TransactionRecord) -> (r: (AnimationFlags, bool))
        ensures
            r.0 == step_state(self.anims().view(), rec),
            r.1 == step_animated(self.anims().view(), rec),
    {
        match rec.animation_id {
            Some(a) => match self.animations.get(a) {
                Some(f) => (f, true),
                None => (AnimationFlags { is_started: false, is_running: false, is_finished: true }, false),
            },
            None => (AnimationFlags { is_started: false, is_running: false, is_finished: true }, false),
        }
    }

    /// The pending changes in order, each with the state of the animation
    /// that drives it.
    pub fn transaction_steps(&self) -> (r: Vec<TransactionStep>)
        ensures
            r@.len() == self.txs().entries().len(),
            forall|i: int| 0 <= i < r@.len() ==> #[trigger] r@[i] == (TransactionStep {
                id: self.txs().entries()[i].0,
                record: self.txs().entries()[i].1,
                state: step_state(self.anims().view(), self.txs().entries()[i].1),
                animated: step_animated(self.anims().view(), self.txs().entries()[i].1),
            }),
    {
        let n = self.transactions.len();
        let mut r: Vec<TransactionStep> = Vec::new();
        let mut k: usize = 0;
        while k < n
            invariant
                n == self.txs().entries().len(),
                0 <= k <= n,
                r@.len() == k,
                forall|i: int| 0 <= i < k ==> #[trigger] r@[i] == (TransactionStep {
                    id: self.txs().entries()[i].0,
                    record: self.txs().entries()[i].1,
                    state: step_state(self.anims().view(), self.txs().entries()[i].1),
                    animated: step_animated(self.anims().view(), self.txs().entries()[i].1),
                }),
            decreases n - k,
        {
            let (id, rec) = self.transactions.entry_at(k);
            let (state, animated) = self.state_of(rec);
            r.push(TransactionStep { id, record: rec, state, animated });
            k = k + 1;
        }
        r
    }

    /// Applies the outcome of executing the pending changes in order: the
    /// flags each change returned are added to its node, if the node is live.
    /// Returns the nodes of the changes, in order, and the changes that are
    /// done.
    pub fn execute_transactions(&mut self, flags: &Vec<RenderableFlags>) -> (r: (Vec<usize>, Vec<usize>))
        requires
            old(self).wf(),
            flags@.len() == old(self).txs().entries().len(),
        ensures
            final(self).wf(),
            final(self).tree() == flags_applied(old(self).tree(), old(self).txs().entries(), flags@, flags@.len() as nat),
            r.0@ == old(self).txs().entries().map_values(|e: (usize, TransactionRecord)| e.1.node_id),
            r.1@ == finished_ids(old(self).anims().view(), old(self).txs().entries()),
            final(self).txs() == old(self).txs(),
            final(self).anims() == old(self).anims(),
            final(self).root() == old(self).root(),
            final(self).layers() == old(self).layers(),
    {
        let n = self.transactions.len();
        let ghost e = self.txs().entries();
        let mut updated: Vec<usize> = Vec::new();
        let mut finished: Vec<usize> = Vec::new();
        let mut k: usize = 0;
        assert(e.take(0) =~= Seq::<(usize, TransactionRecord)>::empty());
        while k < n
            invariant
                self.wf(),
                n == e.len(),
                e == self.txs().entries(),
                flags@.len() == n,
                0 <= k <= n,
                self.tree() == flags_applied(old(self).tree(), e, flags@, k as nat),
                updated@ == e.take(k as int).map_values(|x: (usize, TransactionRecord)| x.1.node_id),
                finished@ == finished_ids(old(self).anims().view(), e.take(k as int)),
                self.txs() == old(self).txs(),
                self.anims() == old(self).anims(),
                self.root() == old(self).root(),
                self.layers() == old(self).layers(),
            decreases n - k,
        {
            let (id, rec) = self.transactions.entry_at(k);
            let (state, _animated) = self.state_of(rec);
            self.scene.insert_flags(rec.node_id, flags[k]);
            updated.push(rec.node_id);
            if state.is_finished {
                finished.push(id);
            }
            proof {
                assert(e.take(k + 1).drop_last() =~= e.take(k as int));
                assert(e.take(k + 1).last() == e[k as int]);
                assert(updated@ =~= e.take(k + 1).map_values(|x: (usize, TransactionRecord)| x.1.node_id));
            }
            k = k + 1;
        }
        assert(e.take(n as int) =~= e);
        (updated, finished)
    }

    /// Advances the animations by the clock's ticks; returns the animations
    /// that started and those that finished.
    pub fn update_animations(&mut self, ticks: &Vec<AnimationTick>) -> (r: (Vec<usize>, Vec<usize>))
        ensures
            final(self).anims().view() == apply_ticks(old(self).anims().view(), ticks@),
            final(self).anims().storage.next_id() == old(self).anims().storage.next_id(),
            r.0@ == started_in(old(self).anims().view(), ticks@),
            r.1@ == finished_in(old(self).anims().view(), ticks@),
            final(self).txs() == old(self).txs(),
            final(self).tree() == old(self).tree(),
            final(self).wf() == old(self).wf(),
    {
        self.animations.update_animations(ticks)
    }

    /// Removes the finished animations.
    pub fn cleanup_animations(&mut self, finished: &Vec<usize>)
        ensures
            final(self).anims().view() == old(self).anims().view().remove_keys(finished@.to_set()),
            final(self).anims().storage.next_id() == old(self).anims().storage.next_id(),
            final(self).txs() == old(self).txs(),
            final(self).tree() == old(self).tree(),
            final(self).wf() == old(self).wf(),
    {
        self.animations.cleanup_animations(finished);
    }

    /// Removes the finished changes, in order: each pending one is dropped,
    /// its value's entry is dropped when it still names it, and the once-only
    /// callbacks of its value and of the change itself are dropped.
    pub fn cleanup_transactions(&mut self, finished: &Vec<usize>)
        requires
            old(self).wf(),
        ensures
            final(self).wf(),
            (final(self).txs().entries(), final(self).txs().values(), final(self).transaction_handlers(), final(self).value_handlers())
                == after_cleanup(
                old(self).txs().entries(),
                old(self).txs().values(),
                old(self).transaction_handlers(),
                old(self).value_handlers(),
                finished@,
            ),
            final(self).txs().next_id() == old(self).txs().next_id(),
            final(self).anims() == old(self).anims(),
            final(self).tree() == old(self).tree(),
            forall|x: CallbackRecord| !x.once ==> #[trigger] same_persistent(
                final(self).value_handlers(),
                old(self).value_handlers(),
                x,
            ) && same_persistent(final(self).transaction_handlers(), old(self).transaction_handlers(), x),
    {
        let mut k: usize = 0;
        assert(finished@.take(0) =~= Seq::<usize>::empty());
        while k < finished.len()
            invariant
                self.wf(),
                0 <= k <= finished.len(),
                (self.txs().entries(), self.txs().values(), self.transaction_handlers(), self.value_handlers())
                    == after_cleanup(
                    old(self).txs().entries(),
                    old(self).txs().values(),
                    old(self).transaction_handlers(),
                    old(self).value_handlers(),
                    finished@.take(k as int),
                ),
                self.txs().next_id() == old(self).txs().next_id(),
                self.anims() == old(self).anims(),
                self.tree() == old(self).tree(),
            decreases finished.len() - k,
        {
            let tid = finished[k];
            proof {
                assert(finished@.take(k + 1).drop_last() =~= finished@.take(k as int));
            }
            match self.transactions.finish(tid) {
                Some(vid) => {
                    cleanup_once_at(&mut self.value_handlers, vid);
                },
                None => {},
            }
            cleanup_once_at(&mut self.transaction_handlers, tid);
            k = k + 1;
        }
        assert(finished@.take(finished.len() as int) =~= finished@);
        proof {
            assert forall|x: CallbackRecord| !x.once implies #[trigger] same_persistent(
                self.value_handlers(),
                old(self).value_handlers(),
                x,
            ) && same_persistent(
                self.transaction_handlers(),
                old(self).transaction_handlers(),
                x,
            ) by {
                law_cleanup_keeps_persistent(
                    old(self).txs().entries(),
                    old(self).txs().values(),
                    old(self).transaction_handlers(),
                    old(self).value_handlers(),
                    finished@,
                    x,
                );
            }
        }
    }

    /// Whether an animation is in the list.
    fn contains_id(list: &Vec<usize>, x: usize) -> (r: bool)
        ensures
            r == list@.contains(x),
    {
        let mut k: usize = 0;
        while k < list.len()
            invariant
                0 <= k <= list.len(),
                forall|j: int| 0 <= j < k ==> list@[j] != x,
            decreases list.len() - k,
        {
            if list[k] == x {
                return true;
            }
            k = k + 1;
        }
        false
    }

    /// Decides, for each pending change whose node is still in the scene, in
    /// order, which of its callbacks and of its value's callbacks fire, and
    /// drops those registered to fire once. `started` lists the animations
    /// that started in this update. Returns the calls to make, in order.
    #[verifier::spinoff_prover]
    #[verifier::rlimit(40)]
    pub fn trigger_callbacks(&mut self, started: &Vec<usize>) -> (r: Vec<CallbackCall>)
        requires
            old(self).wf(),
        ensures
            final(self).wf(),
            (r@, final(self).transaction_handlers(), final(self).value_handlers()) == after_trigger(
                old(self).tree(),
                old(self).anims().view(),
                started@,
                old(self).txs().entries(),
                old(self).transaction_handlers(),
                old(self).value_handlers(),
                old(self).txs().entries().len(),
            ),
            final(self).txs() == old(self).txs(),
            final(self).anims() == old(self).anims(),
            final(self).tree() == old(self).tree(),
    {
        let n = self.transactions.len();
        let mut calls: Vec<CallbackCall> = Vec::new();
        let mut k: usize = 0;
        while k < n
            invariant
                self.wf(),
                n == self.txs().entries().len(),
                0 <= k <= n,
                (calls@, self.transaction_handlers(), self.value_handlers()) == after_trigger(
                    old(self).tree(),
                    old(self).anims().view(),
                    started@,
                    old(self).txs().entries(),
                    old(self).transaction_handlers(),
                    old(self).value_handlers(),
                    k as nat,
                ),
                self.txs() == old(self).txs(),
                self.anims() == old(self).anims(),
                self.tree() == old(self).tree(),
            decreases n - k,
        {
            let (tid, rec) = self.transactions.entry_at(k);
            if !self.scene.is_node_removed(rec.node_id) {
                let (state, _animated) = self.state_of(rec);
                let was_started = match rec.animation_id {
                    Some(a) => Self::contains_id(started, a),
                    None => false,
                };
                let empty_t = Callbacks::new();
                let empty_v = Callbacks::new();
                let plan = {
                    let tr = match self.transaction_handlers.get(tid) {
                        Some(c) => c,
                        None => &empty_t,
                    };
                    let v = match self.value_handlers.get(rec.value_id) {
                        Some(c) => c,
                        None => &empty_v,
                    };
                    transaction_callbacks(state.is_running, state.is_finished, was_started, tr, v)
                };
                let ghost before = calls@;
                let mut j: usize = 0;
                while j < plan.calls.len()
                    invariant
                        0 <= j <= plan.calls.len(),
                        calls@ == before + tagged(plan.calls@.take(j as int), rec.node_id, tid, rec.value_id),
                    decreases plan.calls.len() - j,
                {
                    calls.push(CallbackCall {
                        node_id: rec.node_id,
                        transaction_id: tid,
                        value_id: rec.value_id,
                        invocation: plan.calls[j],
                    });
                    assert(plan.calls@.take(j + 1) =~= plan.calls@.take(j as int).push(plan.calls@[j as int]));
                    assert(calls@ =~= before + tagged(plan.calls@.take(j + 1), rec.node_id, tid, rec.value_id));
                    j = j + 1;
                }
                assert(plan.calls@.take(plan.calls.len() as int) =~= plan.calls@);
                drop_at(&mut self.transaction_handlers, tid, &plan.transaction_dropped);
                drop_at(&mut self.value_handlers, rec.value_id, &plan.value_dropped);
            }
            k = k + 1;
        }
        calls
    }

    /// Registers a callback of a change for an event; returns its id.
    fn add_transaction_handler(&mut self, transaction: TransactionRef, event: TransactionEventType, once: bool) -> (r: usize)
        ensures
            r == old(self).next_callback_id(),
            final(self).next_callback_id() == next_index(old(self).next_callback_id()),
            final(self).transaction_handlers() == old(self).transaction_handlers().insert(
                transaction.id,
                pushed_view(callbacks_or_empty(old(self).transaction_handlers(), transaction.id), event, CallbackRecord { id: r, once }),
            ),
            final(self).value_handlers() == old(self).value_handlers(),
            final(self).txs() == old(self).txs(),
            final(self).tree() == old(self).tree(),
            final(self).wf() == old(self).wf(),
    {
        let id = self.next_callback_id;
        self.next_callback_id = if id < usize::MAX { id + 1 } else { 0 };
        push_at(&mut self.transaction_handlers, transaction.id, event, CallbackRecord { id, once });
        id
    }

    /// Registers a callback of a value for an event; returns its id.
    fn add_value_handler(&mut self, value_id: usize, event: TransactionEventType, once: bool) -> (r: usize)
        ensures
            r == old(self).next_callback_id(),
            final(self).next_callback_id() == next_index(old(self).next_callback_id()),
            final(self).value_handlers() == old(self).value_handlers().insert(
                value_id,
                pushed_view(callbacks_or_empty(old(self).value_handlers(), value_id), event, CallbackRecord { id: r, once }),
            ),
            final(self).transaction_handlers() == old(self).transaction_handlers(),
            final(self).txs() == old(self).txs(),
            final(self).tree() == old(self).tree(),
            final(self).wf() == old(self).wf(),
    {
        let id = self.next_callback_id;
        self.next_callback_id = if id < usize::MAX { id + 1 } else { 0 };
        push_at(&mut self.value_handlers, value_id, event, CallbackRecord { id, once });
        id
    }

    /// Registers a callback of an animation for an event; returns its id.
    fn add_animation_handler(&mut self, animation_id: usize, event: TransactionEventType, once: bool) -> (r: usize)
        ensures
            r == old(self).next_callback_id(),
            final(self).next_callback_id() == next_index(old(self).next_callback_id()),
            final(self).animation_handlers() == old(self).animation_handlers().insert(
                animation_id,
                pushed_view(callbacks_or_empty(old(self).animation_handlers(), animation_id), event, CallbackRecord { id: r, once }),
            ),
            final(self).txs() == old(self).txs(),
            final(self).tree() == old(self).tree(),
            final(self).wf() == old(self).wf(),
    {
        let id = self.next_callback_id;
        self.next_callback_id = if id < usize::MAX { id + 1 } else { 0 };
        push_at(&mut self.animation_handlers, animation_id, event, CallbackRecord { id, once });
        id
    }
}


/// The handler ids of an event on a node, or none.
pub open spec fn pointer_handlers_or_empty(m: Map<usize, PointerCallback>, node: usize, e: PointerEventType) -> Seq<usize> {
    if m.contains_key(node) {
        handlers_of(m[node], e)
    } else {
        Seq::empty()
    }
}

/// The node ancestors an event on `node` reaches, root first, keeping those
/// with pointer handlers.
pub open spec fn bubble_path(t: Tree, ph: Map<usize, PointerCallback>, node: usize) -> Seq<usize> {
    if t.dom().contains(node) {
        ancestors(t, node).reverse().filter(|a: usize| ph.contains_key(a))
    } else {
        Seq::empty()
    }
}

/// The handlers to call, `(node, handler id)`, for an event that reaches
/// the nodes of `targets` in order: each node's handlers of the event, in
/// the order they were registered.
pub open spec fn bubble_calls(ph: Map<usize, PointerCallback>, targets: Seq<usize>, event: PointerEventType) -> Seq<(usize, usize)>
    decreases targets.len(),
{
    if targets.len() == 0 {
        seq![]
    } else {
        let n = targets.last();
        bubble_calls(ph, targets.drop_last(), event) + handlers_of(ph[n], event).map_values(|h: usize| (n, h))
    }
}

/// Whether the `i`-th candidate of the hit test list can be hovered: it is
/// under `root` when one is given, it is live, and the pointer is over it.
pub open spec fn hover_eligible(t: Tree, list: Seq<usize>, hits: Seq<bool>, root: Option<usize>, i: int) -> bool {
    &&& (root matches Some(r) ==> t.dom().contains(list[i]) && ancestors(t, list[i]).contains(r))
    &&& t.dom().contains(list[i])
    &&& i < hits.len() && hits[i]
}

/// The topmost hoverable candidate among the first `k`: the last eligible one.
pub open spec fn pick_hover(t: Tree, list: Seq<usize>, hits: Seq<bool>, root: Option<usize>, k: int) -> Option<usize>
    decreases k,
{
    if k <= 0 {
        None
    } else if hover_eligible(t, list, hits, root, k - 1) {
        Some(list[k - 1])
    } else {
        pick_hover(t, list, hits, root, k - 1)
    }
}

/// A node's data after it is marked for repaint, its frame advanced when it
/// is image cached.
pub open spec fn repainted(d: SceneNode) -> SceneNode {
    SceneNode {
        rendering_flags: RenderableFlags { bits: d.rendering_flags.bits | NEEDS_PAINT_BIT },
        frame_number: if d.image_cached { next_frame(d.frame_number) } else { d.frame_number },
        ..d
    }
}

/// The tree after each live node of `s`, in order, is repainted.
pub open spec fn repaint_all(t: Tree, s: Seq<usize>) -> Tree
    decreases s.len(),
{
    if s.len() == 0 {
        t
    } else {
        let t0 = repaint_all(t, s.drop_last());
        let a = s.last();
        if t0.dom().contains(a) {
            with_data(t0, a, repainted(t0[a].data))
        } else {
            t0
        }
    }
}

/// An update settles the pending changes: when the animation of every
/// pending change is gone or finished (or it has none), the update finishes
/// all of them, and cleaning them up leaves no change pending, so the next
/// update executes nothing.
pub proof fn law_update_settles(
    anims: Map<usize, AnimationFlags>,
    e: Seq<(usize, TransactionRecord)>,
    values: Map<usize, usize>,
    th: Map<usize, CallbacksView>,
    vh: Map<usize, CallbacksView>,
    later: Map<usize, AnimationFlags>,
)
    requires
        crate::transactions::keys_distinct(e),
        forall|i: int| 0 <= i < e.len() ==> match (#[trigger] e[i]).1.animation_id {
            Some(a) => !anims.contains_key(a) || anims[a].is_finished,
            None => true,
        },
    ensures
        after_cleanup(e, values, th, vh, finished_ids(anims, e)).0.len() == 0,
        finished_ids(later, after_cleanup(e, values, th, vh, finished_ids(anims, e)).0).len() == 0,
{
    let tids = finished_ids(anims, e);
    let rest = after_cleanup(e, values, th, vh, tids).0;
    law_cleanup_pending(e, values, th, vh, tids);
    assert forall|i: int| 0 <= i < e.len() implies tids.to_set().contains(#[trigger] e[i].0) by {
        law_finished_changes(anims, e, i);
    }
    if rest.len() > 0 {
        let k = rest[0].0;
        assert(crate::transactions::has_key(rest, k));
        assert(entries_map(rest).contains_key(k));
        assert(entries_map(e).contains_key(k));
        let i = choose|i: int| 0 <= i < e.len() && e[i].0 == k;
        assert(tids.to_set().contains(e[i].0));
        assert(false);
    }
}

impl Engine {
    /// Registers a callback fired when the change starts; returns its id.
    pub fn on_start(&mut self, transaction: TransactionRef, once: bool) -> (r: usize)
        ensures
            r == old(self).next_callback_id(),
            final(self).next_callback_id() == next_index(old(self).next_callback_id()),
            final(self).transaction_handlers() == old(self).transaction_handlers().insert(
                transaction.id,
                pushed_view(callbacks_or_empty(old(self).transaction_handlers(), transaction.id), TransactionEventType::Start, CallbackRecord { id: r, once }),
            ),
            final(self).value_handlers() == old(self).value_handlers(),
            final(self).txs() == old(self).txs(),
            final(self).wf() == old(self).wf(),
    {
        self.add_transaction_handler(transaction, TransactionEventType::Start, once)
    }

    /// Registers a callback fired when the change is done; returns its id.
    pub fn on_finish(&mut self, transaction: TransactionRef, once: bool) -> (r: usize)
        ensures
            r == old(self).next_callback_id(),
            final(self).next_callback_id() == next_index(old(self).next_callback_id()),
            final(self).transaction_handlers() == old(self).transaction_handlers().insert(
                transaction.id,
                pushed_view(callbacks_or_empty(old(self).transaction_handlers(), transaction.id), TransactionEventType::Finish, CallbackRecord { id: r, once }),
            ),
            final(self).value_handlers() == old(self).value_handlers(),
            final(self).txs() == old(self).txs(),
            final(self).wf() == old(self).wf(),
    {
        self.add_transaction_handler(transaction, TransactionEventType::Finish, once)
    }

    /// Registers a callback fired on each update of the change; returns its id.
    pub fn on_update(&mut self, transaction: TransactionRef, once: bool) -> (r: usize)
        ensures
            r == old(self).next_callback_id(),
            final(self).next_callback_id() == next_index(old(self).next_callback_id()),
            final(self).transaction_handlers() == old(self).transaction_handlers().insert(
                transaction.id,
                pushed_view(callbacks_or_empty(old(self).transaction_handlers(), transaction.id), TransactionEventType::Update, CallbackRecord { id: r, once }),
            ),
            final(self).value_handlers() == old(self).value_handlers(),
            final(self).txs() == old(self).txs(),
            final(self).wf() == old(self).wf(),
    {
        self.add_transaction_handler(transaction, TransactionEventType::Update, once)
    }

    /// The id the next registered callback gets.
    pub fn callback_counter(&self) -> (r: usize)
        ensures
            r == self.next_callback_id(),
    {
        self.next_callback_id
    }

    /// Registers a callback fired once when the change is done, with the id
    /// `callback_counter` gave before the call; returns the change handle, so
    /// that registrations can be chained.
    pub fn then(&mut self, transaction: TransactionRef) -> (r: TransactionRef)
        ensures
            r == transaction,
            final(self).next_callback_id() == next_index(old(self).next_callback_id()),
            final(self).transaction_handlers() == old(self).transaction_handlers().insert(
                transaction.id,
                pushed_view(
                    callbacks_or_empty(old(self).transaction_handlers(), transaction.id),
                    TransactionEventType::Finish,
                    CallbackRecord { id: old(self).next_callback_id(), once: true },
                ),
            ),
            final(self).value_handlers() == old(self).value_handlers(),
            final(self).txs() == old(self).txs(),
            final(self).wf() == old(self).wf(),
    {
        self.add_transaction_handler(transaction, TransactionEventType::Finish, true);
        transaction
    }

    /// Registers a callback fired on each update of a change of the value;
    /// returns its id.
    pub fn on_update_value(&mut self, value_id: usize, once: bool) -> (r: usize)
        ensures
            r == old(self).next_callback_id(),
            final(self).next_callback_id() == next_index(old(self).next_callback_id()),
            final(self).value_handlers() == old(self).value_handlers().insert(
                value_id,
                pushed_view(callbacks_or_empty(old(self).value_handlers(), value_id), TransactionEventType::Update, CallbackRecord { id: r, once }),
            ),
            final(self).transaction_handlers() == old(self).transaction_handlers(),
            final(self).txs() == old(self).txs(),
            final(self).wf() == old(self).wf(),
    {
        self.add_value_handler(value_id, TransactionEventType::Update, once)
    }

    /// Registers a callback fired when a change of the value starts; returns its id.
    pub fn on_start_value(&mut self, value_id: usize, once: bool) -> (r: usize)
        ensures
            r == old(self).next_callback_id(),
            final(self).next_callback_id() == next_index(old(self).next_callback_id()),
            final(self).value_handlers() == old(self).value_handlers().insert(
                value_id,
                pushed_view(callbacks_or_empty(old(self).value_handlers(), value_id), TransactionEventType::Start, CallbackRecord { id: r, once }),
            ),
            final(self).transaction_handlers() == old(self).transaction_handlers(),
            final(self).txs() == old(self).txs(),
            final(self).wf() == old(self).wf(),
    {
        self.add_value_handler(value_id, TransactionEventType::Start, once)
    }

    /// Registers a callback fired when a change of the value is done; returns its id.
    pub fn on_finish_value(&mut self, value_id: usize, once: bool) -> (r: usize)
        ensures
            r == old(self).next_callback_id(),
            final(self).next_callback_id() == next_index(old(self).next_callback_id()),
            final(self).value_handlers() == old(self).value_handlers().insert(
                value_id,
                pushed_view(callbacks_or_empty(old(self).value_handlers(), value_id), TransactionEventType::Finish, CallbackRecord { id: r, once }),
            ),
            final(self).transaction_handlers() == old(self).transaction_handlers(),
            final(self).txs() == old(self).txs(),
            final(self).wf() == old(self).wf(),
    {
        self.add_value_handler(value_id, TransactionEventType::Finish, once)
    }

    /// Drops every callback of a value.
    pub fn clear_value_handlers(&mut self, value_id: usize)
        ensures
            final(self).value_handlers() == old(self).value_handlers().remove(value_id),
            final(self).transaction_handlers() == old(self).transaction_handlers(),
            final(self).txs() == old(self).txs(),
            final(self).wf() == old(self).wf(),
    {
        self.value_handlers.remove_at(value_id);
        proof {
            lemma_views_remove(old(self).value_handlers.view(), value_id);
        }
    }

    /// Registers a callback fired when the animation starts; returns its id.
    pub fn on_animation_start(&mut self, animation: AnimationRef, once: bool) -> (r: usize)
        ensures
            r == old(self).next_callback_id(),
            final(self).next_callback_id() == next_index(old(self).next_callback_id()),
            final(self).animation_handlers() == old(self).animation_handlers().insert(
                animation.id,
                pushed_view(callbacks_or_empty(old(self).animation_handlers(), animation.id), TransactionEventType::Start, CallbackRecord { id: r, once }),
            ),
            final(self).wf() == old(self).wf(),
    {
        self.add_animation_handler(animation.id, TransactionEventType::Start, once)
    }

    /// Registers a callback fired on each update of the animation; returns its id.
    pub fn on_animation_update(&mut self, animation: AnimationRef, once: bool) -> (r: usize)
        ensures
            r == old(self).next_callback_id(),
            final(self).next_callback_id() == next_index(old(self).next_callback_id()),
            final(self).animation_handlers() == old(self).animation_handlers().insert(
                animation.id,
                pushed_view(callbacks_or_empty(old(self).animation_handlers(), animation.id), TransactionEventType::Update, CallbackRecord { id: r, once }),
            ),
            final(self).wf() == old(self).wf(),
    {
        self.add_animation_handler(animation.id, TransactionEventType::Update, once)
    }

    /// Registers a callback fired when the animation is done; returns its id.
    pub fn on_animation_finish(&mut self, animation: AnimationRef, once: bool) -> (r: usize)
        ensures
            r == old(self).next_callback_id(),
            final(self).next_callback_id() == next_index(old(self).next_callback_id()),
            final(self).animation_handlers() == old(self).animation_handlers().insert(
                animation.id,
                pushed_view(callbacks_or_empty(old(self).animation_handlers(), animation.id), TransactionEventType::Finish, CallbackRecord { id: r, once }),
            ),
            final(self).wf() == old(self).wf(),
    {
        self.add_animation_handler(animation.id, TransactionEventType::Finish, once)
    }

    /// The callbacks registered on a change.
    pub fn transaction_callbacks_of(&self, transaction_id: usize) -> (r: Option<&Callbacks>)
        ensures
            match r {
                Some(c) => self.transaction_handlers().contains_key(transaction_id)
                    && c.view() == self.transaction_handlers()[transaction_id],
                None => !self.transaction_handlers().contains_key(transaction_id),
            },
    {
        self.transaction_handlers.get(transaction_id)
    }

    /// The callbacks registered on a value.
    pub fn value_callbacks_of(&self, value_id: usize) -> (r: Option<&Callbacks>)
        ensures
            match r {
                Some(c) => self.value_handlers().contains_key(value_id)
                    && c.view() == self.value_handlers()[value_id],
                None => !self.value_handlers().contains_key(value_id),
            },
    {
        self.value_handlers.get(value_id)
    }

    /// Registers a pointer handler of a node for an event; returns its id.
    pub fn add_pointer_handler(&mut self, layer_node: usize, event_type: PointerEventType) -> (r: usize)
        ensures
            r == old(self).next_pointer_handler_id(),
            final(self).next_pointer_handler_id() == next_index(old(self).next_pointer_handler_id()),
            final(self).pointer_handlers().contains_key(layer_node),
            forall|e: PointerEventType| #[trigger] handlers_of(final(self).pointer_handlers()[layer_node], e) == (if e == event_type {
                pointer_handlers_or_empty(old(self).pointer_handlers(), layer_node, e).push(r)
            } else {
                pointer_handlers_or_empty(old(self).pointer_handlers(), layer_node, e)
            }),
            forall|k: usize| k != layer_node ==> (#[trigger] final(self).pointer_handlers().contains_key(k)
                == old(self).pointer_handlers().contains_key(k)) && (old(self).pointer_handlers().contains_key(k)
                ==> final(self).pointer_handlers()[k] == old(self).pointer_handlers()[k]),
            final(self).tree() == old(self).tree(),
            final(self).txs() == old(self).txs(),
            final(self).wf() == old(self).wf(),
    {
        let id = self.next_pointer_handler_id;
        self.next_pointer_handler_id = if id < usize::MAX { id + 1 } else { 0 };
        let mut pc = match self.pointer_handlers.remove_at(layer_node) {
            Some(c) => c,
            None => PointerCallback::new(),
        };
        pc.insert(event_type, id);
        self.pointer_handlers.insert_with_id(pc, layer_node);
        id
    }

    /// Unregisters a pointer handler of a node, from every event.
    pub fn remove_pointer_handler(&mut self, layer_node: usize, handler_id: usize)
        ensures
            final(self).pointer_handlers().contains_key(layer_node) == old(self).pointer_handlers().contains_key(layer_node),
            old(self).pointer_handlers().contains_key(layer_node) ==> forall|e: PointerEventType|
                #[trigger] handlers_of(final(self).pointer_handlers()[layer_node], e)
                == without(handlers_of(old(self).pointer_handlers()[layer_node], e), handler_id),
            forall|k: usize| k != layer_node ==> (#[trigger] final(self).pointer_handlers().contains_key(k)
                == old(self).pointer_handlers().contains_key(k)) && (old(self).pointer_handlers().contains_key(k)
                ==> final(self).pointer_handlers()[k] == old(self).pointer_handlers()[k]),
            final(self).tree() == old(self).tree(),
            final(self).wf() == old(self).wf(),
    {
        match self.pointer_handlers.remove_at(layer_node) {
            Some(c) => {
                let mut pc = c;
                pc.remove(handler_id);
                self.pointer_handlers.insert_with_id(pc, layer_node);
            },
            None => {},
        }
    }

    /// Unregisters every pointer handler of a node.
    pub fn remove_all_pointer_handlers(&mut self, layer_node: usize)
        ensures
            final(self).pointer_handlers().contains_key(layer_node) == old(self).pointer_handlers().contains_key(layer_node),
            old(self).pointer_handlers().contains_key(layer_node) ==> forall|e: PointerEventType|
                #[trigger] handlers_of(final(self).pointer_handlers()[layer_node], e) == Seq::<usize>::empty(),
            forall|k: usize| k != layer_node ==> (#[trigger] final(self).pointer_handlers().contains_key(k)
                == old(self).pointer_handlers().contains_key(k)) && (old(self).pointer_handlers().contains_key(k)
                ==> final(self).pointer_handlers()[k] == old(self).pointer_handlers()[k]),
            final(self).tree() == old(self).tree(),
            final(self).wf() == old(self).wf(),
    {
        match self.pointer_handlers.remove_at(layer_node) {
            Some(c) => {
                let mut pc = c;
                pc.clear();
                self.pointer_handlers.insert_with_id(pc, layer_node);
            },
            None => {},
        }
    }

    /// The pointer handlers of a node.
    pub fn pointer_handlers_of(&self, layer_node: usize) -> (r: Option<&PointerCallback>)
        ensures
            match r {
                Some(c) => self.pointer_handlers().contains_key(layer_node) && *c == self.pointer_handlers()[layer_node],
                None => !self.pointer_handlers().contains_key(layer_node),
            },
    {
        self.pointer_handlers.get(layer_node)
    }

    /// The nodes whose pointer handlers an event on `node` reaches, in the
    /// order they are called: the node's ancestors from the farthest down to
    /// the node itself, keeping those with handlers.
    pub fn bubble_targets(&self, node: usize) -> (r: Vec<usize>)
        requires
            self.wf(),
        ensures
            r@ == bubble_path(self.tree(), self.pointer_handlers(), node),
    {
        let anc = self.scene.ancestors(node);
        let ghost s = anc@.reverse();
        let ghost pred = |a: usize| self.pointer_handlers().contains_key(a);
        let mut r: Vec<usize> = Vec::new();
        let mut k: usize = 0;
        assert(s.take(0) =~= Seq::<usize>::empty());
        assert(s.take(0).filter(pred) =~= Seq::<usize>::empty()) by {
            reveal(Seq::filter);
        }
        while k < anc.len()
            invariant
                0 <= k <= anc.len(),
                s == anc@.reverse(),
                r@ == s.take(k as int).filter(pred),
                pred == (|a: usize| self.pointer_handlers().contains_key(a)),
            decreases anc.len() - k,
        {
            let a = anc[anc.len() - 1 - k];
            proof {
                assert(s[k as int] == a);
                assert(s.take(k + 1) =~= s.take(k as int).push(a));
                s.take(k as int).lemma_filter_push(a, pred);
            }
            if self.pointer_handlers.contains(a) {
                r.push(a);
            }
            k = k + 1;
        }
        assert(s.take(anc.len() as int) =~= s);
        proof {
            if !self.tree().dom().contains(node) {
                assert(s =~= Seq::<usize>::empty());
                assert(r@ =~= Seq::<usize>::empty()) by {
                    reveal(Seq::filter);
                }
            }
        }
        r
    }

    /// The handlers an event on `node` calls, `(node, handler id)`, in
    /// order: the event bubbles from the root down to the node, and at each
    /// node with handlers its handlers of the event are called in the order
    /// they were registered.
    pub fn bubble_up_event(&self, node: usize, event: PointerEventType) -> (r: Vec<(usize, usize)>)
        requires
            self.wf(),
        ensures
            r@ == bubble_calls(self.pointer_handlers(), bubble_path(self.tree(), self.pointer_handlers(), node), event),
    {
        let targets = self.bubble_targets(node);
        let ghost ph = self.pointer_handlers();
        let mut r: Vec<(usize, usize)> = Vec::new();
        let mut k: usize = 0;
        assert(targets@.take(0) =~= Seq::<usize>::empty());
        while k < targets.len()
            invariant
                0 <= k <= targets.len(),
                ph == self.pointer_handlers(),
                targets@ == bubble_path(self.tree(), ph, node),
                forall|j: int| 0 <= j < targets@.len() ==> ph.contains_key(#[trigger] targets@[j]),
                r@ == bubble_calls(ph, targets@.take(k as int), event),
            decreases targets.len() - k,
        {
            let n = targets[k];
            let ghost before = r@;
            match self.pointer_handlers.get(n) {
                Some(c) => {
                    let hs = c.handlers(event);
                    let mut j: usize = 0;
                    while j < hs.len()
                        invariant
                            0 <= j <= hs.len(),
                            hs@ == handlers_of(ph[n], event),
                            r@ == before + hs@.take(j as int).map_values(|h: usize| (n, h)),
                        decreases hs.len() - j,
                    {
                        r.push((n, hs[j]));
                        proof {
                            assert(hs@.take(j + 1).map_values(|h: usize| (n, h)) =~= hs@.take(j as int).map_values(
                                |h: usize| (n, h),
                            ).push((n, hs@[j as int])));
                        }
                        j = j + 1;
                    }
                    assert(hs@.take(hs.len() as int) =~= hs@);
                },
                None => {},
            }
            proof {
                assert(targets@.take(k + 1).drop_last() =~= targets@.take(k as int));
                assert(targets@.take(k + 1).last() == n);
            }
            k = k + 1;
        }
        assert(targets@.take(targets.len() as int) =~= targets@);
        r
    }

    /// The handlers a button press calls, as `bubble_up_event` on the hovered
    /// node; none when no node is hovered.
    pub fn pointer_button_down(&self) -> (r: Vec<(usize, usize)>)
        requires
            self.wf(),
        ensures
            r@ == match self.hover() {
                Some(h) => bubble_calls(self.pointer_handlers(), bubble_path(self.tree(), self.pointer_handlers(), h), PointerEventType::Down),
                None => Seq::empty(),
            },
    {
        match self.current_hover_node {
            Some(h) => self.bubble_up_event(h, PointerEventType::Down),
            None => Vec::new(),
        }
    }

    /// The handlers a button release calls, as `bubble_up_event` on the
    /// hovered node; none when no node is hovered.
    pub fn pointer_button_up(&self) -> (r: Vec<(usize, usize)>)
        requires
            self.wf(),
        ensures
            r@ == match self.hover() {
                Some(h) => bubble_calls(self.pointer_handlers(), bubble_path(self.tree(), self.pointer_handlers(), h), PointerEventType::Up),
                None => Seq::empty(),
            },
    {
        match self.current_hover_node {
            Some(h) => self.bubble_up_event(h, PointerEventType::Up),
            None => Vec::new(),
        }
    }

    /// The node under the pointer.
    pub fn current_hover(&self) -> (r: Option<usize>)
        ensures
            r == self.hover(),
    {
        self.current_hover_node
    }

    /// The cached list of nodes eligible for hit testing, back to front.
    pub fn hit_test_node_list(&self) -> (r: &Vec<usize>)
        ensures
            r@ == self.hit_list(),
    {
        &self.hit_test_node_list
    }

    /// Moves the pointer. `hits[i]` tells whether the pointer is over the
    /// `i`-th node of the hit test list. The hovered node becomes the topmost
    /// (last) node of the list that the pointer is over, that is live, and
    /// that is under `root` when one is given. Returns the hover change.
    pub fn pointer_move(&mut self, hits: &Vec<bool>, root: Option<usize>) -> (r: HoverChange)
        requires
            old(self).wf(),
        ensures
            final(self).wf(),
            r == hover_change_spec(
                old(self).hover(),
                pick_hover(old(self).tree(), old(self).hit_list(), hits@, root, old(self).hit_list().len() as int),
            ),
            final(self).hover() == r.hovered,
            final(self).tree() == old(self).tree(),
            final(self).hit_list() == old(self).hit_list(),
            final(self).pointer_handlers() == old(self).pointer_handlers(),
            final(self).same_schedule(old(self)),
    {
        let n = self.hit_test_node_list.len();
        let mut k: usize = n;
        let mut new_hover: Option<usize> = None;
        let ghost t = self.tree();
        let ghost list = self.hit_list();
        while k > 0
            invariant_except_break
                new_hover is None,
                pick_hover(t, list, hits@, root, n as int) == pick_hover(t, list, hits@, root, k as int),
            invariant
                self.wf(),
                t == self.tree(),
                list == self.hit_list(),
                n == list.len(),
                0 <= k <= n,
            ensures
                self.wf(),
                t == self.tree(),
                list == self.hit_list(),
                pick_hover(t, list, hits@, root, n as int) == new_hover,
            decreases k,
        {
            let i = k - 1;
            let node = self.hit_test_node_list[i];
            let under_root = match root {
                Some(rid) => {
                    let anc = self.scene.ancestors(node);
                    proof {
                        if t.dom().contains(node) {
                            crate::tree::lemma_live_fuel(t, node);
                        }
                    }
                    Self::contains_id(&anc, rid)
                },
                None => true,
            };
            let live = self.scene.is_alive(node);
            let hit = i < hits.len() && hits[i];
            if under_root && live && hit {
                assert(hover_eligible(t, list, hits@, root, i as int));
                assert(pick_hover(t, list, hits@, root, k as int) == Some(node));
                new_hover = Some(node);
                break;
            }
            assert(!hover_eligible(t, list, hits@, root, i as int));
            k = k - 1;
        }
        let change = hover_change(self.current_hover_node, new_hover);
        self.current_hover_node = change.hovered;
        change
    }

    /// Rebuilds the hit test list from the root.
    pub fn rebuild_hit_test_node_list(&mut self, root: usize)
        requires
            old(self).wf(),
        ensures
            final(self).wf(),
            final(self).hit_list() == hit_test_list(old(self).tree(), root),
            !final(self).hit_dirty(),
            final(self).tree() == old(self).tree(),
            final(self).root() == old(self).root(),
            final(self).hover() == old(self).hover(),
            final(self).traversal_dirty() == old(self).traversal_dirty(),
            final(self).post_order_cache() == old(self).post_order_cache(),
            final(self).depth_groups_cache() == old(self).depth_groups_cache(),
            final(self).pointer_handlers() == old(self).pointer_handlers(),
            final(self).same_schedule(old(self)),
    {
        self.hit_test_node_list = self.scene.hit_test_nodes(root);
        self.hit_test_node_list_dirty = false;
    }

    /// Rebuilds the cached post-order of the scene and its grouping by depth.
    pub fn rebuild_traversal_cache(&mut self)
        requires
            old(self).wf(),
        ensures
            final(self).wf(),
            final(self).post_order_cache() == (match old(self).root() {
                Some(root) => if old(self).tree().dom().contains(root) {
                    post_order(old(self).tree(), root)
                } else {
                    Seq::empty()
                },
                None => Seq::empty(),
            }),
            is_depth_grouping(old(self).tree(), final(self).post_order_cache(), final(self).depth_groups_cache()),
            !final(self).traversal_dirty(),
            final(self).hit_dirty() == old(self).hit_dirty(),
            final(self).hit_list() == old(self).hit_list(),
            final(self).tree() == old(self).tree(),
            final(self).root() == old(self).root(),
            final(self).hover() == old(self).hover(),
            final(self).pointer_handlers() == old(self).pointer_handlers(),
            final(self).same_schedule(old(self)),
    {
        let post = match self.scene_root {
            Some(root) => {
                if self.scene.is_alive(root) {
                    self.scene.post_order(root)
                } else {
                    Vec::new()
                }
            },
            None => Vec::new(),
        };
        let groups = self.scene.depth_groups(&post);
        self.cached_nodes_post_order = post;
        self.cached_depth_groups = groups;
        self.traversal_cache_dirty = false;
    }

    /// Brings the caches up to date as an update of the nodes does: with a
    /// root, the traversal caches are rebuilt if marked, and the hit test
    /// list is rebuilt if marked. Returns whether there is a root.
    pub fn refresh_caches(&mut self) -> (r: bool)
        requires
            old(self).wf(),
        ensures
            final(self).wf(),
            r == old(self).root() is Some,
            final(self).tree() == old(self).tree(),
            final(self).root() == old(self).root(),
            final(self).hover() == old(self).hover(),
            final(self).pointer_handlers() == old(self).pointer_handlers(),
            final(self).same_schedule(old(self)),
            old(self).root() is None ==> final(self).hit_list() == old(self).hit_list()
                && final(self).hit_dirty() == old(self).hit_dirty()
                && final(self).traversal_dirty() == old(self).traversal_dirty(),
            old(self).root() matches Some(root) ==> {
                &&& !final(self).traversal_dirty()
                &&& !final(self).hit_dirty()
                &&& old(self).hit_dirty() ==> final(self).hit_list() == hit_test_list(old(self).tree(), root)
                &&& !old(self).hit_dirty() ==> final(self).hit_list() == old(self).hit_list()
                &&& old(self).traversal_dirty() ==> final(self).post_order_cache() == (if old(self).tree().dom().contains(root) {
                    post_order(old(self).tree(), root)
                } else {
                    Seq::empty()
                })
                &&& old(self).traversal_dirty() ==> is_depth_grouping(old(self).tree(), final(self).post_order_cache(), final(self).depth_groups_cache())
                &&& !old(self).traversal_dirty() ==> final(self).post_order_cache() == old(self).post_order_cache()
                    && final(self).depth_groups_cache() == old(self).depth_groups_cache()
            },
    {
        match self.scene_root {
            None => false,
            Some(root) => {
                if self.traversal_cache_dirty {
                    self.rebuild_traversal_cache();
                }
                if self.hit_test_node_list_dirty {
                    self.rebuild_hit_test_node_list(root);
                }
                true
            },
        }
    }

    /// The cached post-order of the scene.
    pub fn cached_nodes_post_order(&self) -> (r: &Vec<usize>)
        ensures
            r@ == self.post_order_cache(),
    {
        &self.cached_nodes_post_order
    }

    /// The cached depth groups of the scene.
    pub fn cached_depth_groups(&self) -> (r: &Vec<(usize, Vec<usize>)>)
        ensures
            r@.map_values(|g: (usize, Vec<usize>)| (g.0, g.1@)) == self.depth_groups_cache(),
    {
        &self.cached_depth_groups
    }

    /// Applies a command of the debug server: highlighting turns the node's
    /// debug highlight on, unhighlighting turns it off, and either marks the
    /// node for repaint; an unknown command does nothing.
    pub fn apply_debug_command(&mut self, command: DebugCommand, node: usize)
        requires
            old(self).wf(),
            command != DebugCommand::Unknown ==> old(self).tree().dom().contains(node),
        ensures
            final(self).wf(),
            final(self).tree() == (if command == DebugCommand::Unknown {
                old(self).tree()
            } else {
                with_data(old(self).tree(), node, SceneNode {
                    debug_info: command == DebugCommand::Highlight,
                    rendering_flags: RenderableFlags {
                        bits: old(self).tree()[node].data.rendering_flags.bits | NEEDS_PAINT_BIT,
                    },
                    ..old(self).tree()[node].data
                })
            }),
            final(self).root() == old(self).root(),
            final(self).same_schedule(old(self)),
            final(self).pointer_handlers() == old(self).pointer_handlers(),
            final(self).hover() == old(self).hover(),
    {
        let on = match command {
            DebugCommand::Highlight => true,
            DebugCommand::Unhighlight => false,
            DebugCommand::Unknown => {
                return;
            },
        };
        match self.scene.node(node) {
            Some(d) => {
                let mut d = d;
                d.set_debug_info(on);
                self.set_node_data(node, d);
            },
            None => {},
        }
    }

    /// Adds rendering flags to a live node.
    pub fn set_node_flags(&mut self, node: usize, flags: RenderableFlags)
        requires
            old(self).wf(),
            old(self).tree().dom().contains(node),
        ensures
            final(self).wf(),
            final(self).tree() == with_flags(old(self).tree(), node, flags.bits),
            final(self).root() == old(self).root(),
            final(self).same_schedule(old(self)),
    {
        self.scene.insert_flags(node, flags);
    }

    /// Replaces the data of a live node; the hit test list is marked to be
    /// rebuilt when its visibility or pointer events change.
    pub fn set_node_data(&mut self, node: usize, data: SceneNode)
        requires
            old(self).wf(),
        ensures
            final(self).wf(),
            old(self).tree().dom().contains(node) ==> final(self).tree() == with_data(old(self).tree(), node, data),
            !old(self).tree().dom().contains(node) ==> final(self).tree() == old(self).tree(),
            old(self).tree().dom().contains(node) && (old(self).tree()[node].data.hidden != data.hidden
                || old(self).tree()[node].data.pointer_events != data.pointer_events) ==> final(self).hit_dirty(),
            final(self).hit_dirty() == (old(self).hit_dirty() || (old(self).tree().dom().contains(node) && (old(self).tree()[node].data.hidden != data.hidden
                || old(self).tree()[node].data.pointer_events != data.pointer_events))),
            final(self).root() == old(self).root(),
            final(self).hover() == old(self).hover(),
            final(self).traversal_dirty() == old(self).traversal_dirty(),
            final(self).pointer_handlers() == old(self).pointer_handlers(),
            final(self).same_schedule(old(self)),
    {
        match self.scene.node(node) {
            Some(prev) => {
                let visibility_changed = prev.hidden != data.hidden || prev.pointer_events != data.pointer_events;
                self.scene.set_node(node, data);
                if visibility_changed {
                    self.hit_test_node_list_dirty = true;
                }
            },
            None => {},
        }
    }

    /// Marks the ancestors of a node (not the node itself), nearest first,
    /// for repaint, advancing the frame of those that are image cached.
    pub fn mark_image_cached_ancestors_for_repaint(&mut self, node: usize)
        requires
            old(self).wf(),
        ensures
            final(self).wf(),
            final(self).tree() == (if old(self).tree().dom().contains(node) {
                repaint_all(old(self).tree(), ancestors(old(self).tree(), node).skip(1))
            } else {
                old(self).tree()
            }),
            forall|j: int| 1 <= j < ancestors(old(self).tree(), node).len() && old(self).tree().dom().contains(node)
                ==> #[trigger] final(self).tree()[ancestors(old(self).tree(), node)[j]].data.rendering_flags.bits
                & NEEDS_PAINT_BIT == NEEDS_PAINT_BIT,
            final(self).root() == old(self).root(),
            final(self).same_schedule(old(self)),
    {
        proof {
            assert forall|j: int| 1 <= j < ancestors(old(self).tree(), node).len() && old(self).tree().dom().contains(node)
                implies #[trigger] repaint_all(old(self).tree(), ancestors(old(self).tree(), node).skip(1))[ancestors(old(self).tree(), node)[j]].data.rendering_flags.bits
                & NEEDS_PAINT_BIT == NEEDS_PAINT_BIT by {
                law_ancestors_marked_for_repaint(old(self).tree(), node, j);
            }
        }
        let anc = self.scene.ancestors(node);
        if anc.len() == 0 {
            return;
        }
        let ghost s = anc@.skip(1);
        let mut k: usize = 1;
        assert(s.take(0) =~= Seq::<usize>::empty());
        while k < anc.len()
            invariant
                self.wf(),
                1 <= k <= anc.len(),
                s == anc@.skip(1),
                self.tree() == repaint_all(old(self).tree(), s.take(k - 1)),
                self.root() == old(self).root(),
                self.same_schedule(old(self)),
            decreases anc.len() - k,
        {
            let a = anc[k];
            proof {
                assert(s.take(k as int).drop_last() =~= s.take(k - 1));
                assert(s.take(k as int).last() == a);
            }
            match self.scene.node(a) {
                Some(d) => {
                    let mut d2 = d;
                    d2.set_needs_repaint(true);
                    if d2.image_cached {
                        d2.increase_frame();
                    }
                    self.scene.set_node(a, d2);
                },
                None => {},
            }
            k = k + 1;
        }
        assert(s.take(anc.len() - 1) =~= s);
    }
}

/// A callback registered to stay is in the list after dropping the
/// once-only ones exactly when it was before.
proof fn lemma_persistent_keeps(s: Seq<CallbackRecord>, x: CallbackRecord)
    requires
        !x.once,
    ensures
        crate::callbacks::persistent(s).contains(x) <==> s.contains(x),
{
    let pred = |r: CallbackRecord| !r.once;
    if crate::callbacks::persistent(s).contains(x) {
        s.lemma_filter_contains_rev(pred, x);
    }
    if s.contains(x) {
        let i = choose|i: int| 0 <= i < s.len() && s[i] == x;
        s.lemma_filter_contains(pred, i);
    }
}

/// Whether two registries have the same keys and, under each key, the same
/// callbacks registered to stay in each list.
pub open spec fn same_persistent(a: Map<usize, CallbacksView>, b: Map<usize, CallbacksView>, x: CallbackRecord) -> bool {
    &&& a.dom() == b.dom()
    &&& forall|k: usize| #[trigger] a.contains_key(k) ==> {
        &&& (a[k].on_start.contains(x) <==> b[k].on_start.contains(x))
        &&& (a[k].on_update.contains(x) <==> b[k].on_update.contains(x))
        &&& (a[k].on_finish.contains(x) <==> b[k].on_finish.contains(x))
    }
}

/// Cleaning up finished changes keeps every callback registered to stay:
/// each transaction and each value keeps its entry in its registry, and a
/// callback that is not once-only is in a list of an entry after the
/// cleanup exactly when it was before.
pub proof fn law_cleanup_keeps_persistent(
    e: Seq<(usize, TransactionRecord)>,
    values: Map<usize, usize>,
    th: Map<usize, CallbacksView>,
    vh: Map<usize, CallbacksView>,
    tids: Seq<usize>,
    x: CallbackRecord,
)
    requires
        !x.once,
    ensures
        same_persistent(after_cleanup(e, values, th, vh, tids).2, th, x),
        same_persistent(after_cleanup(e, values, th, vh, tids).3, vh, x),
    decreases tids.len(),
{
    if tids.len() > 0 {
        let pre = tids.drop_last();
        law_cleanup_keeps_persistent(e, values, th, vh, pre, x);
        let (e0, v0, th0, vh0) = after_cleanup(e, values, th, vh, pre);
        let th2 = after_cleanup(e, values, th, vh, tids).2;
        let vh2 = after_cleanup(e, values, th, vh, tids).3;
        assert forall|k: usize| th0.contains_key(k) implies {
            &&& (persistent_view(th0[k]).on_start.contains(x) <==> th0[k].on_start.contains(x))
            &&& (persistent_view(th0[k]).on_update.contains(x) <==> th0[k].on_update.contains(x))
            &&& (persistent_view(th0[k]).on_finish.contains(x) <==> th0[k].on_finish.contains(x))
        } by {
            lemma_persistent_keeps(th0[k].on_start, x);
            lemma_persistent_keeps(th0[k].on_update, x);
            lemma_persistent_keeps(th0[k].on_finish, x);
        }
        assert forall|k: usize| vh0.contains_key(k) implies {
            &&& (persistent_view(vh0[k]).on_start.contains(x) <==> vh0[k].on_start.contains(x))
            &&& (persistent_view(vh0[k]).on_update.contains(x) <==> vh0[k].on_update.contains(x))
            &&& (persistent_view(vh0[k]).on_finish.contains(x) <==> vh0[k].on_finish.contains(x))
        } by {
            lemma_persistent_keeps(vh0[k].on_start, x);
            lemma_persistent_keeps(vh0[k].on_update, x);
            lemma_persistent_keeps(vh0[k].on_finish, x);
        }
        assert(th2.dom() =~= th0.dom());
        assert(vh2.dom() =~= vh0.dom());
        assert(same_persistent(th2, th0, x));
        assert(same_persistent(vh2, vh0, x));
    }
}

/// The hovered node is the topmost candidate the pointer is over that is
/// live and, when a root is given, is that root or lies below it: if `i` is
/// such a candidate and no later candidate among the first `k` is one, the
/// pick is the `i`-th node. The root itself counts as under the root.
pub proof fn law_hover_topmost_under_root(
    t: Tree,
    list: Seq<usize>,
    hits: Seq<bool>,
    root: Option<usize>,
    k: int,
    i: int,
)
    requires
        crate::arena::tree_wf(t),
        0 <= i < k <= list.len(),
        i < hits.len() && hits[i],
        t.dom().contains(list[i]),
        root matches Some(r) ==> r == list[i] || is_ancestor_or_self(t, r, list[i]),
        forall|j: int| i < j < k ==> !(#[trigger] t.dom().contains(list[j]) && j < hits.len() && hits[j] && (root matches Some(r)
            ==> is_ancestor_or_self(t, r, list[j]))),
    ensures
        pick_hover(t, list, hits, root, k) == Some(list[i]),
    decreases k,
{
    if k - 1 == i {
        crate::tree::lemma_live_fuel(t, list[i]);
        crate::tree::lemma_ancestors_len(t, list[i], t.dom().len());
        assert(ancestors(t, list[i])[0] == list[i]);
        assert(hover_eligible(t, list, hits, root, i));
    } else {
        assert(!hover_eligible(t, list, hits, root, k - 1));
        law_hover_topmost_under_root(t, list, hits, root, k - 1, i);
    }
}

/// Repainting the nodes of `s` marks every live one of them for repaint,
/// whether it is image cached or not, keeps the set of nodes, and leaves
/// every other node as it was; the caching hint of no node changes.
pub proof fn law_repaint_marks_all(t: Tree, s: Seq<usize>)
    ensures
        repaint_all(t, s).dom() == t.dom(),
        forall|j: int| 0 <= j < s.len() && t.dom().contains(#[trigger] s[j])
            ==> repaint_all(t, s)[s[j]].data.rendering_flags.bits & NEEDS_PAINT_BIT == NEEDS_PAINT_BIT,
        forall|x: usize| #[trigger] t.dom().contains(x) && !s.contains(x) ==> repaint_all(t, s)[x] == t[x],
        forall|x: usize| #[trigger] t.dom().contains(x) ==> repaint_all(t, s)[x].data.image_cached == t[x].data.image_cached,
    decreases s.len(),
{
    if s.len() > 0 {
        let pre = s.drop_last();
        law_repaint_marks_all(t, pre);
        let t0 = repaint_all(t, pre);
        let a = s.last();
        let t1 = repaint_all(t, s);
        assert(t1.dom() =~= t.dom());
        assert forall|j: int| 0 <= j < s.len() && t.dom().contains(#[trigger] s[j])
            implies t1[s[j]].data.rendering_flags.bits & NEEDS_PAINT_BIT == NEEDS_PAINT_BIT by {
            let b = t0[s[j]].data.rendering_flags.bits;
            assert((b | 4u32) & 4u32 == 4u32) by (bit_vector);
            if j < s.len() - 1 {
                assert(pre[j] == s[j]);
            }
        }
        assert forall|x: usize| #[trigger] t.dom().contains(x) && !s.contains(x) implies t1[x] == t[x] by {
            assert(s[s.len() - 1] == a);
            assert(!pre.contains(x)) by {
                if pre.contains(x) {
                    let j = choose|j: int| 0 <= j < pre.len() && pre[j] == x;
                    assert(s[j] == x);
                }
            }
        }
    }
}

/// Marking the ancestors of a node for repaint marks every proper ancestor,
/// image cached or not; only the frames of the image cached ones advance.
pub proof fn law_ancestors_marked_for_repaint(t: Tree, node: usize, j: int)
    requires
        crate::arena::tree_wf(t),
        t.dom().contains(node),
        1 <= j < ancestors(t, node).len(),
    ensures
        repaint_all(t, ancestors(t, node).skip(1)).dom() == t.dom(),
        t.dom().contains(ancestors(t, node)[j]),
        repaint_all(t, ancestors(t, node).skip(1))[ancestors(t, node)[j]].data.rendering_flags.bits & NEEDS_PAINT_BIT
            == NEEDS_PAINT_BIT,
{
    let s = ancestors(t, node).skip(1);
    crate::tree::lemma_live_fuel(t, node);
    crate::tree::lemma_ancestors_len(t, node, t.dom().len());
    law_repaint_marks_all(t, s);
    assert(s[j - 1] == ancestors(t, node)[j]);
}

/// The hovered node is always one of the candidates the pointer is over,
/// live and, when a root is given, that root or below it; no node is
/// hovered only when no candidate is such a node.
pub proof fn law_hover_pick_sound(t: Tree, list: Seq<usize>, hits: Seq<bool>, root: Option<usize>, k: int)
    requires
        0 <= k <= list.len(),
    ensures
        pick_hover(t, list, hits, root, k) matches Some(x) ==> exists|i: int| 0 <= i < k && #[trigger] list[i] == x
            && i < hits.len() && hits[i] && t.dom().contains(x) && (root matches Some(r) ==> is_ancestor_or_self(t, r, x)),
        pick_hover(t, list, hits, root, k) is None ==> forall|i: int| 0 <= i < k ==> !(#[trigger] t.dom().contains(list[i])
            && i < hits.len() && hits[i] && (root matches Some(r) ==> is_ancestor_or_self(t, r, list[i]))),
    decreases k,
{
    if k > 0 {
        law_hover_pick_sound(t, list, hits, root, k - 1);
        if hover_eligible(t, list, hits, root, k - 1) {
            assert(list[k - 1] == list[k - 1]);
        }
    }
}

} // verus!
