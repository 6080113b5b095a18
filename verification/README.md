# layers

A retained-mode scene engine for animated user interfaces. Nodes of a scene
tree are layers; their properties receive changes that are scheduled in the
engine, applied at once or along an animation, and reported to callbacks.

`src/` is the verified library:

- `arena`: the scene tree is kept in an `indextree` arena; the arena type, a
  model of its contents and the operations the engine uses are declared here.
- `tree`, `forest`: facts about the tree model; detaching, attaching and
  removing subtrees keep it a forest; descendants are the nodes below.
- `scene`: the scene tree with node flags, hit testing order, post-order and
  depth grouping.
- `transactions`, `storage`, `animations`, `callbacks`: scheduled changes
  (kept in an `IndexMap`), animation states and change callbacks.
- `pointer`: pointer handlers, hover changes.
- `values`, `commands`, `flags`, `node`: value handles (ids from a counter,
  values in a storage shared by every handle with that id), the no-op change,
  rendering flags and node state.
- `engine`: the engine state and each of its decisions, layer keys and
  lookup by key included.

`app/` holds what needs floating point or closures: animation timing
(easing curves, springs, keyframes), the layout tree (`taffy`), change
commands and callback closures, and the update loop that drives the engine.
