//! The state of a scene node that the engine's decisions read: its rendering
//! flags, visibility, caching hints, deletion mark and frame counter.
use vstd::prelude::*;
use crate::flags::{RenderableFlags, NEEDS_LAYOUT_BIT, NEEDS_PAINT_BIT};

verus! {

/// The plain state of a node of the scene tree.
#[derive(Clone, Copy, Debug, PartialEq, Eq, Structural)]
pub struct SceneNode {
    pub rendering_flags: RenderableFlags,
    pub hidden: bool,
    pub pointer_events: bool,
    pub image_cached: bool,
    pub picture_cached: bool,
    pub is_deleted: bool,
    pub frame_number: usize,
    /// The debugger highlights the node: it is repainted at every update
    /// while this holds.
    pub debug_info: bool,
}

/// What changed when a node's render layer was refreshed.
#[derive(Clone, Copy, Debug, PartialEq, Eq, Structural)]
pub struct RenderLayerUpdate {
    /// The layer's own box changed size.
    pub size_changed: bool,
    /// The layer's origin in its parent's space changed.
    pub moved: bool,
}

impl Default for RenderLayerUpdate {
    /// Nothing changed.
    fn default() -> (r: RenderLayerUpdate)
        ensures
            !r.size_changed && !r.moved,
    {
        RenderLayerUpdate { size_changed: false, moved: false }
    }
}

impl RenderLayerUpdate {
    /// Whether anything changed.
    pub fn any(&self) -> (r: bool)
        ensures
            r == (self.size_changed || self.moved),
    {
        self.size_changed || self.moved
    }
}

/// The frame number that follows `n`: one more, or 1 once `usize::MAX` is reached.
pub open spec fn next_frame(n: usize) -> usize {
    if n < usize::MAX {
        (n + 1) as usize
    } else {
        1
    }
}

impl SceneNode {
    /// The state of a fresh node.
    pub open spec fn new_spec() -> SceneNode {
        SceneNode {
            rendering_flags: RenderableFlags { bits: NEEDS_PAINT_BIT | NEEDS_LAYOUT_BIT },
            hidden: false,
            pointer_events: true,
            image_cached: false,
            picture_cached: true,
            is_deleted: false,
            frame_number: 0,
            debug_info: false,
        }
    }

    /// A fresh node: it needs paint and layout, is visible, takes pointer
    /// events, is picture cached and is not marked for deletion.
    pub fn new() -> (r: SceneNode)
        ensures
            r == SceneNode::new_spec(),
    {
        SceneNode {
            rendering_flags: RenderableFlags::needs_paint().union(RenderableFlags::needs_layout()),
            hidden: false,
            pointer_events: true,
            image_cached: false,
            picture_cached: true,
            is_deleted: false,
            frame_number: 0,
            debug_info: false,
        }
    }

    /// Adds rendering flags.
    pub fn insert_flags(&mut self, flags: RenderableFlags)
        ensures
            *final(self) == (SceneNode {
                rendering_flags: RenderableFlags { bits: old(self).rendering_flags.bits | flags.bits },
                ..*old(self)
            }),
    {
        self.rendering_flags.insert(flags);
    }

    /// Removes rendering flags.
    pub fn remove_flags(&mut self, flags: RenderableFlags)
        ensures
            *final(self) == (SceneNode {
                rendering_flags: RenderableFlags { bits: old(self).rendering_flags.bits & !flags.bits },
                ..*old(self)
            }),
    {
        self.rendering_flags.remove(flags);
    }

    /// Marks the node for deletion; it is removed from the tree at the next cleanup.
    pub fn mark_for_deletion(&mut self)
        ensures
            *final(self) == (SceneNode { is_deleted: true, ..*old(self) }),
    {
        self.is_deleted = true;
    }

    /// Whether the node is marked for deletion.
    pub fn is_deleted(&self) -> (r: bool)
        ensures
            r == self.is_deleted,
    {
        self.is_deleted
    }

    /// Hides or shows the node.
    pub fn set_hidden(&mut self, hidden: bool)
        ensures
            *final(self) == (SceneNode { hidden: hidden, ..*old(self) }),
    {
        self.hidden = hidden;
    }

    /// Whether the node is hidden.
    pub fn hidden(&self) -> (r: bool)
        ensures
            r == self.hidden,
    {
        self.hidden
    }

    /// Whether the node takes pointer events.
    pub fn pointer_events(&self) -> (r: bool)
        ensures
            r == self.pointer_events,
    {
        self.pointer_events
    }

    /// Sets whether the node takes pointer events.
    pub fn set_pointer_events(&mut self, value: bool)
        ensures
            *final(self) == (SceneNode { pointer_events: value, ..*old(self) }),
    {
        self.pointer_events = value;
    }

    /// Sets the image cache hint.
    pub fn set_image_cached(&mut self, value: bool)
        ensures
            *final(self) == (SceneNode { image_cached: value, ..*old(self) }),
    {
        self.image_cached = value;
    }

    /// Whether the node is image cached.
    pub fn is_image_cached(&self) -> (r: bool)
        ensures
            r == self.image_cached,
    {
        self.image_cached
    }

    /// Sets the picture cache hint.
    pub fn set_picture_cached(&mut self, value: bool)
        ensures
            *final(self) == (SceneNode { picture_cached: value, ..*old(self) }),
    {
        self.picture_cached = value;
    }

    /// Whether the node is picture cached.
    pub fn is_picture_cached(&self) -> (r: bool)
        ensures
            r == self.picture_cached,
    {
        self.picture_cached
    }

    /// Advances the frame counter, starting over at 1 past `usize::MAX`.
    pub fn increase_frame(&mut self)
        ensures
            *final(self) == (SceneNode { frame_number: next_frame(old(self).frame_number), ..*old(self) }),
    {
        if self.frame_number < usize::MAX {
            self.frame_number = self.frame_number + 1;
        } else {
            self.frame_number = 1;
        }
    }

    /// The frame counter.
    pub fn frame_number(&self) -> (r: usize)
        ensures
            r == self.frame_number,
    {
        self.frame_number
    }

    /// Sets or clears the paint flag.
    pub fn set_needs_repaint(&mut self, value: bool)
        ensures
            value ==> *final(self) == (SceneNode {
                rendering_flags: RenderableFlags { bits: old(self).rendering_flags.bits | NEEDS_PAINT_BIT },
                ..*old(self)
            }),
            !value ==> *final(self) == (SceneNode {
                rendering_flags: RenderableFlags { bits: old(self).rendering_flags.bits & !NEEDS_PAINT_BIT },
                ..*old(self)
            }),
    {
        self.rendering_flags.set(RenderableFlags::needs_paint(), value);
    }

    /// Sets or clears the layout flag.
    pub fn set_needs_layout(&mut self, value: bool)
        ensures
            value ==> *final(self) == (SceneNode {
                rendering_flags: RenderableFlags { bits: old(self).rendering_flags.bits | NEEDS_LAYOUT_BIT },
                ..*old(self)
            }),
            !value ==> *final(self) == (SceneNode {
                rendering_flags: RenderableFlags { bits: old(self).rendering_flags.bits & !NEEDS_LAYOUT_BIT },
                ..*old(self)
            }),
    {
        self.rendering_flags.set(RenderableFlags::needs_layout(), value);
    }

    /// Whether the paint flag is set.
    pub fn needs_repaint(&self) -> (r: bool)
        ensures
            r == (self.rendering_flags.bits & NEEDS_PAINT_BIT == NEEDS_PAINT_BIT),
    {
        self.rendering_flags.contains(RenderableFlags::needs_paint())
    }

    /// Whether the layout flag is set.
    pub fn needs_layout(&self) -> (r: bool)
        ensures
            r == (self.rendering_flags.bits & NEEDS_LAYOUT_BIT == NEEDS_LAYOUT_BIT),
    {
        self.rendering_flags.contains(RenderableFlags::needs_layout())
    }

    /// Turns the debugger highlight on or off; either way the node is
    /// marked for repaint.
    pub fn set_debug_info(&mut self, on: bool)
        ensures
            *final(self) == (SceneNode {
                debug_info: on,
                rendering_flags: RenderableFlags { bits: old(self).rendering_flags.bits | NEEDS_PAINT_BIT },
                ..*old(self)
            }),
    {
        self.debug_info = on;
        self.rendering_flags.insert(RenderableFlags::needs_paint());
    }

    /// Whether the debugger highlights the node.
    pub fn has_debug_info(&self) -> (r: bool)
        ensures
            r == self.debug_info,
    {
        self.debug_info
    }

    /// Whether the node is to be repainted after its render layer was
    /// refreshed: when the layer changed, and always while it is highlighted.
    pub fn changed_after_update(&self, layer_changed: bool) -> (r: bool)
        ensures
            r == (layer_changed || self.debug_info),
    {
        layer_changed || self.debug_info
    }
}

/// Setting the paint flag and reading it back gives the value set, and the
/// layout flag is left as it was; the same holds the other way round.
pub proof fn law_flag_set_get(bits: u32, value: bool)
    ensures
        ((if value { bits | NEEDS_PAINT_BIT } else { bits & !NEEDS_PAINT_BIT }) & NEEDS_PAINT_BIT
            == NEEDS_PAINT_BIT) == value,
        ((if value { bits | NEEDS_PAINT_BIT } else { bits & !NEEDS_PAINT_BIT }) & NEEDS_LAYOUT_BIT
            == NEEDS_LAYOUT_BIT) == (bits & NEEDS_LAYOUT_BIT == NEEDS_LAYOUT_BIT),
        ((if value { bits | NEEDS_LAYOUT_BIT } else { bits & !NEEDS_LAYOUT_BIT }) & NEEDS_LAYOUT_BIT
            == NEEDS_LAYOUT_BIT) == value,
        ((if value { bits | NEEDS_LAYOUT_BIT } else { bits & !NEEDS_LAYOUT_BIT }) & NEEDS_PAINT_BIT
            == NEEDS_PAINT_BIT) == (bits & NEEDS_PAINT_BIT == NEEDS_PAINT_BIT),
{
    assert((bits | 4u32) & 4u32 == 4u32) by (bit_vector);
    assert((bits & !4u32) & 4u32 != 4u32) by (bit_vector);
    assert(((bits | 4u32) & 2u32 == 2u32) == (bits & 2u32 == 2u32)) by (bit_vector);
    assert(((bits & !4u32) & 2u32 == 2u32) == (bits & 2u32 == 2u32)) by (bit_vector);
    assert((bits | 2u32) & 2u32 == 2u32) by (bit_vector);
    assert((bits & !2u32) & 2u32 != 2u32) by (bit_vector);
    assert(((bits | 2u32) & 4u32 == 4u32) == (bits & 4u32 == 4u32)) by (bit_vector);
    assert(((bits & !2u32) & 4u32 == 4u32) == (bits & 4u32 == 4u32)) by (bit_vector);
}

} // verus!
