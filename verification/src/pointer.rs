//! Pointer input: the handlers registered per node and event, the state of
//! the pointer buttons, and the hover state machine.
use vstd::prelude::*;

verus! {

/// The state of a pointer button.
#[derive(Clone, Copy, Debug, PartialEq, Eq, Structural)]
pub enum ButtonState {
    Pressed,
    Released,
}

/// The pointer events a handler can listen to.
#[derive(Clone, Copy, Debug, PartialEq, Eq, Structural)]
pub enum PointerEventType {
    Move,
    In,
    Out,
    Down,
    Up,
}

/// The ids of the handlers registered on one node, per event. The handler
/// functions are kept by the caller under these ids.
#[derive(Clone, Debug)]
pub struct PointerCallback {
    pub on_move: Vec<usize>,
    pub on_in: Vec<usize>,
    pub on_out: Vec<usize>,
    pub on_down: Vec<usize>,
    pub on_up: Vec<usize>,
}

/// The handler ids of the list of an event.
pub open spec fn handlers_of(c: PointerCallback, event: PointerEventType) -> Seq<usize> {
    match event {
        PointerEventType::Move => c.on_move@,
        PointerEventType::In => c.on_in@,
        PointerEventType::Out => c.on_out@,
        PointerEventType::Down => c.on_down@,
        PointerEventType::Up => c.on_up@,
    }
}

/// Whether a handler id differs from `id`.
pub open spec fn other_than(id: usize) -> spec_fn(usize) -> bool {
    |x: usize| x != id
}

/// The handler ids other than `id`.
pub open spec fn without(s: Seq<usize>, id: usize) -> Seq<usize> {
    s.filter(other_than(id))
}

impl PointerCallback {
    /// No handler.
    pub fn new() -> (r: PointerCallback)
        ensures
            forall|e: PointerEventType| handlers_of(r, e) == Seq::<usize>::empty(),
    {
        PointerCallback {
            on_move: Vec::new(),
            on_in: Vec::new(),
            on_out: Vec::new(),
            on_down: Vec::new(),
            on_up: Vec::new(),
        }
    }

    /// The handler ids of an event, in registration order.
    pub fn handlers(&self, event: PointerEventType) -> (r: &Vec<usize>)
        ensures
            r@ == handlers_of(*self, event),
    {
        match event {
            PointerEventType::Move => &self.on_move,
            PointerEventType::In => &self.on_in,
            PointerEventType::Out => &self.on_out,
            PointerEventType::Down => &self.on_down,
            PointerEventType::Up => &self.on_up,
        }
    }

    /// Registers a handler id for an event.
    pub fn insert(&mut self, event: PointerEventType, id: usize)
        ensures
            handlers_of(*final(self), event) == handlers_of(*old(self), event).push(id),
            forall|e: PointerEventType| e != event ==> handlers_of(*final(self), e) == handlers_of(*old(self), e),
    {
        match event {
            PointerEventType::Move => self.on_move.push(id),
            PointerEventType::In => self.on_in.push(id),
            PointerEventType::Out => self.on_out.push(id),
            PointerEventType::Down => self.on_down.push(id),
            PointerEventType::Up => self.on_up.push(id),
        }
    }

    /// Removes a handler id from every event.
    pub fn remove(&mut self, id: usize)
        ensures
            forall|e: PointerEventType| handlers_of(*final(self), e) == without(handlers_of(*old(self), e), id),
    {
        self.on_move = remove_id(&self.on_move, id);
        self.on_in = remove_id(&self.on_in, id);
        self.on_out = remove_id(&self.on_out, id);
        self.on_down = remove_id(&self.on_down, id);
        self.on_up = remove_id(&self.on_up, id);
    }

    /// Removes every handler.
    pub fn clear(&mut self)
        ensures
            forall|e: PointerEventType| handlers_of(*final(self), e) == Seq::<usize>::empty(),
    {
        self.on_move = Vec::new();
        self.on_in = Vec::new();
        self.on_out = Vec::new();
        self.on_down = Vec::new();
        self.on_up = Vec::new();
    }
}

/// The ids of the list other than `id`, in order.
fn remove_id(s: &Vec<usize>, id: usize) -> (r: Vec<usize>)
    ensures
        r@ == without(s@, id),
{
    let ghost pred = other_than(id);
    let mut r: Vec<usize> = Vec::new();
    let mut k: usize = 0;
    assert(s@.take(0) =~= Seq::<usize>::empty());
    assert(s@.take(0).filter(pred) =~= Seq::<usize>::empty()) by {
        reveal(Seq::filter);
    }
    while k < s.len()
        invariant
            0 <= k <= s.len(),
            r@ == s@.take(k as int).filter(pred),
            pred == other_than(id),
        decreases s.len() - k,
    {
        let x = s[k];
        proof {
            assert(s@.take(k + 1) =~= s@.take(k as int).push(x));
            s@.take(k as int).lemma_filter_push(x, pred);
        }
        if x != id {
            r.push(x);
        }
        k = k + 1;
    }
    assert(s@.take(s.len() as int) =~= s@);
    r
}

/// The outcome of a hover change: the node now hovered, the node the pointer
/// entered (if the hovered node changed to a node) and the node it left (if
/// a node was hovered before and is no longer).
#[derive(Clone, Copy, Debug, PartialEq, Eq, Structural)]
pub struct HoverChange {
    pub hovered: Option<usize>,
    pub entered: Option<usize>,
    pub exited: Option<usize>,
}

/// The hover change from `old` to `new`.
pub open spec fn hover_change_spec(old: Option<usize>, new: Option<usize>) -> HoverChange {
    match new {
        Some(n) => HoverChange {
            hovered: new,
            entered: if old != new { new } else { None },
            exited: if old != new { old } else { None },
        },
        None => HoverChange { hovered: None, entered: None, exited: old },
    }
}

/// The hover change when the pointer moves from over `old` to over `new`.
pub fn hover_change(old: Option<usize>, new: Option<usize>) -> (r: HoverChange)
    ensures
        r == hover_change_spec(old, new),
{
    match new {
        Some(n) => {
            let changed = match old {
                Some(o) => o != n,
                None => true,
            };
            if changed {
                HoverChange { hovered: new, entered: new, exited: old }
            } else {
                HoverChange { hovered: new, entered: None, exited: None }
            }
        },
        None => HoverChange { hovered: None, entered: None, exited: old },
    }
}

/// A node is entered exactly when the hovered node changes to it, and the
/// previously hovered node is left exactly when the hovered node changes;
/// moving twice over the same node enters it at most once.
pub proof fn law_hover_enter_exit(old: Option<usize>, new: Option<usize>)
    ensures
        hover_change_spec(old, new).hovered == new,
        hover_change_spec(old, new).entered is Some <==> (new is Some && old != new),
        hover_change_spec(old, new).exited is Some <==> (old is Some && old != new),
        hover_change_spec(old, new).entered is Some ==> hover_change_spec(old, new).entered == new,
        hover_change_spec(old, new).exited is Some ==> hover_change_spec(old, new).exited == old,
        hover_change_spec(new, new).entered is None && hover_change_spec(new, new).exited is None,
{
}

} // verus!
