//! One step of the pending property changes of the entity store: for each
//! change, which progress applies to it and whether it is done.
use vstd::prelude::*;
use std::collections::HashMap;

verus! {

broadcast use vstd::std_specs::hash::group_hash_axioms;

/// A pending change of a property.
#[derive(Clone, Copy, Debug, PartialEq, Eq, Structural)]
pub struct PendingChange {
    pub id: usize,
    pub animation_id: Option<usize>,
    pub needs_repaint: bool,
}

/// Where the progress applied to a change comes from.
#[derive(Clone, Copy, Debug, PartialEq, Eq, Structural)]
pub enum Progress {
    /// The change is applied in full.
    Complete,
    /// The change is applied at the current value of this animation.
    Animation(usize),
}

/// What one step does with a change.
#[derive(Clone, Copy, Debug, PartialEq, Eq, Structural)]
pub struct ChangeStep {
    pub id: usize,
    pub progress: Progress,
    pub repaint: bool,
    pub done: bool,
}

/// The step of change `c`, given whether each stored animation is done: a
/// change on a stored animation follows it, any other is applied in full
/// and is done.
pub open spec fn step_of(c: PendingChange, animations: Map<usize, bool>) -> ChangeStep {
    match c.animation_id {
        Some(a) => if animations.contains_key(a) {
            ChangeStep { id: c.id, progress: Progress::Animation(a), repaint: c.needs_repaint, done: animations[a] }
        } else {
            ChangeStep { id: c.id, progress: Progress::Complete, repaint: c.needs_repaint, done: true }
        },
        None => ChangeStep { id: c.id, progress: Progress::Complete, repaint: c.needs_repaint, done: true },
    }
}

/// The ids of the changes of `s` that are done after the step, in order.
pub open spec fn done_ids(s: Seq<PendingChange>, animations: Map<usize, bool>) -> Seq<usize>
    decreases s.len(),
{
    if s.len() == 0 {
        Seq::empty()
    } else {
        let rest = done_ids(s.drop_last(), animations);
        if step_of(s.last(), animations).done {
            rest.push(s.last().id)
        } else {
            rest
        }
    }
}

/// Steps every pending change: returns the step of each, in order, and the
/// ids of those that are done.
pub fn execute_commands(
    commands: &Vec<PendingChange>,
    animations: &HashMap<usize, bool>,
) -> (r: (Vec<ChangeStep>, Vec<usize>))
    ensures
        r.0@.len() == commands@.len(),
        forall|i: int| 0 <= i < commands@.len() ==> r.0@[i] == step_of(commands@[i], animations@),
        r.1@ == done_ids(commands@, animations@),
{
    let mut steps: Vec<ChangeStep> = Vec::new();
    let mut done: Vec<usize> = Vec::new();
    let mut i: usize = 0;
    while i < commands.len()
        invariant
            i <= commands@.len(),
            steps@.len() == i,
            forall|j: int| 0 <= j < i ==> steps@[j] == step_of(commands@[j], animations@),
            done@ == done_ids(commands@.subrange(0, i as int), animations@),
        decreases commands@.len() - i,
    {
        let c = commands[i];
        let step = match c.animation_id {
            Some(a) => match animations.get(&a) {
                Some(d) => ChangeStep { id: c.id, progress: Progress::Animation(a), repaint: c.needs_repaint, done: *d },
                None => ChangeStep { id: c.id, progress: Progress::Complete, repaint: c.needs_repaint, done: true },
            },
            None => ChangeStep { id: c.id, progress: Progress::Complete, repaint: c.needs_repaint, done: true },
        };
        assert(step == step_of(c, animations@));
        steps.push(step);
        if step.done {
            done.push(c.id);
        }
        proof {
            let s = commands@.subrange(0, i + 1);
            assert(s.drop_last() =~= commands@.subrange(0, i as int));
            assert(s.last() == c);
        }
        i = i + 1;
    }
    assert(commands@.subrange(0, commands@.len() as int) =~= commands@);
    (steps, done)
}

} // verus!
