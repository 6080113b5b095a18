//! Animation bookkeeping: which animations are running, have started, or are
//! done. The timing of an animation (its curve and clock) is evaluated by the
//! caller, who reports for each animation whether its start time and its end
//! have been reached.
use vstd::prelude::*;
use crate::storage::{FlatStorage, next_index};

verus! {

/// The state of an animation.
#[derive(Clone, Copy, Debug, PartialEq, Eq, Structural)]
pub struct AnimationFlags {
    pub is_started: bool,
    pub is_running: bool,
    pub is_finished: bool,
}

/// What the clock says of an animation at the current time: whether its
/// start time is reached, and whether it is done.
#[derive(Clone, Copy, Debug, PartialEq, Eq, Structural)]
pub struct AnimationTick {
    pub id: usize,
    pub start_reached: bool,
    pub done: bool,
}

/// The state after a tick, for a running animation.
pub open spec fn tick_flags(f: AnimationFlags, t: AnimationTick) -> AnimationFlags {
    AnimationFlags {
        is_started: f.is_started || t.start_reached,
        is_running: !t.done,
        is_finished: f.is_finished || t.done,
    }
}

/// Whether the tick applies: the animation exists and is running.
pub open spec fn tick_applies(m: Map<usize, AnimationFlags>, t: AnimationTick) -> bool {
    m.contains_key(t.id) && m[t.id].is_running
}

/// The animations after the ticks, applied in order.
pub open spec fn apply_ticks(m: Map<usize, AnimationFlags>, ticks: Seq<AnimationTick>) -> Map<usize, AnimationFlags>
    decreases ticks.len(),
{
    if ticks.len() == 0 {
        m
    } else {
        let m0 = apply_ticks(m, ticks.drop_last());
        let t = ticks.last();
        if tick_applies(m0, t) {
            m0.insert(t.id, tick_flags(m0[t.id], t))
        } else {
            m0
        }
    }
}

/// The animations that started in the ticks, in order.
pub open spec fn started_in(m: Map<usize, AnimationFlags>, ticks: Seq<AnimationTick>) -> Seq<usize>
    decreases ticks.len(),
{
    if ticks.len() == 0 {
        seq![]
    } else {
        let m0 = apply_ticks(m, ticks.drop_last());
        let t = ticks.last();
        started_in(m, ticks.drop_last()) + if tick_applies(m0, t) && !m0[t.id].is_started
            && t.start_reached {
            seq![t.id]
        } else {
            seq![]
        }
    }
}

/// The animations that finished in the ticks, in order.
pub open spec fn finished_in(m: Map<usize, AnimationFlags>, ticks: Seq<AnimationTick>) -> Seq<usize>
    decreases ticks.len(),
{
    if ticks.len() == 0 {
        seq![]
    } else {
        let m0 = apply_ticks(m, ticks.drop_last());
        let t = ticks.last();
        finished_in(m, ticks.drop_last()) + if tick_applies(m0, t) && t.done {
            seq![t.id]
        } else {
            seq![]
        }
    }
}

/// The ticks change no animation's presence, and never unmark a started
/// one; an animation reported as started was present and not yet started
/// before the ticks, and is started after them; and no animation is
/// reported as started twice.
pub proof fn lemma_started_once(m: Map<usize, AnimationFlags>, ticks: Seq<AnimationTick>)
    ensures
        apply_ticks(m, ticks).dom() == m.dom(),
        forall|id: usize| #[trigger] m.contains_key(id) && m[id].is_started ==> apply_ticks(m, ticks)[id].is_started,
        forall|id: usize| #[trigger] started_in(m, ticks).contains(id) ==> m.contains_key(id) && !m[id].is_started
            && apply_ticks(m, ticks)[id].is_started,
        started_in(m, ticks).no_duplicates(),
    decreases ticks.len(),
{
    if ticks.len() > 0 {
        let pre = ticks.drop_last();
        lemma_started_once(m, pre);
        let m0 = apply_ticks(m, pre);
        let t = ticks.last();
        let s0 = started_in(m, pre);
        let tail: Seq<usize> = if tick_applies(m0, t) && !m0[t.id].is_started && t.start_reached {
            seq![t.id]
        } else {
            seq![]
        };
        let s1 = started_in(m, ticks);
        assert(s1 == s0 + tail);
        let m1 = apply_ticks(m, ticks);
        assert(m1.dom() =~= m.dom());
        assert forall|id: usize| #[trigger] s1.contains(id) implies m.contains_key(id) && !m[id].is_started
            && m1[id].is_started by {
            let j = choose|j: int| 0 <= j < s1.len() && s1[j] == id;
            if j < s0.len() {
                assert(s0[j] == id);
                assert(s0.contains(id));
            } else {
                assert(tail.len() == 1 && id == t.id);
                if m.contains_key(id) && m[id].is_started {
                    assert(m0[id].is_started);
                }
            }
        }
        if tail.len() == 1 {
            if s0.contains(t.id) {
                assert(m0[t.id].is_started);
            }
        }
        assert(s1.no_duplicates()) by {
            assert forall|a: int, b: int| 0 <= a < s1.len() && 0 <= b < s1.len() && a != b implies s1[a] != s1[b] by {
                if a < s0.len() && b < s0.len() {
                    assert(s0[a] == s1[a] && s0[b] == s1[b]);
                } else if a < s0.len() {
                    assert(s0[a] == s1[a]);
                    assert(s0.contains(s1[a]));
                } else if b < s0.len() {
                    assert(s0[b] == s1[b]);
                    assert(s0.contains(s1[b]));
                }
            }
        }
    }
}

/// An update reports an animation as started at most once, and never one
/// that had already started: an animation started before the ticks is not
/// in the started list, no id is in it twice, and every id in it is started
/// after the ticks. So a second update never reports again an animation
/// the first one reported.
pub proof fn law_started_only_once(m: Map<usize, AnimationFlags>, ticks: Seq<AnimationTick>, later: Seq<AnimationTick>, id: usize)
    ensures
        m.contains_key(id) && m[id].is_started ==> !started_in(m, ticks).contains(id),
        started_in(m, ticks).no_duplicates(),
        started_in(m, ticks).contains(id) ==> !started_in(apply_ticks(m, ticks), later).contains(id),
{
    lemma_started_once(m, ticks);
    lemma_started_once(apply_ticks(m, ticks), later);
}

/// An animation reported as finished was present and running before the
/// ticks, and is finished and no longer running after them; a stopped
/// animation stays stopped; and no animation is reported as finished twice.
pub proof fn law_finished_once(m: Map<usize, AnimationFlags>, ticks: Seq<AnimationTick>)
    ensures
        apply_ticks(m, ticks).dom() == m.dom(),
        forall|id: usize| #[trigger] m.contains_key(id) && !m[id].is_running ==> apply_ticks(m, ticks)[id] == m[id],
        forall|id: usize| #[trigger] finished_in(m, ticks).contains(id) ==> m.contains_key(id) && m[id].is_running
            && apply_ticks(m, ticks)[id].is_finished && !apply_ticks(m, ticks)[id].is_running,
        finished_in(m, ticks).no_duplicates(),
    decreases ticks.len(),
{
    if ticks.len() > 0 {
        let pre = ticks.drop_last();
        law_finished_once(m, pre);
        let m0 = apply_ticks(m, pre);
        let t = ticks.last();
        let s0 = finished_in(m, pre);
        let tail: Seq<usize> = if tick_applies(m0, t) && t.done {
            seq![t.id]
        } else {
            seq![]
        };
        let s1 = finished_in(m, ticks);
        assert(s1 == s0 + tail);
        let m1 = apply_ticks(m, ticks);
        assert(m1.dom() =~= m.dom());
        assert forall|id: usize| #[trigger] s1.contains(id) implies m.contains_key(id) && m[id].is_running
            && m1[id].is_finished && !m1[id].is_running by {
            let j = choose|j: int| 0 <= j < s1.len() && s1[j] == id;
            if j < s0.len() {
                assert(s0[j] == id);
                assert(s0.contains(id));
            } else {
                assert(tail.len() == 1 && id == t.id);
                if m.contains_key(id) && !m[id].is_running {
                    assert(m0[id] == m[id]);
                }
            }
        }
        if tail.len() == 1 {
            if s0.contains(t.id) {
                assert(!m0[t.id].is_running);
            }
        }
        assert(s1.no_duplicates()) by {
            assert forall|a: int, b: int| 0 <= a < s1.len() && 0 <= b < s1.len() && a != b implies s1[a] != s1[b] by {
                if a < s0.len() && b < s0.len() {
                    assert(s0[a] == s1[a] && s0[b] == s1[b]);
                } else if a < s0.len() {
                    assert(s0[a] == s1[a]);
                    assert(s0.contains(s1[a]));
                } else if b < s0.len() {
                    assert(s0[b] == s1[b]);
                    assert(s0.contains(s1[b]));
                }
            }
        }
    }
}

/// The animations of an engine.
pub struct Animations {
    pub storage: FlatStorage<AnimationFlags>,
}

impl Animations {
    /// The animations by id.
    pub open spec fn view(&self) -> Map<usize, AnimationFlags> {
        self.storage.view()
    }

    /// No animation.
    pub fn new() -> (r: Animations)
        ensures
            r.view() == Map::<usize, AnimationFlags>::empty(),
            r.storage.next_id() == 0,
    {
        Animations { storage: FlatStorage::new() }
    }

    /// Adds an animation, running at once when `autostart` holds.
    pub fn add_animation(&mut self, autostart: bool) -> (id: usize)
        ensures
            id == old(self).storage.next_id(),
            final(self).storage.next_id() == next_index(old(self).storage.next_id()),
            final(self).view() == old(self).view().insert(
                id,
                AnimationFlags { is_started: false, is_running: autostart, is_finished: false },
            ),
    {
        self.storage.insert(AnimationFlags { is_started: false, is_running: autostart, is_finished: false })
    }

    /// The state of an animation.
    pub fn get(&self, id: usize) -> (r: Option<AnimationFlags>)
        ensures
            r == (if self.view().contains_key(id) {
                Some(self.view()[id])
            } else {
                None
            }),
    {
        match self.storage.get(id) {
            Some(f) => Some(*f),
            None => None,
        }
    }

    /// Restarts an animation: it runs again and is no longer finished.
    pub fn start_animation(&mut self, id: usize)
        ensures
            final(self).storage.next_id() == old(self).storage.next_id(),
            old(self).view().contains_key(id) ==> final(self).view() == old(self).view().insert(
                id,
                AnimationFlags { is_running: true, is_finished: false, ..old(self).view()[id] },
            ),
            !old(self).view().contains_key(id) ==> final(self).view() == old(self).view(),
    {
        match self.get(id) {
            Some(f) => {
                self.storage.insert_with_id(
                    AnimationFlags { is_running: true, is_finished: false, ..f },
                    id,
                );
            },
            None => {},
        }
    }

    /// Removes an animation.
    pub fn cancel_animation(&mut self, id: usize)
        ensures
            final(self).storage.next_id() == old(self).storage.next_id(),
            final(self).view() == old(self).view().remove(id),
    {
        self.storage.remove_at(id);
    }

    /// Removes the finished animations listed.
    pub fn cleanup_animations(&mut self, finished: &Vec<usize>)
        ensures
            final(self).storage.next_id() == old(self).storage.next_id(),
            final(self).view() == old(self).view().remove_keys(finished@.to_set()),
    {
        let mut k: usize = 0;
        while k < finished.len()
            invariant
                0 <= k <= finished.len(),
                self.storage.next_id() == old(self).storage.next_id(),
                self.view() == old(self).view().remove_keys(finished@.take(k as int).to_set()),
            decreases finished.len() - k,
        {
            self.storage.remove_at(finished[k]);
            proof {
                assert(finished@.take(k + 1) =~= finished@.take(k as int).push(finished@[k as int]));
                finished@.take(k as int).lemma_push_to_set_commute(finished@[k as int]);
            }
            assert(self.view() =~= old(self).view().remove_keys(finished@.take(k + 1).to_set()));
            k = k + 1;
        }
        assert(finished@.take(finished.len() as int) =~= finished@);
    }

    /// Advances the running animations by the ticks, in order. An animation
    /// whose start time is reached is marked started (once); one that is done
    /// stops running and is marked finished. Returns the animations that
    /// started and those that finished.
    pub fn update_animations(&mut self, ticks: &Vec<AnimationTick>) -> (r: (Vec<usize>, Vec<usize>))
        ensures
            final(self).storage.next_id() == old(self).storage.next_id(),
            final(self).view() == apply_ticks(old(self).view(), ticks@),
            r.0@ == started_in(old(self).view(), ticks@),
            r.1@ == finished_in(old(self).view(), ticks@),
            r.0@.no_duplicates(),
            forall|id: usize| #[trigger] old(self).view().contains_key(id) && old(self).view()[id].is_started
                ==> !r.0@.contains(id),
    {
        proof {
            lemma_started_once(old(self).view(), ticks@);
        }
        let ghost m = old(self).view();
        let mut started: Vec<usize> = Vec::new();
        let mut finished: Vec<usize> = Vec::new();
        let mut k: usize = 0;
        assert(ticks@.take(0) =~= Seq::<AnimationTick>::empty());
        while k < ticks.len()
            invariant
                0 <= k <= ticks.len(),
                m == old(self).view(),
                self.storage.next_id() == old(self).storage.next_id(),
                self.view() == apply_ticks(m, ticks@.take(k as int)),
                started@ == started_in(m, ticks@.take(k as int)),
                finished@ == finished_in(m, ticks@.take(k as int)),
            decreases ticks.len() - k,
        {
            let t = ticks[k];
            proof {
                assert(ticks@.take(k + 1).drop_last() =~= ticks@.take(k as int));
                assert(ticks@.take(k + 1).last() == t);
            }
            match self.get(t.id) {
                Some(f) => {
                    if f.is_running {
                        if !f.is_started && t.start_reached {
                            started.push(t.id);
                        }
                        let nf = AnimationFlags {
                            is_started: f.is_started || t.start_reached,
                            is_running: !t.done,
                            is_finished: f.is_finished || t.done,
                        };
                        if t.done {
                            finished.push(t.id);
                        }
                        self.storage.insert_with_id(nf, t.id);
                    }
                },
                None => {},
            }
            assert(started@ =~= started_in(m, ticks@.take(k + 1)));
            assert(finished@ =~= finished_in(m, ticks@.take(k + 1)));
            k = k + 1;
        }
        assert(ticks@.take(ticks.len() as int) =~= ticks@);
        (started, finished)
    }
}

} // verus!
