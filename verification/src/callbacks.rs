//! Callback registries of transactions, values and animations, and the
//! decision of which callbacks fire on an update and which are dropped
//! after firing. The callback closures themselves are kept by the caller,
//! by id.
use vstd::prelude::*;

verus! {

/// A registered callback: its id, and whether it is dropped once it fired.
#[derive(Clone, Copy, Debug, PartialEq, Eq, Structural)]
pub struct CallbackRecord {
    pub id: usize,
    pub once: bool,
}

/// The event a callback listens to.
#[derive(Clone, Copy, Debug, PartialEq, Eq, Structural)]
pub enum TransactionEventType {
    Start,
    Update,
    Finish,
}

/// The callbacks registered for one transaction, value or animation.
#[derive(Clone, Debug)]
pub struct Callbacks {
    pub on_start: Vec<CallbackRecord>,
    pub on_update: Vec<CallbackRecord>,
    pub on_finish: Vec<CallbackRecord>,
}

/// Where a fired callback was registered.
#[derive(Clone, Copy, Debug, PartialEq, Eq, Structural)]
pub enum CallbackSource {
    Transaction,
    Value,
}

/// The progress a fired callback is called with: the animation's time, or
/// the complete value 1.
#[derive(Clone, Copy, Debug, PartialEq, Eq, Structural)]
pub enum CallbackArg {
    Time,
    Complete,
}

/// One callback to call.
#[derive(Clone, Copy, Debug, PartialEq, Eq, Structural)]
pub struct Invocation {
    pub id: usize,
    pub source: CallbackSource,
    pub arg: CallbackArg,
}

/// The model of a callback set: the three lists.
pub struct CallbacksView {
    pub on_start: Seq<CallbackRecord>,
    pub on_update: Seq<CallbackRecord>,
    pub on_finish: Seq<CallbackRecord>,
}

/// The callbacks other than `id`.
pub open spec fn without_id(s: Seq<CallbackRecord>, id: usize) -> Seq<CallbackRecord> {
    s.filter(|r: CallbackRecord| r.id != id)
}

/// The callbacks that are not dropped after firing.
pub open spec fn persistent(s: Seq<CallbackRecord>) -> Seq<CallbackRecord> {
    s.filter(|r: CallbackRecord| !r.once)
}

/// The callbacks that are dropped after firing.
pub open spec fn once_only(s: Seq<CallbackRecord>) -> Seq<CallbackRecord> {
    s.filter(|r: CallbackRecord| r.once)
}

/// Calling each callback of the list, in order.
pub open spec fn fire(s: Seq<CallbackRecord>, source: CallbackSource, arg: CallbackArg) -> Seq<Invocation> {
    s.map_values(|r: CallbackRecord| Invocation { id: r.id, source, arg })
}

impl Callbacks {
    /// The three lists.
    pub open spec fn view(&self) -> CallbacksView {
        CallbacksView { on_start: self.on_start@, on_update: self.on_update@, on_finish: self.on_finish@ }
    }

    /// No callback.
    pub fn new() -> (r: Callbacks)
        ensures
            r.on_start@ == Seq::<CallbackRecord>::empty(),
            r.on_update@ == Seq::<CallbackRecord>::empty(),
            r.on_finish@ == Seq::<CallbackRecord>::empty(),
    {
        Callbacks { on_start: Vec::new(), on_update: Vec::new(), on_finish: Vec::new() }
    }

    /// Adds a callback to the list of an event.
    pub fn push(&mut self, event: TransactionEventType, handler: CallbackRecord)
        ensures
            event == TransactionEventType::Start ==> final(self).on_start@ == old(self).on_start@.push(handler)
                && final(self).on_update@ == old(self).on_update@ && final(self).on_finish@ == old(self).on_finish@,
            event == TransactionEventType::Update ==> final(self).on_update@ == old(self).on_update@.push(handler)
                && final(self).on_start@ == old(self).on_start@ && final(self).on_finish@ == old(self).on_finish@,
            event == TransactionEventType::Finish ==> final(self).on_finish@ == old(self).on_finish@.push(handler)
                && final(self).on_start@ == old(self).on_start@ && final(self).on_update@ == old(self).on_update@,
    {
        match event {
            TransactionEventType::Start => self.on_start.push(handler),
            TransactionEventType::Update => self.on_update.push(handler),
            TransactionEventType::Finish => self.on_finish.push(handler),
        }
    }

    /// Removes every callback with this id, from all three lists.
    pub fn remove(&mut self, id: usize)
        ensures
            final(self).on_start@ == without_id(old(self).on_start@, id),
            final(self).on_update@ == without_id(old(self).on_update@, id),
            final(self).on_finish@ == without_id(old(self).on_finish@, id),
    {
        self.on_start = retain_other(&self.on_start, id);
        self.on_update = retain_other(&self.on_update, id);
        self.on_finish = retain_other(&self.on_finish, id);
    }

    /// Drops the callbacks registered to fire once.
    pub fn cleanup_once_callbacks(&mut self)
        ensures
            final(self).on_start@ == persistent(old(self).on_start@),
            final(self).on_update@ == persistent(old(self).on_update@),
            final(self).on_finish@ == persistent(old(self).on_finish@),
    {
        self.on_start = retain_persistent(&self.on_start);
        self.on_update = retain_persistent(&self.on_update);
        self.on_finish = retain_persistent(&self.on_finish);
    }
}

/// The callbacks of the list other than `id`, in order.
fn retain_other(s: &Vec<CallbackRecord>, id: usize) -> (r: Vec<CallbackRecord>)
    ensures
        r@ == without_id(s@, id),
{
    let ghost pred = |r: CallbackRecord| r.id != id;
    let mut r: Vec<CallbackRecord> = Vec::new();
    let mut k: usize = 0;
    assert(s@.take(0) =~= Seq::<CallbackRecord>::empty());
    assert(s@.take(0).filter(pred) =~= Seq::<CallbackRecord>::empty()) by {
        reveal(Seq::filter);
    }
    while k < s.len()
        invariant
            0 <= k <= s.len(),
            r@ == s@.take(k as int).filter(pred),
            pred == (|r: CallbackRecord| r.id != id),
        decreases s.len() - k,
    {
        let x = s[k];
        proof {
            assert(s@.take(k + 1) =~= s@.take(k as int).push(x));
            s@.take(k as int).lemma_filter_push(x, pred);
        }
        if x.id != id {
            r.push(x);
        }
        k = k + 1;
    }
    assert(s@.take(s.len() as int) =~= s@);
    r
}

/// The callbacks of the list that are not dropped after firing, in order.
fn retain_persistent(s: &Vec<CallbackRecord>) -> (r: Vec<CallbackRecord>)
    ensures
        r@ == persistent(s@),
{
    let ghost pred = |r: CallbackRecord| !r.once;
    let mut r: Vec<CallbackRecord> = Vec::new();
    let mut k: usize = 0;
    assert(s@.take(0) =~= Seq::<CallbackRecord>::empty());
    assert(s@.take(0).filter(pred) =~= Seq::<CallbackRecord>::empty()) by {
        reveal(Seq::filter);
    }
    while k < s.len()
        invariant
            0 <= k <= s.len(),
            r@ == s@.take(k as int).filter(pred),
            pred == (|r: CallbackRecord| !r.once),
        decreases s.len() - k,
    {
        let x = s[k];
        proof {
            assert(s@.take(k + 1) =~= s@.take(k as int).push(x));
            s@.take(k as int).lemma_filter_push(x, pred);
        }
        if !x.once {
            r.push(x);
        }
        k = k + 1;
    }
    assert(s@.take(s.len() as int) =~= s@);
    r
}

/// Appends the calls of each callback of `s` to `calls`, and the callbacks
/// registered to fire once to `dropped`.
fn fire_list(
    s: &Vec<CallbackRecord>,
    source: CallbackSource,
    arg: CallbackArg,
    calls: &mut Vec<Invocation>,
    dropped: &mut Vec<CallbackRecord>,
)
    ensures
        final(calls)@ == old(calls)@ + fire(s@, source, arg),
        final(dropped)@ == old(dropped)@ + once_only(s@),
{
    let ghost pred = |r: CallbackRecord| r.once;
    let ghost f = |r: CallbackRecord| Invocation { id: r.id, source, arg };
    let ghost c0 = calls@;
    let ghost d0 = dropped@;
    let mut k: usize = 0;
    assert(s@.take(0) =~= Seq::<CallbackRecord>::empty());
    assert(s@.take(0).filter(pred) =~= Seq::<CallbackRecord>::empty()) by {
        reveal(Seq::filter);
    }
    assert(calls@ =~= c0 + s@.take(0).map_values(f));
    assert(dropped@ =~= d0 + s@.take(0).filter(pred));
    while k < s.len()
        invariant
            0 <= k <= s.len(),
            calls@ == c0 + s@.take(k as int).map_values(f),
            dropped@ == d0 + s@.take(k as int).filter(pred),
            pred == (|r: CallbackRecord| r.once),
            f == (|r: CallbackRecord| Invocation { id: r.id, source, arg }),
        decreases s.len() - k,
    {
        let x = s[k];
        proof {
            assert(s@.take(k + 1) =~= s@.take(k as int).push(x));
            s@.take(k as int).lemma_filter_push(x, pred);
        }
        calls.push(Invocation { id: x.id, source, arg });
        if x.once {
            dropped.push(x);
        }
        assert(calls@ =~= c0 + s@.take(k + 1).map_values(f));
        assert(dropped@ =~= d0 + s@.take(k + 1).filter(pred));
        k = k + 1;
    }
    assert(s@.take(s.len() as int) =~= s@);
}

/// The calls made on an update for a transaction whose animation is running
/// (`is_running`) or done (`is_finished`), given the callbacks of the
/// transaction (`tr`) and of its value (`v`); `started` tells whether the
/// animation started in this update.
pub open spec fn callback_calls(
    is_running: bool,
    is_finished: bool,
    started: bool,
    tr: CallbacksView,
    v: CallbacksView,
) -> Seq<Invocation> {
    if is_running {
        (if started {
            fire(tr.on_start, CallbackSource::Transaction, CallbackArg::Time) + fire(
                v.on_start,
                CallbackSource::Value,
                CallbackArg::Time,
            )
        } else {
            Seq::empty()
        }) + fire(tr.on_update, CallbackSource::Transaction, CallbackArg::Time) + fire(
            v.on_update,
            CallbackSource::Value,
            CallbackArg::Time,
        )
    } else if is_finished {
        fire(tr.on_update, CallbackSource::Transaction, CallbackArg::Complete) + fire(
            v.on_update,
            CallbackSource::Value,
            CallbackArg::Time,
        ) + fire(tr.on_finish, CallbackSource::Transaction, CallbackArg::Complete) + fire(
            v.on_finish,
            CallbackSource::Value,
            CallbackArg::Time,
        )
    } else {
        Seq::empty()
    }
}

/// The callbacks of one set that fired and are registered to fire once.
pub open spec fn fired_once(is_running: bool, is_finished: bool, started: bool, c: CallbacksView) -> Seq<CallbackRecord> {
    if is_running {
        (if started {
            once_only(c.on_start)
        } else {
            Seq::empty()
        }) + once_only(c.on_update)
    } else if is_finished {
        once_only(c.on_update) + once_only(c.on_finish)
    } else {
        Seq::empty()
    }
}

/// The outcome of an update for one transaction: the calls to make, in
/// order, and the callbacks of the transaction and of the value to drop.
pub struct CallbackPlan {
    pub calls: Vec<Invocation>,
    pub transaction_dropped: Vec<CallbackRecord>,
    pub value_dropped: Vec<CallbackRecord>,
}

/// Decides which callbacks of a transaction (`tr`) and of its value (`v`)
/// fire, with which progress, and which are dropped because they were
/// registered to fire once.
pub fn transaction_callbacks(
    is_running: bool,
    is_finished: bool,
    started: bool,
    tr: &Callbacks,
    v: &Callbacks,
) -> (r: CallbackPlan)
    ensures
        r.calls@ == callback_calls(is_running, is_finished, started, tr.view(), v.view()),
        r.transaction_dropped@ == fired_once(is_running, is_finished, started, tr.view()),
        r.value_dropped@ == fired_once(is_running, is_finished, started, v.view()),
{
    let mut calls: Vec<Invocation> = Vec::new();
    let mut tr_drop: Vec<CallbackRecord> = Vec::new();
    let mut v_drop: Vec<CallbackRecord> = Vec::new();
    if is_running {
        if started {
            fire_list(&tr.on_start, CallbackSource::Transaction, CallbackArg::Time, &mut calls, &mut tr_drop);
            fire_list(&v.on_start, CallbackSource::Value, CallbackArg::Time, &mut calls, &mut v_drop);
        }
        fire_list(&tr.on_update, CallbackSource::Transaction, CallbackArg::Time, &mut calls, &mut tr_drop);
        fire_list(&v.on_update, CallbackSource::Value, CallbackArg::Time, &mut calls, &mut v_drop);
    } else if is_finished {
        fire_list(&tr.on_update, CallbackSource::Transaction, CallbackArg::Complete, &mut calls, &mut tr_drop);
        fire_list(&v.on_update, CallbackSource::Value, CallbackArg::Time, &mut calls, &mut v_drop);
        fire_list(&tr.on_finish, CallbackSource::Transaction, CallbackArg::Complete, &mut calls, &mut tr_drop);
        fire_list(&v.on_finish, CallbackSource::Value, CallbackArg::Time, &mut calls, &mut v_drop);
    }
    assert(calls@ =~= callback_calls(is_running, is_finished, started, tr.view(), v.view()));
    assert(tr_drop@ =~= fired_once(is_running, is_finished, started, tr.view()));
    assert(v_drop@ =~= fired_once(is_running, is_finished, started, v.view()));
    CallbackPlan { calls, transaction_dropped: tr_drop, value_dropped: v_drop }
}


/// No callback.
pub open spec fn empty_view() -> CallbacksView {
    CallbacksView { on_start: Seq::empty(), on_update: Seq::empty(), on_finish: Seq::empty() }
}

/// The callback set with `handler` added to the list of `event`.
pub open spec fn pushed_view(c: CallbacksView, event: TransactionEventType, handler: CallbackRecord) -> CallbacksView {
    match event {
        TransactionEventType::Start => CallbacksView { on_start: c.on_start.push(handler), ..c },
        TransactionEventType::Update => CallbacksView { on_update: c.on_update.push(handler), ..c },
        TransactionEventType::Finish => CallbacksView { on_finish: c.on_finish.push(handler), ..c },
    }
}

/// The callback set without the callbacks registered to fire once.
pub open spec fn persistent_view(c: CallbacksView) -> CallbacksView {
    CallbacksView {
        on_start: persistent(c.on_start),
        on_update: persistent(c.on_update),
        on_finish: persistent(c.on_finish),
    }
}

/// The list without the callbacks whose ids are those of `dropped`.
pub open spec fn without_ids(s: Seq<CallbackRecord>, dropped: Seq<CallbackRecord>) -> Seq<CallbackRecord>
    decreases dropped.len(),
{
    if dropped.len() == 0 {
        s
    } else {
        without_id(without_ids(s, dropped.drop_last()), dropped.last().id)
    }
}

/// The callback set without the callbacks whose ids are those of `dropped`.
pub open spec fn dropped_view(c: CallbacksView, dropped: Seq<CallbackRecord>) -> CallbacksView {
    CallbacksView {
        on_start: without_ids(c.on_start, dropped),
        on_update: without_ids(c.on_update, dropped),
        on_finish: without_ids(c.on_finish, dropped),
    }
}

impl Callbacks {
    /// Removes every callback whose id is that of one of `dropped`.
    pub fn remove_all(&mut self, dropped: &Vec<CallbackRecord>)
        ensures
            final(self).view() == dropped_view(old(self).view(), dropped@),
    {
        let mut k: usize = 0;
        assert(dropped@.take(0) =~= Seq::<CallbackRecord>::empty());
        while k < dropped.len()
            invariant
                0 <= k <= dropped.len(),
                self.view() == dropped_view(old(self).view(), dropped@.take(k as int)),
            decreases dropped.len() - k,
        {
            proof {
                assert(dropped@.take(k + 1).drop_last() =~= dropped@.take(k as int));
            }
            self.remove(dropped[k].id);
            k = k + 1;
        }
        assert(dropped@.take(dropped.len() as int) =~= dropped@);
    }
}


/// A callback is kept by `without_ids` exactly when it was in the list and
/// none of `dropped` has its id.
pub proof fn lemma_without_ids_contains(s: Seq<CallbackRecord>, dropped: Seq<CallbackRecord>, x: CallbackRecord)
    ensures
        without_ids(s, dropped).contains(x) <==> (s.contains(x) && forall|j: int|
            0 <= j < dropped.len() ==> #[trigger] dropped[j].id != x.id),
    decreases dropped.len(),
{
    if dropped.len() > 0 {
        let d0 = dropped.drop_last();
        lemma_without_ids_contains(s, d0, x);
        let pred = |r: CallbackRecord| r.id != dropped.last().id;
        let w = without_ids(s, d0);
        if w.filter(pred).contains(x) {
            w.lemma_filter_contains_rev(pred, x);
        }
        if w.contains(x) && pred(x) {
            let i = choose|i: int| 0 <= i < w.len() && w[i] == x;
            w.lemma_filter_contains(pred, i);
        }
        if s.contains(x) && (forall|j: int| 0 <= j < dropped.len() ==> #[trigger] dropped[j].id != x.id) {
            assert forall|j: int| 0 <= j < d0.len() implies #[trigger] d0[j].id != x.id by {
                assert(d0[j] == dropped[j]);
            }
            assert(dropped[dropped.len() - 1].id != x.id);
        }
        if without_ids(s, dropped).contains(x) {
            assert forall|j: int| 0 <= j < dropped.len() implies #[trigger] dropped[j].id != x.id by {
                if j < dropped.len() - 1 {
                    assert(d0[j] == dropped[j]);
                }
            }
        }
    }
}

/// Every callback of a set, the three lists one after the other.
pub open spec fn all_records(c: CallbacksView) -> Seq<CallbackRecord> {
    c.on_start + c.on_update + c.on_finish
}

/// No two callbacks of the set share an id unless they are the same.
pub open spec fn ids_unique(c: CallbacksView) -> bool {
    forall|a: CallbackRecord, b: CallbackRecord|
        #![trigger all_records(c).contains(a), all_records(c).contains(b)]
        all_records(c).contains(a) && all_records(c).contains(b) && a.id == b.id ==> a == b
}

/// The callbacks of `once_only(s)` are those of `s` registered to fire once.
proof fn lemma_once_only_contains(s: Seq<CallbackRecord>, x: CallbackRecord)
    ensures
        once_only(s).contains(x) <==> s.contains(x) && x.once,
{
    let pred = |r: CallbackRecord| r.once;
    if once_only(s).contains(x) {
        s.lemma_filter_contains_rev(pred, x);
    }
    if s.contains(x) && x.once {
        let i = choose|i: int| 0 <= i < s.len() && s[i] == x;
        s.lemma_filter_contains(pred, i);
    }
}

/// A callback that fires and is registered to fire once is gone after the
/// update; a callback registered to stay is kept, in every list, whether it
/// fired or not. (Ids are those handed out by one counter, so no two
/// callbacks of a set share one.)
pub proof fn law_fired_once_dropped(
    is_running: bool,
    is_finished: bool,
    started: bool,
    c: CallbacksView,
    x: CallbackRecord,
)
    requires
        ids_unique(c),
    ensures
        ({
            let after = dropped_view(c, fired_once(is_running, is_finished, started, c));
            &&& fired_once(is_running, is_finished, started, c).contains(x) ==> x.once
                && !all_records(after).contains(x)
            &&& !x.once ==> (after.on_start.contains(x) <==> c.on_start.contains(x))
                && (after.on_update.contains(x) <==> c.on_update.contains(x))
                && (after.on_finish.contains(x) <==> c.on_finish.contains(x))
        }),
{
    let d = fired_once(is_running, is_finished, started, c);
    let after = dropped_view(c, d);
    lemma_once_only_contains(c.on_start, x);
    lemma_once_only_contains(c.on_update, x);
    lemma_once_only_contains(c.on_finish, x);
    lemma_without_ids_contains(c.on_start, d, x);
    lemma_without_ids_contains(c.on_update, d, x);
    lemma_without_ids_contains(c.on_finish, d, x);
    let all = all_records(c);
    assert forall|y: CallbackRecord| #[trigger] d.contains(y) implies y.once && all.contains(y) by {
        lemma_once_only_contains(c.on_start, y);
        lemma_once_only_contains(c.on_update, y);
        lemma_once_only_contains(c.on_finish, y);
        lemma_records_contains(c, y);
    }
    lemma_records_contains(c, x);
    lemma_records_contains(after, x);
    if d.contains(x) {
        let j = choose|j: int| 0 <= j < d.len() && d[j] == x;
        assert(d[j].id == x.id);
    }
    if !x.once {
        assert forall|j: int| 0 <= j < d.len() && all.contains(x) implies #[trigger] d[j].id != x.id by {
            assert(d.contains(d[j]));
            lemma_records_contains(c, d[j]);
        }
    }
}

/// A callback is in the set when it is in one of its three lists.
proof fn lemma_records_contains(c: CallbacksView, x: CallbackRecord)
    ensures
        all_records(c).contains(x) <==> c.on_start.contains(x) || c.on_update.contains(x) || c.on_finish.contains(x),
{
    let a = c.on_start;
    let b = c.on_update;
    let e = c.on_finish;
    if all_records(c).contains(x) {
        let i = choose|i: int| 0 <= i < all_records(c).len() && all_records(c)[i] == x;
        if i < a.len() {
            assert(a[i] == x);
        } else if i < a.len() + b.len() {
            assert(b[i - a.len()] == x);
        } else {
            assert(e[i - a.len() - b.len()] == x);
        }
    }
    if a.contains(x) {
        let i = choose|i: int| 0 <= i < a.len() && a[i] == x;
        assert(all_records(c)[i] == x);
    }
    if b.contains(x) {
        let i = choose|i: int| 0 <= i < b.len() && b[i] == x;
        assert(all_records(c)[a.len() + i] == x);
    }
    if e.contains(x) {
        let i = choose|i: int| 0 <= i < e.len() && e[i] == x;
        assert(all_records(c)[a.len() + b.len() + i] == x);
    }
}

/// The calls of a change whose animation runs: its start callbacks (of the
/// transaction, then of the value) are called only in the update where the
/// animation started, before the update callbacks; in any other update of a
/// running animation the calls are exactly the update callbacks of the
/// transaction, then of the value, with the animation's time, and only the
/// once-only update callbacks are dropped. No start callback is ever called
/// once the animation is done.
pub proof fn law_start_callbacks_fire_when_started(
    is_finished: bool,
    started: bool,
    tr: CallbacksView,
    v: CallbacksView,
)
    ensures
        !started ==> callback_calls(true, is_finished, false, tr, v) == fire(
            tr.on_update,
            CallbackSource::Transaction,
            CallbackArg::Time,
        ) + fire(v.on_update, CallbackSource::Value, CallbackArg::Time),
        !started ==> fired_once(true, is_finished, false, tr) == once_only(tr.on_update),
        !started ==> fired_once(true, is_finished, false, v) == once_only(v.on_update),
        started ==> callback_calls(true, is_finished, true, tr, v).len() == tr.on_start.len() + v.on_start.len()
            + tr.on_update.len() + v.on_update.len(),
        started ==> callback_calls(true, is_finished, true, tr, v).take((tr.on_start.len() + v.on_start.len()) as int)
            == fire(tr.on_start, CallbackSource::Transaction, CallbackArg::Time) + fire(
            v.on_start,
            CallbackSource::Value,
            CallbackArg::Time,
        ),
        callback_calls(false, true, started, tr, v).len() == tr.on_update.len() + v.on_update.len()
            + tr.on_finish.len() + v.on_finish.len(),
{
    let a = fire(tr.on_start, CallbackSource::Transaction, CallbackArg::Time) + fire(
        v.on_start,
        CallbackSource::Value,
        CallbackArg::Time,
    );
    let b = fire(tr.on_update, CallbackSource::Transaction, CallbackArg::Time);
    let c = fire(v.on_update, CallbackSource::Value, CallbackArg::Time);
    assert((Seq::<Invocation>::empty() + b + c) =~= b + c);
    assert((Seq::<CallbackRecord>::empty() + once_only(tr.on_update)) =~= once_only(tr.on_update));
    assert((Seq::<CallbackRecord>::empty() + once_only(v.on_update)) =~= once_only(v.on_update));
    assert((a + b + c).take(a.len() as int) =~= a);
}

} // verus!
