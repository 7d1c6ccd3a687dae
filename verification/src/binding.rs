//! What a keyed binding decides, and what is asked of the runtime around it.
//!
//! A keyed signal ties a value cell to a key. Each time the binding effect
//! runs it is told the key that the derivation produced, and has one thing
//! to decide: whether that key is a change, so that the lookup is to be
//! started for it. [`KeyTracker`] makes that decision. It is the only state
//! the wiring keeps outside the runtime.
//!
//! The rest of this module is a model, not code that runs. The cell lives in
//! the runtime, and lookups write to it through the runtime's own handle;
//! [`BindingState`] and [`Event`] say what the wiring counts on there (the
//! cell keeps what was written last), put it together with the tracker's
//! decision, and the laws below prove what then holds of every run of
//! events. The tracker's half of the model is what [`KeyTracker::recompute`]
//! is verified against. The cell's half is a statement about the runtime
//! that nothing here can prove of it.

use vstd::prelude::*;
use vstd::std_specs::cmp::PartialEqSpec;

verus! {

/// What can happen to a binding.
pub enum Event<Key, Val> {
    /// The key derivation ran again and produced this key.
    Recompute(Key),
    /// A lookup task wrote this value into the cell.
    Write(Val),
}

/// The state of a binding: the memoized key, absent until the derivation
/// has run once, and the content of the value cell.
pub struct BindingState<Key, Val> {
    pub key: Option<Key>,
    pub value: Val,
}

/// Whether a newly derived `key` counts as a change from the key that is
/// `held`. The first key always does; a later one does unless it compares
/// equal to the held key, the new key on the left of `==`.
pub open spec fn changed<Key: PartialEq>(held: Option<Key>, key: Key) -> bool {
    match held {
        None => true,
        Some(held) => !key.eq_spec(&held),
    }
}

/// The events of a run in which only the key derivation runs, once for each
/// of `keys`, in order.
pub open spec fn recomputes<Key, Val>(keys: Seq<Key>) -> Seq<Event<Key, Val>> {
    Seq::new(keys.len(), |i: int| Event::Recompute(keys[i]))
}

/// The events of a run in which only lookup tasks write, once for each of
/// `values`, in order.
pub open spec fn writes<Key, Val>(values: Seq<Val>) -> Seq<Event<Key, Val>> {
    Seq::new(values.len(), |i: int| Event::Write(values[i]))
}

impl<Key: PartialEq, Val> BindingState<Key, Val> {
    /// The state before the key derivation has run: no key, and `value` in
    /// the cell.
    pub open spec fn fresh(value: Val) -> Self {
        BindingState { key: None, value }
    }

    /// Whether a newly derived `key` starts a lookup: whether it is a
    /// change from the held key.
    pub open spec fn fires(self, key: Key) -> bool {
        changed(self.key, key)
    }

    /// The state after the derivation produced `key`: the key is taken over
    /// if it counts as a change, and the held key stays otherwise. The cell
    /// is not touched.
    pub open spec fn recompute(self, key: Key) -> Self {
        if self.fires(key) {
            BindingState { key: Some(key), value: self.value }
        } else {
            self
        }
    }

    /// The state after a lookup task wrote `value`: the cell holds it,
    /// whatever it held and whichever key the task was started for.
    pub open spec fn write(self, value: Val) -> Self {
        BindingState { key: self.key, value }
    }

    /// The state after one event.
    pub open spec fn step(self, event: Event<Key, Val>) -> Self {
        match event {
            Event::Recompute(key) => self.recompute(key),
            Event::Write(value) => self.write(value),
        }
    }

    /// The keys that one event hands to the lookup: the new key if the
    /// event is a recomputation that counts as a change, and none otherwise.
    pub open spec fn emits(self, event: Event<Key, Val>) -> Seq<Key> {
        match event {
            Event::Recompute(key) => if self.fires(key) {
                seq![key]
            } else {
                Seq::empty()
            },
            Event::Write(_) => Seq::empty(),
        }
    }

    /// The state after `events`, taken in order.
    pub open spec fn run(self, events: Seq<Event<Key, Val>>) -> Self
        decreases events.len(),
    {
        if events.len() == 0 {
            self
        } else {
            self.run(events.drop_last()).step(events.last())
        }
    }

    /// The keys handed to the lookup in the course of `events`, in the
    /// order of their dispatch.
    pub open spec fn dispatched(self, events: Seq<Event<Key, Val>>) -> Seq<Key>
        decreases events.len(),
    {
        if events.len() == 0 {
            Seq::empty()
        } else {
            self.dispatched(events.drop_last()) + self.run(events.drop_last()).emits(
                events.last(),
            )
        }
    }
}

/// The key that a binding holds, and the decision whether a newly derived
/// key is a change.
///
/// The binding effect keeps one tracker from run to run. Each time it runs
/// it hands the key it read to [`KeyTracker::recompute`] and starts the
/// lookup only when the answer is `true`.
pub struct KeyTracker<Key> {
    held: Option<Key>,
}

impl<Key> View for KeyTracker<Key> {
    type V = Option<Key>;

    closed spec fn view(&self) -> Option<Key> {
        self.held
    }
}

impl<Key: PartialEq> KeyTracker<Key> {
    /// A tracker that holds no key yet.
    pub fn new() -> (tracker: Self)
        ensures
            tracker@.is_none(),
    {
        KeyTracker { held: None }
    }

    /// The held key, or `None` before the first key was taken in.
    pub fn held(&self) -> (key: Option<&Key>)
        ensures
            key == match self@ {
                Some(held) => Some(&held),
                None => None,
            },
    {
        self.held.as_ref()
    }

    /// Takes in the key that a run of the derivation produced and says
    /// whether the lookup is to be started for it.
    ///
    /// The first key always starts one. A later key is compared with the
    /// held key by the key type's own `==`, the new key on the left, and
    /// starts one unless they are equal; the held key then stays as it is.
    ///
    /// For every key type the answer is the opposite of what that `==`
    /// returned for the new key and the held key. For a key type that
    /// `obeys_eq_spec` this is the same as [`changed`], over which the laws
    /// of this module are stated.
    pub fn recompute(&mut self, key: Key) -> (fires: bool)
        ensures
            final(self)@ == if fires {
                Some(key)
            } else {
                old(self)@
            },
            old(self)@.is_none() ==> fires,
            old(self)@.is_some() ==> call_ensures(Key::eq, (&key, &old(self)@.unwrap()), !fires),
            Key::obeys_eq_spec() ==> fires == changed(old(self)@, key),
    {
        let fires = match &self.held {
            None => true,
            Some(held) => !(key == *held),
        };
        if fires {
            self.held = Some(key);
        }
        fires
    }
}

/// The keys that the derivation produced in the course of `events`, in
/// order.
pub open spec fn keys_of<Key, Val>(events: Seq<Event<Key, Val>>) -> Seq<Key>
    decreases events.len(),
{
    if events.len() == 0 {
        Seq::empty()
    } else {
        match events.last() {
            Event::Recompute(key) => keys_of(events.drop_last()).push(key),
            Event::Write(_) => keys_of(events.drop_last()),
        }
    }
}

/// The values that lookup tasks wrote in the course of `events`, in order.
pub open spec fn values_of<Key, Val>(events: Seq<Event<Key, Val>>) -> Seq<Val>
    decreases events.len(),
{
    if events.len() == 0 {
        Seq::empty()
    } else {
        match events.last() {
            Event::Recompute(_) => values_of(events.drop_last()),
            Event::Write(value) => values_of(events.drop_last()).push(value),
        }
    }
}

proof fn lemma_recomputes_push<Key, Val>(keys: Seq<Key>, key: Key)
    ensures
        recomputes::<Key, Val>(keys.push(key)).drop_last() == recomputes::<Key, Val>(keys),
        recomputes::<Key, Val>(keys.push(key)).last() == Event::<Key, Val>::Recompute(key),
{
    assert(recomputes::<Key, Val>(keys.push(key)).drop_last() =~= recomputes::<Key, Val>(keys));
}

proof fn lemma_writes_push<Key, Val>(values: Seq<Val>, value: Val)
    ensures
        writes::<Key, Val>(values.push(value)).drop_last() == writes::<Key, Val>(values),
        writes::<Key, Val>(values.push(value)).last() == Event::<Key, Val>::Write(value),
{
    assert(writes::<Key, Val>(values.push(value)).drop_last() =~= writes::<Key, Val>(values));
}

/// A run can be cut anywhere: the state after `first + rest` is the state
/// that `rest` leads to from where `first` ended, and the keys dispatched
/// are those of `first` followed by those of `rest`.
pub proof fn law_runs_compose<Key: PartialEq, Val>(
    state: BindingState<Key, Val>,
    first: Seq<Event<Key, Val>>,
    rest: Seq<Event<Key, Val>>,
)
    ensures
        state.run(first + rest) == state.run(first).run(rest),
        state.dispatched(first + rest) == state.dispatched(first) + state.run(first).dispatched(
            rest,
        ),
    decreases rest.len(),
{
    if rest.len() == 0 {
        assert(first + rest =~= first);
        assert(state.dispatched(first) + Seq::<Key>::empty() =~= state.dispatched(first));
    } else {
        assert((first + rest).drop_last() =~= first + rest.drop_last());
        assert((first + rest).last() == rest.last());
        law_runs_compose(state, first, rest.drop_last());
        let before = state.run(first).run(rest.drop_last());
        assert(state.dispatched(first + rest) =~= state.dispatched(first) + (state.run(
            first,
        ).dispatched(rest.drop_last()) + before.emits(rest.last())));
    }
}

/// Change suppression. While every key that the derivation produces is
/// equal to the held key, nothing is dispatched, however often the
/// derivation runs, and neither the held key nor the cell changes.
pub proof fn law_equal_keys_are_suppressed<Key: PartialEq, Val>(
    state: BindingState<Key, Val>,
    keys: Seq<Key>,
)
    requires
        forall|i: int| 0 <= i < keys.len() ==> !state.fires(#[trigger] keys[i]),
    ensures
        state.run(recomputes(keys)) == state,
        state.dispatched(recomputes(keys)) == Seq::<Key>::empty(),
    decreases keys.len(),
{
    if keys.len() > 0 {
        let earlier = keys.drop_last();
        assert(keys =~= earlier.push(keys.last()));
        lemma_recomputes_push::<Key, Val>(earlier, keys.last());
        assert forall|i: int| 0 <= i < earlier.len() implies !state.fires(
            #[trigger] earlier[i],
        ) by {
            assert(earlier[i] == keys[i]);
        }
        law_equal_keys_are_suppressed(state, earlier);
        assert(!state.fires(keys[keys.len() - 1]));
        assert(state.dispatched(recomputes(keys)) =~= Seq::<Key>::empty());
    }
}

/// Change suppression from the start. The first key that the derivation
/// produces is dispatched. If every later key is equal to it, it stays the
/// only one, and the cell still holds what it held.
pub proof fn law_first_key_is_dispatched_once<Key: PartialEq, Val>(
    value: Val,
    first: Key,
    repeats: Seq<Key>,
)
    requires
        forall|i: int| 0 <= i < repeats.len() ==> (#[trigger] repeats[i]).eq_spec(&first),
    ensures
        BindingState::fresh(value).dispatched(recomputes(seq![first] + repeats)) == seq![first],
        BindingState::fresh(value).run(recomputes(seq![first] + repeats)) == (BindingState {
            key: Some(first),
            value,
        }),
{
    let fresh = BindingState::<Key, Val>::fresh(value);
    let opening = recomputes::<Key, Val>(seq![first]);
    let held = BindingState { key: Some(first), value };
    assert(recomputes::<Key, Val>(seq![first] + repeats) =~= opening + recomputes::<Key, Val>(
        repeats,
    ));
    assert(opening.drop_last() =~= Seq::<Event<Key, Val>>::empty());
    assert(opening.last() == Event::<Key, Val>::Recompute(first));
    assert(fresh.run(opening.drop_last()) == fresh);
    assert(fresh.run(opening) == held);
    assert(fresh.dispatched(opening.drop_last()) =~= Seq::<Key>::empty());
    assert(fresh.emits(opening.last()) =~= seq![first]);
    assert(fresh.dispatched(opening) =~= seq![first]);
    law_runs_compose(fresh, opening, recomputes(repeats));
    law_equal_keys_are_suppressed(held, repeats);
    assert(seq![first] + Seq::<Key>::empty() =~= seq![first]);
}

/// One dispatch for each new key. If every key that the derivation
/// produces is unequal to the one before it, the first of them to the held
/// key, then each of them is dispatched, once and in order, and the last of
/// them is the held key afterwards. From a fresh binding the first key
/// counts as new whatever it is.
pub proof fn law_each_new_key_is_dispatched<Key: PartialEq, Val>(
    state: BindingState<Key, Val>,
    keys: Seq<Key>,
)
    requires
        keys.len() > 0 ==> state.fires(keys[0]),
        forall|i: int| 0 < i < keys.len() ==> !(#[trigger] keys[i]).eq_spec(&keys[i - 1]),
    ensures
        state.dispatched(recomputes(keys)) == keys,
        state.run(recomputes(keys)).value == state.value,
        state.run(recomputes(keys)).key == if keys.len() == 0 {
            state.key
        } else {
            Some(keys.last())
        },
    decreases keys.len(),
{
    if keys.len() == 0 {
        assert(state.dispatched(recomputes(keys)) =~= keys);
    } else {
        let earlier = keys.drop_last();
        assert(keys =~= earlier.push(keys.last()));
        lemma_recomputes_push::<Key, Val>(earlier, keys.last());
        assert forall|i: int| 0 < i < earlier.len() implies !(#[trigger] earlier[i]).eq_spec(
            &earlier[i - 1],
        ) by {
            assert(earlier[i] == keys[i]);
            assert(earlier[i - 1] == keys[i - 1]);
        }
        if earlier.len() > 0 {
            assert(earlier[0] == keys[0]);
            assert(earlier.last() == keys[keys.len() - 2]);
            assert(!keys[keys.len() - 1].eq_spec(&keys[keys.len() - 1 - 1]));
        }
        law_each_new_key_is_dispatched(state, earlier);
        let before = state.run(recomputes(earlier));
        assert(before.fires(keys.last()));
        assert(state.dispatched(recomputes(keys)) =~= keys);
    }
}

/// The key and the cell do not interfere. Which keys are dispatched and
/// which key is held depends only on the keys that the derivation
/// produced, not on the writes between them; what the cell holds depends
/// only on the writes, not on the keys.
pub proof fn law_key_and_cell_do_not_interfere<Key: PartialEq, Val>(
    state: BindingState<Key, Val>,
    events: Seq<Event<Key, Val>>,
)
    ensures
        state.dispatched(events) == state.dispatched(recomputes(keys_of(events))),
        state.run(events).key == state.run(recomputes(keys_of(events))).key,
        state.run(events).value == state.run(writes(values_of(events))).value,
        state.run(recomputes(keys_of(events))).value == state.value,
        state.run(writes(values_of(events))).key == state.key,
    decreases events.len(),
{
    if events.len() > 0 {
        let earlier = events.drop_last();
        law_key_and_cell_do_not_interfere(state, earlier);
        match events.last() {
            Event::Recompute(key) => {
                lemma_recomputes_push::<Key, Val>(keys_of(earlier), key);
            },
            Event::Write(value) => {
                lemma_writes_push::<Key, Val>(values_of(earlier), value);
            },
        }
    }
}

/// The last write wins. After any run the cell holds the value that was
/// written last, whichever key its task was started for and whatever
/// happened to the key since. Before the first write it holds what it held
/// at the start.
pub proof fn law_cell_holds_last_write<Key: PartialEq, Val>(
    state: BindingState<Key, Val>,
    events: Seq<Event<Key, Val>>,
)
    ensures
        state.run(events).value == if values_of(events).len() == 0 {
            state.value
        } else {
            values_of(events).last()
        },
    decreases events.len(),
{
    if events.len() > 0 {
        law_cell_holds_last_write(state, events.drop_last());
    }
}

/// The held key is the key that was dispatched last. After any run the
/// tracker holds the key of the latest dispatch, or the key it held at the
/// start if nothing was dispatched: every lookup is started for the key
/// that is current at that moment.
pub proof fn law_held_key_is_last_dispatched<Key: PartialEq, Val>(
    state: BindingState<Key, Val>,
    events: Seq<Event<Key, Val>>,
)
    ensures
        state.run(events).key == if state.dispatched(events).len() == 0 {
            state.key
        } else {
            Some(state.dispatched(events).last())
        },
    decreases events.len(),
{
    if events.len() > 0 {
        law_held_key_is_last_dispatched(state, events.drop_last());
    }
}

} // verus!
