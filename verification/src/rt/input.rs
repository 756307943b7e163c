use vstd::prelude::*;
use vstd::rwlock::{RwLock, RwLockPredicate};

use std::collections::VecDeque;

use crate::input::{InputState, Key, KeyState, lemma_press_release_is_tap};

verus! {

/// The state after applying the events `events` in order.
pub open spec fn apply_events(s: InputState, events: Seq<(Key, KeyState)>) -> InputState
    decreases events.len(),
{
    if events.len() == 0 {
        s
    } else {
        apply_events(s.updated(events[0].0, events[0].1), events.drop_first())
    }
}

/// Events held back apply before the event that arrives in time, oldest first:
/// a key pressed after one deadline and released in time for the next reaches
/// that frame as a tap, and never as pressed.
pub proof fn lemma_held_back_press_then_release_is_tap(s: InputState, key: Key)
    requires
        key != Key::Other,
    ensures
        apply_events(s, seq![(key, KeyState::Pressed)]).updated(key, KeyState::Released).state_of(key)
            == KeyState::Tap,
{
    reveal_with_fuel(apply_events, 2);
    assert(seq![(key, KeyState::Pressed)].drop_first() =~= Seq::<(Key, KeyState)>::empty());
    lemma_press_release_is_tap(s, key);
}

/// Held-back events apply oldest first: holding back one more event and then
/// applying all is applying the earlier ones, then it.
pub proof fn lemma_apply_events_push(s: InputState, events: Seq<(Key, KeyState)>, e: (Key, KeyState))
    ensures
        apply_events(s, events.push(e)) == apply_events(s, events).updated(e.0, e.1),
    decreases events.len(),
{
    if events.len() > 0 {
        assert(events.push(e)[0] == events[0]);
        assert(events.push(e).drop_first() =~= events.drop_first().push(e));
        lemma_apply_events_push(s.updated(events[0].0, events[0].1), events.drop_first(), e);
    } else {
        reveal_with_fuel(apply_events, 2);
        assert(events.push(e).drop_first() =~= Seq::<(Key, KeyState)>::empty());
        assert(events.push(e)[0] == e);
    }
}

/// The input gathered so far and the deadline of the frame being gathered.
pub struct Gathered {
    pub input: InputState,
    pub deadline: u64,
}

pub struct AnyGathered;

impl RwLockPredicate<Gathered> for AnyGathered {
    open spec fn inv(self, v: Gathered) -> bool {
        true
    }
}

/// The input state shared between the gathering and the consuming thread.
pub struct SharedInputState {
    gather: RwLock<Gathered, AnyGathered>,
}

impl SharedInputState {
    /// A shared state with no input gathered and the deadline at the start of
    /// the clock.
    pub fn new() -> (s: SharedInputState) {
        let g = Gathered { input: InputState::new(), deadline: 0 };
        SharedInputState { gather: RwLock::new(g, Ghost(AnyGathered)) }
    }
}

/// The logic thread's end: takes a frame of input at each deadline.
pub struct InputConsumer<'l> {
    shared: &'l SharedInputState,
    consuming: Box<InputState>,
}

/// The runtime thread's end: records input events, and holds back those that
/// arrive after the deadline until an event arrives in time.
pub struct InputGatherer<'l> {
    shared: &'l SharedInputState,
    pending: VecDeque<(Key, KeyState)>,
}

/// Splits the shared state into its gathering and its consuming end.
pub fn new_input_pair(shared: &mut SharedInputState) -> (r: (InputGatherer<'_>, InputConsumer<'_>))
    ensures
        r.0.pending_events().len() == 0,
        r.1.frame() == InputState::all_up(),
{
    let shared = &*shared;
    (
        InputGatherer { shared, pending: VecDeque::new() },
        InputConsumer { shared, consuming: Box::new(InputState::new()) },
    )
}

/// Applies `events`, oldest first, to `input`, and empties `events`.
pub fn flush_events(input: &mut InputState, events: &mut VecDeque<(Key, KeyState)>)
    ensures
        *final(input) == apply_events(*old(input), old(events)@),
        final(events)@.len() == 0,
{
    while events.len() > 0
        invariant
            apply_events(*input, events@) == apply_events(*old(input), old(events)@),
        decreases events@.len(),
    {
        let ghost before = events@;
        let (key, state) = events.pop_front().unwrap();
        assert(before.drop_first() =~= events@);
        input.update(key, state);
    }
}

impl<'l> InputGatherer<'l> {
    /// The events held back, oldest first.
    pub closed spec fn pending_events(&self) -> Seq<(Key, KeyState)> {
        self.pending@
    }

    /// Records `key` going into `state` at `timestamp`. An event past the
    /// deadline is held back; an event in time first applies the held-back
    /// events, then itself.
    pub fn update(&mut self, key: Key, state: KeyState, timestamp: u64)
        ensures
            final(self).pending_events() == old(self).pending_events().push((key, state))
                || final(self).pending_events().len() == 0,
    {
        let (mut gathered, handle) = self.shared.gather.acquire_write();
        gather(&mut gathered, &mut self.pending, key, state, timestamp);
        handle.release_write(gathered);
    }
}

/// Records `key` going into `state` at `timestamp` into what was gathered. An
/// event past the deadline joins the held-back `pending` events and changes
/// nothing else; an event in time applies the held-back events, oldest first,
/// then itself, and keeps the deadline.
pub fn gather(
    g: &mut Gathered,
    pending: &mut VecDeque<(Key, KeyState)>,
    key: Key,
    state: KeyState,
    timestamp: u64,
)
    ensures
        timestamp > old(g).deadline ==> {
            &&& final(pending)@ == old(pending)@.push((key, state))
            &&& *final(g) == *old(g)
        },
        timestamp <= old(g).deadline ==> {
            &&& final(g).input == apply_events(old(g).input, old(pending)@).updated(key, state)
            &&& final(g).deadline == old(g).deadline
            &&& final(pending)@.len() == 0
        },
{
    if timestamp > g.deadline {
        pending.push_back((key, state));
    } else {
        flush_events(&mut g.input, pending);
        g.input.update(key, state);
    }
}

impl<'l> InputConsumer<'l> {
    /// The frame of input handed out last.
    pub closed spec fn frame(&self) -> InputState {
        *self.consuming
    }

    /// Takes the input gathered for the frame that just ended, leaves its relaxed
    /// copy to be gathered into, and sets the deadline of the next frame. Nothing
    /// is stated of the frame returned beyond that it is kept: the other thread
    /// writes it.
    pub fn consume_gathered(&mut self, next_deadline: u64) -> (s: &InputState)
        ensures
            *s == final(self).frame(),
    {
        let (gathered, handle) = self.shared.gather.acquire_write();
        let (frame, rest) = hand_over(gathered, next_deadline);
        handle.release_write(rest);
        *self.consuming = frame;
        &*self.consuming
    }
}

/// Splits what was gathered into the frame to hand out and the state to go on
/// gathering into: the relaxed frame with the next deadline.
pub fn hand_over(gathered: Gathered, next_deadline: u64) -> (r: (InputState, Gathered))
    ensures
        r.0 == gathered.input,
        r.1.input == gathered.input.relaxed(),
        r.1.deadline == next_deadline,
{
    let frame = gathered.input;
    let mut relaxed = frame;
    relaxed.relax();
    (frame, Gathered { input: relaxed, deadline: next_deadline })
}

} // verus!
