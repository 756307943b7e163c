use vstd::prelude::*;
use vstd::rwlock::{RwLock, RwLockPredicate};


use crate::input::{InputState, Key, KeyState, lemma_press_release_is_tap};

verus! {

/// The input state shared between the gathering runtime thread and the
/// consuming logic thread.
pub struct InnerSharedInputState {
    /// The input of the frame being gathered.
    pub current: InputState,
    /// The input that arrived after the frame's deadline, kept for the next frame.
    pub next: InputState,
    /// The deadline of the frame being gathered.
    pub deadline: u64,
}

impl InnerSharedInputState {
    /// The state once `key` went into `state` at `timestamp`: recorded into
    /// the next frame if that is past the deadline, otherwise into the current one.
    pub open spec fn with_event(self, key: Key, state: KeyState, timestamp: u64) -> InnerSharedInputState {
        if timestamp > self.deadline {
            InnerSharedInputState { next: self.next.updated(key, state), ..self }
        } else {
            InnerSharedInputState { current: self.current.updated(key, state), ..self }
        }
    }

    /// The state once the gathered frame is handed out and gathering of the
    /// frame with deadline `next_deadline` starts.
    pub open spec fn after_frame(self, next_deadline: u64) -> InnerSharedInputState {
        InnerSharedInputState {
            current: self.current.merged(self.next),
            next: InputState::merged_rest(self.next),
            deadline: next_deadline,
        }
    }

    /// Records that `key` went into `state` at `timestamp`: into the next frame
    /// if that is past the deadline, otherwise into the current one.
    pub fn record(&mut self, key: Key, state: KeyState, timestamp: u64)
        ensures
            timestamp > old(self).deadline ==> final(self).next == old(self).next.updated(key, state) && final(self).current
                == old(self).current,
            timestamp <= old(self).deadline ==> final(self).current == old(self).current.updated(key, state)
                && final(self).next == old(self).next,
            final(self).deadline == old(self).deadline,
            *final(self) == old(self).with_event(key, state, timestamp),
    {
        if timestamp > self.deadline {
            self.next.update(key, state);
        } else {
            self.current.update(key, state);
        }
    }

    /// Hands out the gathered frame, then starts gathering the next one: the
    /// current frame relaxes and takes over the edges that arrived late.
    pub fn take_frame(&mut self, next_deadline: u64) -> (frame: InputState)
        ensures
            frame == old(self).current,
            final(self).current == old(self).current.merged(old(self).next),
            final(self).next == InputState::merged_rest(old(self).next),
            final(self).deadline == next_deadline,
            *final(self) == old(self).after_frame(next_deadline),
    {
        let frame = self.current;
        self.current.relax_and_merge(&mut self.next);
        self.deadline = next_deadline;
        frame
    }
}

/// Events that arrive after the deadline are kept for the next frame, in
/// order, and are not lost: a key pressed and released after the deadline
/// reaches the next frame as a tap, while the frame being gathered does not
/// see it.
pub proof fn lemma_late_press_release_reaches_next_frame(
    g: InnerSharedInputState,
    key: Key,
    t1: u64,
    t2: u64,
    next_deadline: u64,
)
    requires
        key != Key::Other,
        t1 > g.deadline,
        t2 > g.deadline,
    ensures
        g.with_event(key, KeyState::Pressed, t1).with_event(key, KeyState::Released, t2).current == g.current,
        g.with_event(key, KeyState::Pressed, t1).with_event(key, KeyState::Released, t2).after_frame(
            next_deadline,
        ).current.state_of(key) == KeyState::Tap,
{
    lemma_press_release_is_tap(g.next, key);
}

/// Late events are recorded on top of each other, oldest first: recording
/// a late event then another is recording both into the next frame in turn.
pub proof fn lemma_late_events_in_order(
    g: InnerSharedInputState,
    k1: Key,
    s1: KeyState,
    t1: u64,
    k2: KeyState,
    key2: Key,
    t2: u64,
)
    requires
        t1 > g.deadline,
        t2 > g.deadline,
    ensures
        g.with_event(k1, s1, t1).with_event(key2, k2, t2).next == g.next.updated(k1, s1).updated(key2, k2),
{
}

/// Any input state may be stored in the shared lock.
pub struct AnyInput;

impl RwLockPredicate<InnerSharedInputState> for AnyInput {
    open spec fn inv(self, v: InnerSharedInputState) -> bool {
        true
    }
}

pub struct SharedInputState {
    gather: RwLock<InnerSharedInputState, AnyInput>,
}

impl SharedInputState {
    /// A shared state with no input gathered and the deadline at the start of
    /// the clock.
    pub fn new() -> (s: SharedInputState) {
        let inner = InnerSharedInputState {
            current: InputState::new(),
            next: InputState::new(),
            deadline: 0,
        };
        SharedInputState { gather: RwLock::new(inner, Ghost(AnyInput)) }
    }
}

impl Default for SharedInputState {
    fn default() -> (s: SharedInputState) {
        SharedInputState::new()
    }
}

/// The logic thread's end: takes a frame of input at each deadline.
pub struct InputConsumer<'l> {
    shared: &'l SharedInputState,
    consuming: Box<InputState>,
}

/// The runtime thread's end: records input events as they arrive.
pub struct InputGatherer<'l> {
    shared: &'l SharedInputState,
}

/// Splits the shared state into its gathering and its consuming end.
pub fn make_input_tools(shared: &mut SharedInputState) -> (r: (InputGatherer<'_>, InputConsumer<'_>))
    ensures
        r.1.frame() == InputState::all_up(),
{
    let shared = &*shared;
    (InputGatherer { shared }, InputConsumer { shared, consuming: Box::new(InputState::new()) })
}

impl<'l> InputConsumer<'l> {
    /// The frame of input handed out last.
    pub closed spec fn frame(&self) -> InputState {
        *self.consuming
    }

    /// Takes the input gathered for the frame that just ended, and sets the
    /// deadline of the next one. The state returned is what the gatherer had
    /// recorded; the library states nothing more of it, since the other thread
    /// writes it.
    pub fn get_gathered(&mut self, next_deadline: u64) -> (s: &InputState)
        ensures
            *s == final(self).frame(),
    {
        let (mut inner, handle) = self.shared.gather.acquire_write();
        let frame = inner.take_frame(next_deadline);
        handle.release_write(inner);
        *self.consuming = frame;
        &*self.consuming
    }
}

impl<'l> InputGatherer<'l> {
    /// Records that `key` went into `state` at `timestamp`: into the next frame if
    /// the timestamp is past the current deadline, otherwise into the current one.
    pub fn update(&mut self, key: Key, state: KeyState, timestamp: u64) {
        let (mut inner, handle) = self.shared.gather.acquire_write();
        inner.record(key, state, timestamp);
        handle.release_write(inner);
    }
}

} // verus!
