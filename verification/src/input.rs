use vstd::prelude::*;

verus! {

/// The state of a single key during one logic frame.
///
/// `Pressed`, `Released` and `Tap` are edge states: they last for a single
/// frame and relax into the steady states `Down` and `Up`.
#[derive(Debug, Clone, Copy, Default, PartialEq, Eq, Structural)]
pub enum KeyState {
    #[default]
    Up,
    Down,
    Pressed,
    Released,
    Tap,
}

impl KeyState {
    /// The steady state an edge state settles into after one frame.
    pub open spec fn relaxed(self) -> KeyState {
        match self {
            KeyState::Pressed => KeyState::Down,
            KeyState::Released => KeyState::Up,
            KeyState::Tap => KeyState::Up,
            _ => self,
        }
    }

    pub open spec fn is_edge(self) -> bool {
        self is Pressed || self is Released || self is Tap
    }

    pub open spec fn is_down(self) -> bool {
        self is Down || self is Pressed || self is Tap
    }

    pub open spec fn is_up(self) -> bool {
        self is Up || self is Released || self is Tap
    }

    /// What this key becomes after merging the pending state `next` into it.
    pub open spec fn merged(self, next: KeyState) -> KeyState {
        if next.is_edge() {
            next
        } else {
            self.relaxed()
        }
    }

    /// What the pending state `next` becomes after it has been merged.
    pub open spec fn merged_rest(next: KeyState) -> KeyState {
        if next.is_edge() {
            KeyState::Up
        } else {
            next
        }
    }

    /// The state recorded when `state` is reported for a key currently in `self`:
    /// a release that follows a press within the same frame becomes a tap.
    pub open spec fn recorded(self, state: KeyState) -> KeyState {
        if self == KeyState::Pressed && state == KeyState::Released {
            KeyState::Tap
        } else {
            state
        }
    }

    pub fn relax(&mut self)
        ensures
            *final(self) == old(self).relaxed(),
    {
        *self = match *self {
            KeyState::Pressed => KeyState::Down,
            KeyState::Released => KeyState::Up,
            KeyState::Tap => KeyState::Up,
            other => other,
        };
    }

    pub fn merge(&mut self, next: &mut KeyState)
        ensures
            *final(self) == old(self).merged(*old(next)),
            *final(next) == KeyState::merged_rest(*old(next)),
    {
        self.relax();
        if next.edge() {
            *self = *next;
            *next = KeyState::Up;
        }
    }

    pub fn edge(&self) -> (b: bool)
        ensures
            b == self.is_edge(),
    {
        match self {
            KeyState::Pressed | KeyState::Released | KeyState::Tap => true,
            _ => false,
        }
    }

    pub fn down(&self) -> (b: bool)
        ensures
            b == self.is_down(),
    {
        match self {
            KeyState::Down | KeyState::Pressed | KeyState::Tap => true,
            _ => false,
        }
    }

    pub fn up(&self) -> (b: bool)
        ensures
            b == self.is_up(),
    {
        match self {
            KeyState::Up | KeyState::Released | KeyState::Tap => true,
            _ => false,
        }
    }
}

/// The keys the engine tracks.
#[derive(Debug, Clone, Copy, PartialEq, Eq, PartialOrd, Ord, Structural)]
pub enum Key {
    Space,
    Up,
    Down,
    Left,
    Right,
    Other,
}

impl Key {
    pub open spec fn spec_from_code(code: u16) -> Key {
        if code == 49 {
            Key::Space
        } else if code == 126 {
            Key::Up
        } else if code == 125 {
            Key::Down
        } else if code == 123 {
            Key::Left
        } else if code == 124 {
            Key::Right
        } else {
            Key::Other
        }
    }

    pub open spec fn spec_from_ascii(ascii: u8) -> Key {
        if ascii == 32 {
            Key::Space
        } else {
            Key::Other
        }
    }

    /// Maps a platform virtual key code to a key.
    pub fn from_code(code: u16) -> (k: Key)
        ensures
            k == Key::spec_from_code(code),
    {
        match code {
            49 => Key::Space,
            126 => Key::Up,
            125 => Key::Down,
            123 => Key::Left,
            124 => Key::Right,
            _ => Key::Other,
        }
    }

    /// Maps a terminal input byte to a key.
    pub fn from_ascii(ascii: u8) -> (k: Key)
        ensures
            k == Key::spec_from_ascii(ascii),
    {
        match ascii {
            32 => Key::Space,
            _ => Key::Other,
        }
    }
}

/// The states of all tracked keys.
#[derive(Debug, Clone, Copy, Default)]
pub struct InputState {
    pub space: KeyState,
    pub up: KeyState,
    pub down: KeyState,
    pub left: KeyState,
    pub right: KeyState,
}

impl InputState {
    /// The state of `key`; keys that are not tracked are always `Up`.
    pub open spec fn state_of(self, key: Key) -> KeyState {
        match key {
            Key::Space => self.space,
            Key::Up => self.up,
            Key::Down => self.down,
            Key::Left => self.left,
            Key::Right => self.right,
            Key::Other => KeyState::Up,
        }
    }

    /// This state with the tracked `key` set to `s`; untracked keys change nothing.
    pub open spec fn with_state(self, key: Key, s: KeyState) -> InputState {
        match key {
            Key::Space => InputState { space: s, ..self },
            Key::Up => InputState { up: s, ..self },
            Key::Down => InputState { down: s, ..self },
            Key::Left => InputState { left: s, ..self },
            Key::Right => InputState { right: s, ..self },
            Key::Other => self,
        }
    }

    /// This state after `state` has been reported for `key`.
    pub open spec fn updated(self, key: Key, state: KeyState) -> InputState {
        self.with_state(key, self.state_of(key).recorded(state))
    }

    /// Every key relaxed.
    pub open spec fn relaxed(self) -> InputState {
        InputState {
            space: self.space.relaxed(),
            up: self.up.relaxed(),
            down: self.down.relaxed(),
            left: self.left.relaxed(),
            right: self.right.relaxed(),
        }
    }

    /// Every key of `next` merged into the corresponding key of `self`.
    pub open spec fn merged(self, next: InputState) -> InputState {
        InputState {
            space: self.space.merged(next.space),
            up: self.up.merged(next.up),
            down: self.down.merged(next.down),
            left: self.left.merged(next.left),
            right: self.right.merged(next.right),
        }
    }

    /// What `next` keeps after being merged: the edges are taken out.
    pub open spec fn merged_rest(next: InputState) -> InputState {
        InputState {
            space: KeyState::merged_rest(next.space),
            up: KeyState::merged_rest(next.up),
            down: KeyState::merged_rest(next.down),
            left: KeyState::merged_rest(next.left),
            right: KeyState::merged_rest(next.right),
        }
    }

    pub open spec fn all_up() -> InputState {
        InputState {
            space: KeyState::Up,
            up: KeyState::Up,
            down: KeyState::Up,
            left: KeyState::Up,
            right: KeyState::Up,
        }
    }

    pub fn new() -> (s: InputState)
        ensures
            s == InputState::all_up(),
    {
        InputState {
            space: KeyState::Up,
            up: KeyState::Up,
            down: KeyState::Up,
            left: KeyState::Up,
            right: KeyState::Up,
        }
    }

    /// Relaxes the current frame and takes over the edges gathered into `next`.
    pub fn relax_and_merge(&mut self, next: &mut InputState)
        ensures
            *final(self) == old(self).merged(*old(next)),
            *final(next) == InputState::merged_rest(*old(next)),
    {
        self.space.merge(&mut next.space);
        self.up.merge(&mut next.up);
        self.down.merge(&mut next.down);
        self.left.merge(&mut next.left);
        self.right.merge(&mut next.right);
    }

    /// Records that `key` went into `state`.
    pub fn update(&mut self, key: Key, state: KeyState)
        ensures
            *final(self) == old(self).updated(key, state),
    {
        match key {
            Key::Space => {
                self.space = record(self.space, state);
            },
            Key::Up => {
                self.up = record(self.up, state);
            },
            Key::Down => {
                self.down = record(self.down, state);
            },
            Key::Left => {
                self.left = record(self.left, state);
            },
            Key::Right => {
                self.right = record(self.right, state);
            },
            Key::Other => {},
        }
    }

    /// Relaxes every key.
    pub fn relax(&mut self)
        ensures
            *final(self) == old(self).relaxed(),
    {
        self.space.relax();
        self.up.relax();
        self.down.relax();
        self.left.relax();
        self.right.relax();
    }

    pub fn get(&self, key: Key) -> (s: KeyState)
        ensures
            s == self.state_of(key),
    {
        match key {
            Key::Space => self.space,
            Key::Up => self.up,
            Key::Down => self.down,
            Key::Left => self.left,
            Key::Right => self.right,
            Key::Other => KeyState::Up,
        }
    }
}

fn record(old_state: KeyState, state: KeyState) -> (s: KeyState)
    ensures
        s == old_state.recorded(state),
{
    if old_state == KeyState::Pressed && state == KeyState::Released {
        KeyState::Tap
    } else {
        state
    }
}

/// Relaxing settles a key: the result is never an edge, and relaxing again changes nothing.
pub proof fn lemma_relax_settles(s: KeyState)
    ensures
        !s.relaxed().is_edge(),
        s.relaxed().relaxed() == s.relaxed(),
{
}

/// A key is both down and up exactly when it was tapped; otherwise it is exactly one of them.
pub proof fn lemma_down_up_partition(s: KeyState)
    ensures
        s.is_down() || s.is_up(),
        (s.is_down() && s.is_up()) <==> s == KeyState::Tap,
{
}

/// Merging in a pending state without edges only relaxes the current frame,
/// and leaves the pending state as it was.
pub proof fn lemma_merge_without_edges_relaxes(cur: InputState, next: InputState)
    requires
        !next.space.is_edge(),
        !next.up.is_edge(),
        !next.down.is_edge(),
        !next.left.is_edge(),
        !next.right.is_edge(),
    ensures
        cur.merged(next) == cur.relaxed(),
        InputState::merged_rest(next) == next,
{
}

/// Merging takes every pending edge over and leaves the pending state without edges.
pub proof fn lemma_merge_takes_edges(cur: InputState, next: InputState, key: Key)
    requires
        key != Key::Other,
    ensures
        next.state_of(key).is_edge() ==> cur.merged(next).state_of(key) == next.state_of(key),
        !InputState::merged_rest(next).state_of(key).is_edge(),
{
}

/// After an update, the key reads back the recorded state and every other key is unchanged.
pub proof fn lemma_update_then_get(s: InputState, key: Key, state: KeyState, other: Key)
    requires
        key != Key::Other,
        other != key,
    ensures
        s.with_state(key, s.state_of(key).recorded(state)).state_of(key)
            == s.state_of(key).recorded(state),
        s.with_state(key, s.state_of(key).recorded(state)).state_of(other) == s.state_of(other),
{
}

/// A press followed by a release within one frame is recorded as a tap.
pub proof fn lemma_press_release_is_tap(s: InputState, key: Key)
    requires
        key != Key::Other,
    ensures
        ({
            let pressed = s.with_state(key, s.state_of(key).recorded(KeyState::Pressed));
            pressed.with_state(key, pressed.state_of(key).recorded(KeyState::Released)).state_of(
                key,
            ) == KeyState::Tap
        }),
{
}

} // verus!
