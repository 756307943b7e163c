use vstd::prelude::*;

verus! {

/// A placeholder for a type that has been erased.
#[derive(Debug, PartialEq, Eq, PartialOrd, Ord, Hash)]
pub struct Erased;

/// The marker type of texture ids.
#[derive(Debug, PartialEq, Eq, PartialOrd, Ord, Hash)]
pub struct Tex;

/// The macOS runtime.
pub struct MacOSRT;

/// The terminal runtime.
pub struct TuiRT;

/// The kind of runtime a game logic runs under.
#[derive(Debug, PartialEq, Eq, Clone, Copy, Structural)]
pub enum RtKind {
    Test,
    MacOS,
    TUI,
}

/// Counts a frame of the runtime context as done.
pub fn end_frame(frame: &mut u64)
    requires
        *old(frame) < u64::MAX,
    ensures
        *final(frame) == *old(frame) + 1,
{
    *frame = *frame + 1;
}

} // verus!
