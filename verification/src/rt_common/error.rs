use vstd::prelude::*;

verus! {

/// A message to end the program with: a callback that writes it, and the
/// source location that asked for it.
pub struct EndMsg<M> {
    pub callback: M,
    pub file: &'static str,
    pub line: u32,
}

impl<M> EndMsg<M> {
    pub fn new(callback: M, file: &'static str, line: u32) -> (m: EndMsg<M>)
        ensures
            m.callback == callback,
            m.file == file,
            m.line == line,
    {
        EndMsg { file, line, callback }
    }
}

} // verus!
