//! The parts of the runtime that every platform shares: input gathering,
//! frame-allocation bookkeeping, ending, and the logic loop's timer.

pub mod frame_alloc;
pub mod draw;
pub mod end;
pub mod error;
pub mod input;
pub mod runtime;
pub mod timer;
