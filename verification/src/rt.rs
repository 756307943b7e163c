//! The first macOS runtime: input gathering that buffers the events which
//! arrive after the frame's deadline.

pub mod input;
