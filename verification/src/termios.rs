//! The terminal settings the text runtime switches to: the layouts of the
//! terminal attributes on each platform, and the raw mode derived from them.

pub mod linux;
pub mod macos;
