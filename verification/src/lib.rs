use vstd::prelude::*;

pub mod arena;
pub mod demo;
pub mod draw;
pub mod ffi;
pub mod game;
pub mod managed;
pub mod mem;
pub mod input;
pub mod num;
pub mod paltex;
pub mod rt;
pub mod rt_common;
pub mod termios;
pub mod time;
pub mod vec_arena;

verus! {

/// The configuration a game logic hands to the runtime when it starts.
#[derive(Debug, Clone, Copy)]
pub struct Config {
    pub name: &'static str,
    pub resolution: (u32, u32),
    pub logic_fps: u64,
}

} // verus!
