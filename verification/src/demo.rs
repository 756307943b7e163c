//! The demo game logic: three textures drawn at fixed places.

use vstd::prelude::*;

use crate::Config;
use crate::ffi::{RtKind, Tex};
use crate::managed::Id;

verus! {

/// The demo game logic.
pub struct DemoLogic;

/// The demo's state: the ids of its three textures.
#[derive(Debug)]
pub struct State {
    pub bubu_tex: Id<Tex>,
    pub toge_tex: Id<Tex>,
    pub lima_tex: Id<Tex>,
}

impl DemoLogic {
    /// The frame rate of the demo's logic: lower in the terminal runtime.
    pub fn logic_fps(rt_kind: RtKind) -> (fps: u64)
        ensures
            fps == (if rt_kind == RtKind::TUI { 10u64 } else { 60u64 }),
    {
        match rt_kind {
            RtKind::TUI => 10,
            _ => 60,
        }
    }

    /// The configuration the demo starts with under a runtime of kind `rt_kind`.
    pub fn config(rt_kind: RtKind) -> (c: Config)
        ensures
            c.name@ == "Demo"@,
            c.resolution == (320u32, 200u32),
            c.logic_fps == (if rt_kind == RtKind::TUI { 10u64 } else { 60u64 }),
    {
        Config { name: "Demo", resolution: (320, 200), logic_fps: DemoLogic::logic_fps(rt_kind) }
    }

    /// The files of the demo's textures, in the order they are loaded.
    pub fn texture_paths() -> (p: [&'static str; 3])
        ensures
            p[0]@ == "assets/paltex/bubu.paltex"@,
            p[1]@ == "assets/paltex/toge.paltex"@,
            p[2]@ == "assets/paltex/lima.paltex"@,
    {
        ["assets/paltex/bubu.paltex", "assets/paltex/toge.paltex", "assets/paltex/lima.paltex"]
    }

    /// The demo's state once its textures, loaded in order, have the ids
    /// `tex_ids`.
    pub fn state(tex_ids: &[Id<Tex>]) -> (s: State)
        requires
            tex_ids@.len() >= 3,
        ensures
            s.bubu_tex == tex_ids@[0],
            s.toge_tex == tex_ids@[1],
            s.lima_tex == tex_ids@[2],
    {
        State { bubu_tex: tex_ids[0], toge_tex: tex_ids[1], lima_tex: tex_ids[2] }
    }
}

} // verus!
