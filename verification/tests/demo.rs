use lib::demo::DemoLogic;
use lib::ffi::{RtKind, Tex};
use lib::managed::Id;

#[test]
fn demo_runs_slower_in_the_terminal() {
    assert_eq!(DemoLogic::logic_fps(RtKind::TUI), 10);
    assert_eq!(DemoLogic::logic_fps(RtKind::MacOS), 60);
    let c = DemoLogic::config(RtKind::Test);
    assert_eq!(c.name, "Demo");
    assert_eq!(c.resolution, (320, 200));
    assert_eq!(c.logic_fps, 60);
}

#[test]
fn demo_state_takes_the_textures_in_order() {
    let ids: [Id<Tex>; 3] = [Id::new(1, 0, 0), Id::new(1, 1, 0), Id::new(1, 2, 0)];
    let s = DemoLogic::state(&ids);
    assert_eq!(s.bubu_tex.idx(), 0);
    assert_eq!(s.toge_tex.idx(), 1);
    assert_eq!(s.lima_tex.idx(), 2);
}

#[test]
fn demo_loads_its_three_textures() {
    assert_eq!(
        DemoLogic::texture_paths(),
        ["assets/paltex/bubu.paltex", "assets/paltex/toge.paltex", "assets/paltex/lima.paltex"]
    );
}
