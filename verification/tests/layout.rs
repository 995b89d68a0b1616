use rktop::layout::{
    place, right_areas, right_extents_of, right_panels_of, screen_areas, Area, RightPanel,
};
use rktop::screen::Extent;

const SCREEN: Area = Area { x: 0, y: 0, width: 200, height: 60 };

#[test]
fn the_screen_is_divided_among_the_panels() {
    let s = screen_areas(SCREEN);
    assert_eq!((s.cpu.x, s.cpu.y, s.cpu.width), (0, 0, 100));
    assert_eq!(s.memory.height, 8);
    assert_eq!(s.cpu.height + s.memory.height, s.right.height);
    assert_eq!((s.right.x, s.right.width), (100, 100));
    assert_eq!((s.io.x, s.io.width, s.temperature.width), (0, 40, 40));
    assert_eq!(s.io.y, s.right.height);
    assert_eq!((s.processes.x, s.processes.width), (40, 160));
    assert_eq!((s.help.x, s.help.width, s.help.height), (40, 160, 2));
    assert_eq!(s.help.y + s.help.height, 60);
    assert_eq!(s.processes.y + s.processes.height, s.help.y);
}

#[test]
fn a_small_screen_is_divided_too() {
    for (width, height) in [(0u16, 0u16), (1, 1), (10, 5), (80, 24), (u16::MAX, u16::MAX)] {
        let s = screen_areas(Area { x: 0, y: 0, width, height });
        assert_eq!((s.cpu.x, s.cpu.width), (s.memory.x, s.memory.width));
        assert_eq!((s.io.x, s.io.width), (s.temperature.x, s.temperature.width));
        assert_eq!((s.processes.x, s.processes.width), (s.help.x, s.help.width));
    }
}

#[test]
fn the_right_panels_follow_the_board() {
    let area = Area { x: 100, y: 0, width: 100, height: 60 };
    let all = right_areas(area, true, true, true);
    let kinds: Vec<RightPanel> = all.iter().map(|p| p.0).collect();
    assert_eq!(
        kinds,
        vec![RightPanel::System, RightPanel::Gpu, RightPanel::Npu, RightPanel::Rga, RightPanel::Stats]
    );
    let places: Vec<(u16, u16)> = all.iter().map(|p| (p.1.y, p.1.height)).collect();
    assert_eq!(places, vec![(0, 9), (9, 6), (15, 7), (22, 5), (27, 8)]);
    assert!(all.iter().all(|p| p.1.x == 100 && p.1.width == 100));
    let none = right_areas(area, false, false, false);
    assert_eq!(none.len(), 2);
    assert_eq!((none[1].0, none[1].1.y), (RightPanel::Stats, 9));
    assert_eq!(right_panels_of(false, true, false), vec![RightPanel::System, RightPanel::Npu, RightPanel::Stats]);
}

#[test]
fn panels_ask_for_their_heights() {
    assert_eq!(
        right_extents_of(&right_panels_of(true, true, true)),
        vec![
            Extent::Length(9),
            Extent::Length(6),
            Extent::Length(7),
            Extent::Length(5),
            Extent::Length(8),
            Extent::Min(0),
        ]
    );
}

#[test]
fn panels_take_the_areas_in_order() {
    let part = |y: u16| Area { x: 0, y, width: 1, height: 1 };
    let panels = vec![RightPanel::System, RightPanel::Stats];
    assert_eq!(
        place(&panels, &vec![part(5), part(3), part(9)]),
        vec![(RightPanel::System, part(5)), (RightPanel::Stats, part(3))]
    );
}
