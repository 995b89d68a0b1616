//! Where the panels stand on the screen.

use vstd::prelude::*;

use crate::outside::{may_split, split};
use crate::screen::Extent;

verus! {

/// A rectangle of cells.
#[derive(Debug, Clone, Copy, PartialEq, Eq, Structural)]
pub struct Area {
    pub x: u16,
    pub y: u16,
    pub width: u16,
    pub height: u16,
}

/// Whether a part of an area keeps its place and size in the direction in which
/// the area was not divided: the width where the parts stand below each other,
/// the height where they stand beside each other.
pub open spec fn keeps(part: Area, area: Area, vertical: bool) -> bool {
    if vertical {
        part.x == area.x && part.width == area.width
    } else {
        part.y == area.y && part.height == area.height
    }
}

/// Whether an area was divided into so many parts.
pub open spec fn divided(parts: Seq<Area>, area: Area, vertical: bool, n: nat) -> bool {
    &&& parts.len() == n
    &&& forall|i: int| 0 <= i < n ==> keeps(#[trigger] parts[i], area, vertical)
}

/// Whether parts of an area are some that it may be divided into for the given
/// extents, one for each.
pub open spec fn parted(parts: Seq<Area>, area: Area, vertical: bool, extents: Seq<Extent>) -> bool {
    may_split(area, vertical, extents, parts) && divided(parts, area, vertical, extents.len())
}

/// Whether an area was divided into two parts, for one extent each.
pub open spec fn halved(
    first: Area,
    second: Area,
    area: Area,
    vertical: bool,
    one: Extent,
    other: Extent,
) -> bool {
    parted(seq![first, second], area, vertical, seq![one, other])
}

fn halves(area: Area, vertical: bool, one: Extent, other: Extent) -> (r: (Area, Area))
    ensures
        halved(r.0, r.1, area, vertical, one, other),
{
    let extents = vec![one, other];
    assert(extents@ =~= seq![one, other]);
    let parts = split(area, vertical, &extents);
    assert(parts@ =~= seq![parts@[0], parts@[1]]);
    (parts[0], parts[1])
}

/// The areas of the panels. The panels beside processors and memory share one.
#[derive(Debug, Clone, Copy, PartialEq, Eq, Structural)]
pub struct Screen {
    pub cpu: Area,
    pub memory: Area,
    pub right: Area,
    pub io: Area,
    pub temperature: Area,
    pub processes: Area,
    pub help: Area,
}

/// Whether the areas divide the screen: above, processors over memory on the
/// left of the rest; below, rates over temperatures on the left of the
/// processes over the line of help.
pub open spec fn divides_screen(s: Screen, size: Area) -> bool {
    exists|top: Area, low: Area, left: Area, low_left: Area, low_right: Area|
        {
            &&& #[trigger] halved(top, low, size, true, Extent::Min(20), Extent::Percentage(50))
            &&& #[trigger] halved(
                left,
                s.right,
                top,
                false,
                Extent::Percentage(50),
                Extent::Percentage(50),
            )
            &&& #[trigger] halved(
                low_left,
                low_right,
                low,
                false,
                Extent::Percentage(20),
                Extent::Percentage(80),
            )
            &&& halved(s.cpu, s.memory, left, true, Extent::Min(10), Extent::Length(8))
            &&& halved(
                s.io,
                s.temperature,
                low_left,
                true,
                Extent::Percentage(50),
                Extent::Percentage(50),
            )
            &&& halved(
                s.processes,
                s.help,
                low_right,
                true,
                Extent::Min(10),
                Extent::Length(2),
            )
        }
}

/// The areas of the panels on a screen.
pub fn screen_areas(size: Area) -> (s: Screen)
    ensures
        divides_screen(s, size),
{
    let (top, low) = halves(size, true, Extent::Min(20), Extent::Percentage(50));
    let (left, right) = halves(top, false, Extent::Percentage(50), Extent::Percentage(50));
    let (low_left, low_right) = halves(low, false, Extent::Percentage(20), Extent::Percentage(80));
    let (cpu, memory) = halves(left, true, Extent::Min(10), Extent::Length(8));
    let (io, temperature) = halves(low_left, true, Extent::Percentage(50), Extent::Percentage(50));
    let (processes, help) = halves(low_right, true, Extent::Min(10), Extent::Length(2));
    let s = Screen { cpu, memory, right, io, temperature, processes, help };
    assert(halved(top, low, size, true, Extent::Min(20), Extent::Percentage(50)));
    assert(halved(
        left,
        s.right,
        top,
        false,
        Extent::Percentage(50),
        Extent::Percentage(50),
    ));
    assert(halved(
        low_left,
        low_right,
        low,
        false,
        Extent::Percentage(20),
        Extent::Percentage(80),
    ));
    s
}

/// The panels that stand below each other beside processors and memory.
#[derive(Debug, Clone, Copy, PartialEq, Eq, Structural)]
pub enum RightPanel {
    System,
    Gpu,
    Npu,
    Rga,
    Stats,
}

/// The right panels: the system and the facts always, between them those of
/// the accelerators that the board has.
pub open spec fn right_panels(gpu: bool, npu: bool, rga: bool) -> Seq<RightPanel> {
    seq![RightPanel::System] + (if gpu {
        seq![RightPanel::Gpu]
    } else {
        Seq::empty()
    }) + (if npu {
        seq![RightPanel::Npu]
    } else {
        Seq::empty()
    }) + (if rga {
        seq![RightPanel::Rga]
    } else {
        Seq::empty()
    }) + seq![RightPanel::Stats]
}

/// The height of a right panel.
pub open spec fn panel_height(panel: RightPanel) -> u16 {
    match panel {
        RightPanel::System => 9,
        RightPanel::Gpu => 6,
        RightPanel::Npu => 7,
        RightPanel::Rga => 5,
        RightPanel::Stats => 8,
    }
}

/// The room that is asked for: the height of each panel, and what is left at
/// the end.
pub open spec fn right_extents(panels: Seq<RightPanel>) -> Seq<Extent> {
    panels.map_values(|p: RightPanel| Extent::Length(panel_height(p))).push(Extent::Min(0))
}

/// The right panels of a board.
pub fn right_panels_of(gpu: bool, npu: bool, rga: bool) -> (panels: Vec<RightPanel>)
    ensures
        panels@ == right_panels(gpu, npu, rga),
{
    let mut panels: Vec<RightPanel> = Vec::new();
    panels.push(RightPanel::System);
    if gpu {
        panels.push(RightPanel::Gpu);
    }
    if npu {
        panels.push(RightPanel::Npu);
    }
    if rga {
        panels.push(RightPanel::Rga);
    }
    panels.push(RightPanel::Stats);
    assert(panels@ =~= right_panels(gpu, npu, rga));
    panels
}

/// The room that is asked for.
pub fn right_extents_of(panels: &Vec<RightPanel>) -> (extents: Vec<Extent>)
    ensures
        extents@ == right_extents(panels@),
{
    let mut extents: Vec<Extent> = Vec::new();
    let mut i: usize = 0;
    while i < panels.len()
        invariant
            i <= panels@.len(),
            extents@ =~= right_extents(panels@).take(i as int),
        decreases panels.len() - i,
    {
        let height: u16 = match panels[i] {
            RightPanel::System => 9,
            RightPanel::Gpu => 6,
            RightPanel::Npu => 7,
            RightPanel::Rga => 5,
            RightPanel::Stats => 8,
        };
        extents.push(Extent::Length(height));
        i += 1;
    }
    extents.push(Extent::Min(0));
    assert(extents@ =~= right_extents(panels@));
    extents
}

/// The panels with their areas, in order; the areas that are left over are not
/// used.
pub open spec fn placed(panels: Seq<RightPanel>, parts: Seq<Area>) -> Seq<(RightPanel, Area)> {
    Seq::new(panels.len(), |i: int| (panels[i], parts[i]))
}

/// The panels with their areas.
pub fn place(panels: &Vec<RightPanel>, parts: &Vec<Area>) -> (r: Vec<(RightPanel, Area)>)
    requires
        panels@.len() <= parts@.len(),
    ensures
        r@ == placed(panels@, parts@),
{
    let mut r: Vec<(RightPanel, Area)> = Vec::new();
    let mut i: usize = 0;
    while i < panels.len()
        invariant
            i <= panels@.len() <= parts@.len(),
            r@ =~= placed(panels@, parts@).take(i as int),
        decreases panels.len() - i,
    {
        r.push((panels[i], parts[i]));
        i += 1;
    }
    assert(r@ =~= placed(panels@, parts@));
    r
}

/// The right panels of a board with their areas.
pub fn right_areas(area: Area, gpu: bool, npu: bool, rga: bool) -> (r: Vec<(RightPanel, Area)>)
    ensures
        exists|parts: Seq<Area>| #[trigger]
            parted(
                parts,
                area,
                true,
                right_extents(right_panels(gpu, npu, rga)),
            ) && r@ == placed(right_panels(gpu, npu, rga), parts),
{
    let panels = right_panels_of(gpu, npu, rga);
    let extents = right_extents_of(&panels);
    let parts = split(area, true, &extents);
    assert(parted(parts@, area, true, right_extents(right_panels(gpu, npu, rga))));
    place(&panels, &parts)
}

/// On every board the system comes first and the facts last, no panel comes
/// twice, and an accelerator has a panel if and only if the board has it.
pub proof fn right_panels_are_in_order(gpu: bool, npu: bool, rga: bool)
    ensures
        right_panels(gpu, npu, rga).first() == RightPanel::System,
        right_panels(gpu, npu, rga).last() == RightPanel::Stats,
        right_panels(gpu, npu, rga).no_duplicates(),
        right_panels(gpu, npu, rga).contains(RightPanel::Gpu) == gpu,
        right_panels(gpu, npu, rga).contains(RightPanel::Npu) == npu,
        right_panels(gpu, npu, rga).contains(RightPanel::Rga) == rga,
{
    let panels = right_panels(gpu, npu, rga);
    let a: int = 1;
    let b: int = if gpu {
        2
    } else {
        1
    };
    let c: int = if npu {
        b + 1
    } else {
        b
    };
    if gpu {
        assert(panels[a] == RightPanel::Gpu);
    }
    if npu {
        assert(panels[b] == RightPanel::Npu);
    }
    if rga {
        assert(panels[c] == RightPanel::Rga);
    }
}

/// The panels stand in one order: the system, the graphics unit, the neural unit,
/// the scaler and the facts, those that the board lacks left out. Each asks for its
/// own height, and what is left is asked for at the end.
pub proof fn each_panel_has_its_height(gpu: bool, npu: bool, rga: bool, i: int)
    requires
        0 <= i < right_panels(gpu, npu, rga).len(),
    ensures
        ({
            let panels = right_panels(gpu, npu, rga);
            let extents = right_extents(panels);
            let n: int = if gpu {
                1
            } else {
                0
            };
            let m: int = if npu {
                n + 1
            } else {
                n
            };
            let k: int = if rga {
                m + 1
            } else {
                m
            };
            &&& panels.len() == k + 2
            &&& extents.len() == k + 3
            &&& extents.last() == Extent::Min(0)
            &&& panels[0] == RightPanel::System && panels[k + 1] == RightPanel::Stats
            &&& gpu ==> panels[1] == RightPanel::Gpu
            &&& npu ==> panels[n + 1] == RightPanel::Npu
            &&& rga ==> panels[m + 1] == RightPanel::Rga
            &&& extents[i] == Extent::Length(
                match panels[i] {
                    RightPanel::System => 9,
                    RightPanel::Gpu => 6,
                    RightPanel::Npu => 7,
                    RightPanel::Rga => 5,
                    RightPanel::Stats => 8,
                },
            )
        }),
{
}

/// Each panel has the part of the area that was made for it.
pub proof fn each_panel_has_its_part(panels: Seq<RightPanel>, parts: Seq<Area>, i: int)
    requires
        0 <= i < panels.len(),
    ensures
        placed(panels, parts).len() == panels.len(),
        placed(panels, parts)[i].0 == panels[i],
        placed(panels, parts)[i].1 == parts[i],
{
}

/// The screen is divided with these extents: at least twenty lines above and half of it
/// below; above, two halves, of which the left one has at least ten lines and below
/// them eight; below, a fifth and four fifths, of which the first has two halves and
/// the second at least ten lines and below them two.
pub proof fn the_screen_is_divided_so(s: Screen, size: Area) -> (r: (Area, Area, Area, Area, Area))
    requires
        divides_screen(s, size),
    ensures
        ({
            let (top, low, left, low_left, low_right) = r;
            let p = |n: u16| Extent::Percentage(n);
            &&& may_split(size, true, seq![Extent::Min(20), p(50)], seq![top, low])
            &&& may_split(top, false, seq![p(50), p(50)], seq![left, s.right])
            &&& may_split(low, false, seq![p(20), p(80)], seq![low_left, low_right])
            &&& may_split(left, true, seq![Extent::Min(10), Extent::Length(8)], seq![s.cpu, s.memory])
            &&& may_split(low_left, true, seq![p(50), p(50)], seq![s.io, s.temperature])
            &&& may_split(
                low_right,
                true,
                seq![Extent::Min(10), Extent::Length(2)],
                seq![s.processes, s.help],
            )
            &&& s.cpu.x == s.memory.x && s.cpu.width == s.memory.width
            &&& s.io.x == s.temperature.x && s.io.width == s.temperature.width
            &&& s.processes.x == s.help.x && s.processes.width == s.help.width
            &&& top.x == size.x && top.width == size.width && low.x == size.x && low.width
                == size.width
        }),
{
    let (top, low, left, low_left, low_right) = choose|
        top: Area,
        low: Area,
        left: Area,
        low_left: Area,
        low_right: Area,
    |
        {
            &&& #[trigger] halved(top, low, size, true, Extent::Min(20), Extent::Percentage(50))
            &&& #[trigger] halved(
                left,
                s.right,
                top,
                false,
                Extent::Percentage(50),
                Extent::Percentage(50),
            )
            &&& #[trigger] halved(
                low_left,
                low_right,
                low,
                false,
                Extent::Percentage(20),
                Extent::Percentage(80),
            )
            &&& halved(s.cpu, s.memory, left, true, Extent::Min(10), Extent::Length(8))
            &&& halved(
                s.io,
                s.temperature,
                low_left,
                true,
                Extent::Percentage(50),
                Extent::Percentage(50),
            )
            &&& halved(
                s.processes,
                s.help,
                low_right,
                true,
                Extent::Min(10),
                Extent::Length(2),
            )
        };
    lemma_halves_keep(top, low, size, true, Extent::Min(20), Extent::Percentage(50));
    lemma_halves_keep(s.cpu, s.memory, left, true, Extent::Min(10), Extent::Length(8));
    lemma_halves_keep(
        s.io,
        s.temperature,
        low_left,
        true,
        Extent::Percentage(50),
        Extent::Percentage(50),
    );
    lemma_halves_keep(s.processes, s.help, low_right, true, Extent::Min(10), Extent::Length(2));
    (top, low, left, low_left, low_right)
}

proof fn lemma_halves_keep(
    first: Area,
    second: Area,
    area: Area,
    vertical: bool,
    one: Extent,
    other: Extent,
)
    requires
        halved(first, second, area, vertical, one, other),
    ensures
        keeps(first, area, vertical),
        keeps(second, area, vertical),
{
    let parts = seq![first, second];
    assert(parts[0] == first && parts[1] == second);
}

} // verus!
