//! The window's layout: the title bar, the two panes and the status bar,
//! and centered popups, split with ratatui's layout solver.

use vstd::prelude::*;
use ratatui::layout::{Constraint as RConstraint, Direction, Layout, Rect};
use crate::style::Area;

verus! {

/// A size constraint of a layout slot.
#[derive(Clone, Copy, PartialEq, Eq, Structural, Debug)]
pub enum Constraint {
    Length(u16),
    Min(u16),
    Percentage(u16),
}

/// The areas that ratatui's `Layout` gives for the constraints, top to
/// bottom (`vertical`) or left to right, over `area`.
pub uninterp spec fn split_of(vertical: bool, cs: Seq<Constraint>, area: Area) -> Seq<Area>;

/// ratatui `Layout::split` with these constraints and direction over the
/// area (no margin, default flex and spacing), one area per constraint as
/// the solver builds one segment for each. The areas are named `split_of`,
/// a function of the direction, the constraints and the area.
#[verifier::external_body]
fn split(vertical: bool, cs: &Vec<Constraint>, area: Area) -> (r: Vec<Area>)
    ensures
        r@ == split_of(vertical, cs@, area),
        r@.len() == cs@.len(),
{
    let dir = if vertical { Direction::Vertical } else { Direction::Horizontal };
    let cons = cs.iter().map(|c| match *c {
        Constraint::Length(n) => RConstraint::Length(n),
        Constraint::Min(n) => RConstraint::Min(n),
        Constraint::Percentage(n) => RConstraint::Percentage(n),
    });
    let rects = Layout::default().direction(dir).constraints(cons.collect::<Vec<_>>()).split(Rect::new(area.x, area.y, area.width, area.height));
    rects.iter().map(|r| Area { x: r.x, y: r.y, width: r.width, height: r.height }).collect()
}

/// The screen: a one-row title bar, the panes (at least three rows), a
/// one-row status bar.
pub open spec fn screen_of(area: Area) -> Seq<Area> {
    split_of(true, seq![Constraint::Length(1), Constraint::Min(3), Constraint::Length(1)], area)
}

/// Split the screen (see `screen_of`).
pub fn screen(area: Area) -> (r: (Area, Area, Area))
    ensures
        screen_of(area).len() == 3,
        r == (screen_of(area)[0], screen_of(area)[1], screen_of(area)[2]),
{
    let cs = vec![Constraint::Length(1), Constraint::Min(3), Constraint::Length(1)];
    assert(cs@ =~= seq![Constraint::Length(1), Constraint::Min(3), Constraint::Length(1)]);
    let v = split(true, &cs, area);
    (v[0], v[1], v[2])
}

/// The panes: the editor takes half the width, the preview the rest.
pub open spec fn panes_of(area: Area) -> Seq<Area> {
    split_of(false, seq![Constraint::Length(area.width / 2), Constraint::Min(1)], area)
}

/// Split the main area into the editor and preview panes (see
/// `panes_of`).
pub fn panes(area: Area) -> (r: (Area, Area))
    ensures
        panes_of(area).len() == 2,
        r == (panes_of(area)[0], panes_of(area)[1]),
{
    let cs = vec![Constraint::Length(area.width / 2), Constraint::Min(1)];
    assert(cs@ =~= seq![Constraint::Length(area.width / 2), Constraint::Min(1)]);
    let v = split(false, &cs, area);
    (v[0], v[1])
}

/// A popup of `px` percent of the width and `py` percent of the height,
/// centered: the middle of three rows, then the middle of three columns.
pub open spec fn centered_of(px: u16, py: u16, area: Area) -> Area {
    let rows = split_of(
        true,
        seq![Constraint::Percentage(((100 - py) / 2) as u16), Constraint::Percentage(py), Constraint::Percentage(((100 - py) / 2) as u16)],
        area,
    );
    split_of(
        false,
        seq![Constraint::Percentage(((100 - px) / 2) as u16), Constraint::Percentage(px), Constraint::Percentage(((100 - px) / 2) as u16)],
        rows[1],
    )[1]
}

/// A centered popup (see `centered_of`).
pub fn centered(px: u16, py: u16, area: Area) -> (r: Area)
    requires
        px <= 100,
        py <= 100,
    ensures
        r == centered_of(px, py, area),
{
    let side_y = (100 - py) / 2;
    let cs = vec![Constraint::Percentage(side_y), Constraint::Percentage(py), Constraint::Percentage(side_y)];
    assert(cs@ =~= seq![Constraint::Percentage(((100 - py) / 2) as u16), Constraint::Percentage(py), Constraint::Percentage(((100 - py) / 2) as u16)]);
    let rows = split(true, &cs, area);
    let side_x = (100 - px) / 2;
    let cs2 = vec![Constraint::Percentage(side_x), Constraint::Percentage(px), Constraint::Percentage(side_x)];
    assert(cs2@ =~= seq![Constraint::Percentage(((100 - px) / 2) as u16), Constraint::Percentage(px), Constraint::Percentage(((100 - px) / 2) as u16)]);
    let cols = split(false, &cs2, rows[1]);
    cols[1]
}

} // verus!
