//! A deterministic turn-based combat simulator on a bounded 2-D grid: two
//! factions of units move and fight under reading-order tie-break rules.
//!
//! The battlefield is a set of open cells; each live unit occupies exactly
//! one open cell, and an occupancy grid and the unit list agree bijectively
//! for live units — the central invariant [`BoardV::wf`].

pub mod model;
pub mod paths;
pub mod sim;

use vstd::prelude::*;

verus! {

/// A unit's side.
#[derive(PartialEq, Eq, Structural, Clone, Copy, Debug)]
pub enum Faction {
    Elf,
    Goblin,
}

/// One combatant: its side, hit points (dead when not positive), and cell.
#[derive(PartialEq, Eq, Structural, Clone, Copy, Debug)]
pub struct Unit {
    pub faction: Faction,
    pub hp: i32,
    pub row: usize,
    pub col: usize,
}

/// The battlefield as executable state.
pub struct Battle {
    /// Which cells are open (passable); everything else is wall.
    pub floor: Vec<Vec<bool>>,
    /// Which unit, if any, stands on each cell.
    pub occ: Vec<Vec<Option<usize>>>,
    /// All units ever created, dead ones included.
    pub units: Vec<Unit>,
}

/// The battlefield as a mathematical value.
pub struct BoardV {
    pub floor: Seq<Seq<bool>>,
    pub occ: Seq<Seq<Option<usize>>>,
    pub units: Seq<Unit>,
}

impl View for Battle {
    type V = BoardV;

    open spec fn view(&self) -> BoardV {
        BoardV {
            floor: self.floor.deep_view(),
            occ: self.occ.deep_view(),
            units: self.units@,
        }
    }
}

/// Reading order: by row, then by column.
pub open spec fn rd_le(a: (int, int), b: (int, int)) -> bool {
    a.0 < b.0 || (a.0 == b.0 && a.1 <= b.1)
}

/// Whether two cells are orthogonal neighbours.
pub open spec fn adjacent(a: (int, int), b: (int, int)) -> bool {
    (a.0 == b.0 && (a.1 == b.1 + 1 || a.1 + 1 == b.1)) || (a.1 == b.1 && (a.0 == b.0 + 1 || a.0
        + 1 == b.0))
}

/// Rows and columns are kept below this bound, so distances and cell counts
/// stay far from overflow.
pub open spec fn dim_bound() -> int {
    0x7fff
}

impl BoardV {
    pub open spec fn rows(self) -> int {
        self.floor.len() as int
    }

    pub open spec fn cols(self) -> int {
        if self.floor.len() == 0 {
            0
        } else {
            self.floor[0].len() as int
        }
    }

    pub open spec fn area(self) -> int {
        self.rows() * self.cols()
    }

    /// The grids are rectangular, with both dimensions bounded, and the unit
    /// list is bounded too.
    pub open spec fn dims_ok(self) -> bool {
        &&& self.occ.len() == self.floor.len()
        &&& forall|r: int|
            0 <= r < self.rows() ==> (#[trigger] self.floor[r]).len() == self.cols()
        &&& forall|r: int| 0 <= r < self.rows() ==> (#[trigger] self.occ[r]).len() == self.cols()
        &&& self.rows() <= dim_bound()
        &&& self.cols() <= dim_bound()
        &&& self.units.len() <= self.area()
    }

    pub open spec fn in_bounds(self, p: (int, int)) -> bool {
        0 <= p.0 < self.rows() && 0 <= p.1 < self.cols()
    }

    /// Whether `p` is an open (passable) cell.
    pub open spec fn is_open(self, p: (int, int)) -> bool {
        self.in_bounds(p) && self.floor[p.0][p.1]
    }

    /// Whether `p` is open and no unit stands on it.
    pub open spec fn is_free(self, p: (int, int)) -> bool {
        self.is_open(p) && self.occ[p.0][p.1] is None
    }

    /// Whether unit `i` exists and is alive.
    pub open spec fn live(self, i: int) -> bool {
        0 <= i < self.units.len() && self.units[i].hp > 0
    }

    pub open spec fn unit_pos(self, i: int) -> (int, int) {
        (self.units[i].row as int, self.units[i].col as int)
    }

    /// The occupancy invariant: live units stand on distinct open cells, the
    /// occupancy grid points back at exactly those units, dead units are
    /// absent from it, and hit points never exceed their starting value.
    pub open spec fn wf(self) -> bool {
        &&& self.dims_ok()
        &&& forall|i: int|
            self.live(i) ==> self.is_open(#[trigger] self.unit_pos(i))
                && self.occ[self.unit_pos(i).0][self.unit_pos(i).1] == Some(i as usize)
        &&& forall|r: int, c: int|
            0 <= r < self.rows() && 0 <= c < self.cols() && #[trigger] self.occ[r][c] is Some
                ==> {
                let i = self.occ[r][c].unwrap() as int;
                &&& self.live(i)
                &&& self.units[i].row == r
                &&& self.units[i].col == c
            }
        &&& forall|i: int| 0 <= i < self.units.len() ==> (#[trigger] self.units[i]).hp <= 200
    }
}

} // verus!
