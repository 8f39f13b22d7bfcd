//! The flood as its driver sees it: a grid in flood, the state to go back
//! to, and a pause switch. The driver decides when a tick is due; what a
//! tick, a seed, a pause or a reset does is decided here.

use crate::geometry::Point;
use crate::grid::{cell_holding, with_seed, Grid};
use crate::model::{marked, next_frontier, step};
use crate::spread::lists_frontier;
use vstd::prelude::*;

verus! {

/// A grid in flood, with the grid as it was before any flood.
pub struct FloodEngine {
    active: Grid,
    saved: Grid,
    paused: bool,
}

impl FloodEngine {
    /// The grid in flood.
    pub closed spec fn active(&self) -> Grid {
        self.active
    }

    /// The grid that `reset` goes back to.
    pub closed spec fn saved(&self) -> Grid {
        self.saved
    }

    /// Whether ticks are held back.
    pub closed spec fn paused(&self) -> bool {
        self.paused
    }

    /// An engine over `grid`, running, that goes back to `grid` as it is
    /// now.
    pub fn new(grid: Grid) -> (engine: FloodEngine)
        ensures
            engine.active() == grid,
            engine.saved()@ == grid@,
            engine.saved().frontier() == grid.frontier(),
            !engine.paused(),
    {
        let saved = grid.copy();
        FloodEngine { active: grid, saved, paused: false }
    }

    /// The grid in flood.
    pub fn grid(&self) -> (grid: &Grid)
        ensures
            *grid == self.active(),
    {
        &self.active
    }

    /// Whether ticks are held back.
    pub fn is_paused(&self) -> (b: bool)
        ensures
            b == self.paused(),
    {
        self.paused
    }

    /// One tick. While the engine is paused nothing changes, neither a cell
    /// nor the frontier; otherwise the grid in flood takes one step.
    pub fn tick(&mut self)
        ensures
            final(self).paused() == old(self).paused(),
            final(self).saved() == old(self).saved(),
            old(self).paused() ==> final(self).active() == old(self).active(),
            !old(self).paused() ==> {
                &&& final(self).active()@.cells == step(
                    marked(old(self).active()@.cells, old(self).active().frontier()),
                )
                &&& final(self).active()@.resolution == old(self).active()@.resolution
                &&& final(self).active().frontier() == next_frontier(
                    old(self).active()@.cells,
                    old(self).active().frontier(),
                    old(self).active().frontier().len(),
                )
                &&& lists_frontier(final(self).active()@.cells, final(self).active().frontier())
            },
    {
        if self.paused {
            return ;
        }
        self.active.flood();
    }

    /// Pauses a running engine, and resumes a paused one. The grids stay as
    /// they are.
    pub fn toggle_pause(&mut self)
        ensures
            final(self).paused() == !old(self).paused(),
            final(self).active() == old(self).active(),
            final(self).saved() == old(self).saved(),
    {
        self.paused = !self.paused;
    }

    /// Puts the grid in flood back to the saved state, cells and frontier.
    /// The pause switch stays as it is.
    pub fn reset(&mut self)
        ensures
            final(self).active()@ == old(self).saved()@,
            final(self).active().frontier() == old(self).saved().frontier(),
            final(self).saved() == old(self).saved(),
            final(self).paused() == old(self).paused(),
    {
        self.active.reset(&self.saved);
    }

    /// Starts a flood at the cell that holds the point `world`: its place is
    /// added to the frontier of the grid in flood. No cell changes. Nothing
    /// happens where no cell holds the point, or where that cell is a
    /// building.
    pub fn seed_at(&mut self, world: Point)
        ensures
            final(self).saved() == old(self).saved(),
            final(self).paused() == old(self).paused(),
            final(self).active()@ == old(self).active()@,
            final(self).active().frontier() == match cell_holding(
                old(self).active()@,
                world.x as int,
                world.y as int,
            ) {
                Some(place) => with_seed(
                    old(self).active()@,
                    old(self).active().frontier(),
                    place.0,
                    place.1,
                ),
                None => old(self).active().frontier(),
            },
    {
        match self.active.world_to_cell(world) {
            Some((col, row)) => {
                self.active.start_flood(col, row);
            },
            None => {},
        }
    }
}

} // verus!
