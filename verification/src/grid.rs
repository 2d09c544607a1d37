//! Shared ownership raster.
//!
//! A bounded 2-D array of packed cells, addressed either by raw raster
//! coordinates (`at_zone`) or by signed world coordinates centred on the
//! origin (`get`, `put`). The grid is plain storage: it owns no group logic
//! and emits no events.

use vstd::prelude::*;

use crate::codec::ZonePointData;
use crate::codec::empty_cell;

verus! {

/// A signed world coordinate of one grid cell.
#[derive(Debug, Clone, Copy, PartialEq, Eq, Structural)]
pub struct GridPoint {
    pub x: i32,
    pub y: i32,
}

/// Half of a grid dimension, the offset between world and raster coordinates.
pub open spec fn spec_half(n: u32) -> int {
    (n as int) / 2
}

/// Whether a world coordinate falls inside a `width` by `height` grid centred
/// on the origin: inside `[-width/2, width/2) x [-height/2, height/2)`.
pub open spec fn in_world_bounds(p: GridPoint, width: u32, height: u32) -> bool {
    &&& -spec_half(width) <= p.x < spec_half(width)
    &&& -spec_half(height) <= p.y < spec_half(height)
}

/// Raster column of an in-bounds world coordinate.
pub open spec fn raster_x(p: GridPoint, width: u32) -> int {
    p.x + spec_half(width)
}

/// Raster row of an in-bounds world coordinate; rows grow downwards, so the
/// world y axis is flipped.
pub open spec fn raster_y(p: GridPoint, height: u32) -> int {
    height - 1 - (p.y + spec_half(height))
}

/// Flat index of raster coordinates is within the buffer.
pub proof fn lemma_flat_index_in_range(width: u32, height: u32, x: int, y: int)
    by (nonlinear_arith)
    requires
        0 <= x < width,
        0 <= y < height,
    ensures
        0 <= y * width + x < (width as int) * (height as int),
{
}

/// Distinct raster coordinates have distinct flat indices.
pub proof fn lemma_flat_index_injective(width: u32, x1: int, y1: int, x2: int, y2: int)
    by (nonlinear_arith)
    requires
        0 <= x1 < width,
        0 <= x2 < width,
        y1 * width + x1 == y2 * width + x2,
    ensures
        x1 == x2 && y1 == y2,
{
}

/// The shared raster of packed ownership cells, plus the id of the group
/// whose zone the renderer currently highlights.
#[derive(Debug, Clone)]
pub struct ZoneMaterial {
    pub zone_map: Vec<ZonePointData>,
    pub width: u32,
    pub height: u32,
    pub highlight_zone_id: u32,
}

impl ZoneMaterial {
    /// The buffer holds exactly one cell per coordinate.
    pub open spec fn wf(self) -> bool {
        &&& self.zone_map@.len() == (self.width as int) * (self.height as int)
        &&& (self.width as int) * (self.height as int) <= u32::MAX as int
    }

    /// Flat index of raster coordinates.
    pub open spec fn spec_index(self, x: u32, y: u32) -> int {
        (y as int) * (self.width as int) + (x as int)
    }

    /// The cell at raster coordinates.
    pub open spec fn spec_cell(self, x: u32, y: u32) -> ZonePointData {
        self.zone_map@[self.spec_index(x, y)]
    }

    /// Flat index of an in-bounds world coordinate.
    pub open spec fn world_index(self, p: GridPoint) -> int {
        raster_y(p, self.height) * (self.width as int) + raster_x(p, self.width)
    }

    /// The cell at an in-bounds world coordinate.
    pub open spec fn world_cell(self, p: GridPoint) -> ZonePointData {
        self.zone_map@[self.world_index(p)]
    }

    /// Whether a world coordinate falls inside this grid.
    pub open spec fn spec_in_bounds(self, p: GridPoint) -> bool {
        in_world_bounds(p, self.width, self.height)
    }

    /// A `width` by `height` grid with every cell empty.
    pub fn new(width: u32, height: u32) -> (r: ZoneMaterial)
        requires
            (width as int) * (height as int) <= u32::MAX as int,
        ensures
            r.wf(),
            r.width == width,
            r.height == height,
            r.highlight_zone_id == 0,
            forall|i: int| 0 <= i < r.zone_map@.len() ==> r.zone_map@[i] == empty_cell(),
    {
        let n = (width * height) as usize;
        let mut zone_map: Vec<ZonePointData> = Vec::new();
        while zone_map.len() < n
            invariant
                zone_map@.len() <= n,
                forall|i: int| 0 <= i < zone_map@.len() ==> zone_map@[i] == empty_cell(),
            decreases n - zone_map@.len(),
        {
            zone_map.push(ZonePointData::new());
        }
        ZoneMaterial { zone_map, width, height, highlight_zone_id: 0 }
    }

    /// Record the group whose zone the renderer highlights: the most recent
    /// selection wins.
    pub fn select_highlight(&mut self, id: u32)
        ensures
            final(self).highlight_zone_id == id,
            final(self).zone_map == old(self).zone_map,
            final(self).width == old(self).width,
            final(self).height == old(self).height,
    {
        self.highlight_zone_id = id;
    }

    /// Clear the highlight when the highlighted group is deselected;
    /// deselecting any other group changes nothing.
    pub fn deselect_highlight(&mut self, id: u32)
        ensures
            final(self).highlight_zone_id
                == if old(self).highlight_zone_id == id { 0u32 } else {
                    old(self).highlight_zone_id
                },
            final(self).zone_map == old(self).zone_map,
            final(self).width == old(self).width,
            final(self).height == old(self).height,
    {
        if self.highlight_zone_id == id {
            self.highlight_zone_id = 0;
        }
    }

    /// The cell at raster coordinates, or `None` outside the raster.
    pub fn at_zone(&self, x: u32, y: u32) -> (r: Option<&ZonePointData>)
        requires
            self.wf(),
        ensures
            r is Some <==> x < self.width && y < self.height,
            r matches Some(c) ==> *c == self.spec_cell(x, y),
    {
        if x >= self.width || y >= self.height {
            None
        } else {
            proof {
                lemma_flat_index_in_range(self.width, self.height, x as int, y as int);
            }
            Some(&self.zone_map[(y * self.width + x) as usize])
        }
    }

    /// Mutable access to the cell at raster coordinates, or `None` outside
    /// the raster. Only the addressed cell can change through the result.
    pub fn at_zone_mut(&mut self, x: u32, y: u32) -> (r: Option<&mut ZonePointData>)
        requires
            old(self).wf(),
        ensures
            r is Some <==> x < old(self).width && y < old(self).height,
            r matches Some(c) ==> {
                &&& *c == old(self).spec_cell(x, y)
                &&& final(self).zone_map@
                    == old(self).zone_map@.update(old(self).spec_index(x, y), *final(c))
                &&& final(self).width == old(self).width
                &&& final(self).height == old(self).height
                &&& final(self).highlight_zone_id == old(self).highlight_zone_id
            },
            r is None ==> *final(self) == *old(self),
    {
        if x >= self.width || y >= self.height {
            None
        } else {
            proof {
                lemma_flat_index_in_range(self.width, self.height, x as int, y as int);
            }
            Some(&mut self.zone_map[(y * self.width + x) as usize])
        }
    }

    /// The cell at a signed world coordinate, or `None` outside the grid.
    pub fn get(&self, p: GridPoint) -> (r: Option<ZonePointData>)
        requires
            self.wf(),
        ensures
            r is Some <==> self.spec_in_bounds(p),
            r matches Some(c) ==> c == self.world_cell(p),
    {
        let half_w = (self.width / 2) as i64;
        let half_h = (self.height / 2) as i64;
        let wx = p.x as i64;
        let wy = p.y as i64;
        if wx < -half_w || wx >= half_w || wy < -half_h || wy >= half_h {
            None
        } else {
            let rx = (wx + half_w) as u32;
            let ry = (self.height as i64 - 1 - (wy + half_h)) as u32;
            proof {
                lemma_flat_index_in_range(self.width, self.height, rx as int, ry as int);
            }
            Some(self.zone_map[(ry * self.width + rx) as usize])
        }
    }

    /// Mutable access to the cell at a signed world coordinate, or `None`
    /// outside the grid. Only the addressed cell can change through the
    /// result.
    pub fn get_mut(&mut self, p: GridPoint) -> (r: Option<&mut ZonePointData>)
        requires
            old(self).wf(),
        ensures
            r is Some <==> in_world_bounds(p, old(self).width, old(self).height),
            r matches Some(c) ==> {
                &&& *c == old(self).world_cell(p)
                &&& final(self).zone_map@
                    == old(self).zone_map@.update(old(self).world_index(p), *final(c))
                &&& final(self).width == old(self).width
                &&& final(self).height == old(self).height
                &&& final(self).highlight_zone_id == old(self).highlight_zone_id
            },
            r is None ==> *final(self) == *old(self),
    {
        let half_w = (self.width / 2) as i64;
        let half_h = (self.height / 2) as i64;
        let wx = p.x as i64;
        let wy = p.y as i64;
        if wx < -half_w || wx >= half_w || wy < -half_h || wy >= half_h {
            None
        } else {
            let rx = (wx + half_w) as u32;
            let ry = (self.height as i64 - 1 - (wy + half_h)) as u32;
            proof {
                lemma_flat_index_in_range(self.width, self.height, rx as int, ry as int);
            }
            Some(&mut self.zone_map[(ry * self.width + rx) as usize])
        }
    }

    /// Overwrite the cell at a signed world coordinate; reports whether the
    /// coordinate was inside the grid. Intended for the synchronizer, the
    /// single writer of the raster.
    pub fn put(&mut self, p: GridPoint, c: ZonePointData) -> (ok: bool)
        requires
            old(self).wf(),
        ensures
            ok <==> old(self).spec_in_bounds(p),
            ok ==> final(self).zone_map@
                == old(self).zone_map@.update(old(self).world_index(p), c),
            !ok ==> final(self).zone_map@ == old(self).zone_map@,
            final(self).width == old(self).width,
            final(self).height == old(self).height,
            final(self).highlight_zone_id == old(self).highlight_zone_id,
            final(self).wf(),
    {
        let half_w = (self.width / 2) as i64;
        let half_h = (self.height / 2) as i64;
        let wx = p.x as i64;
        let wy = p.y as i64;
        if wx < -half_w || wx >= half_w || wy < -half_h || wy >= half_h {
            false
        } else {
            let rx = (wx + half_w) as u32;
            let ry = (self.height as i64 - 1 - (wy + half_h)) as u32;
            proof {
                lemma_flat_index_in_range(self.width, self.height, rx as int, ry as int);
            }
            let slot = &mut self.zone_map[(ry * self.width + rx) as usize];
            *slot = c;
            true
        }
    }
}

/// Distinct in-bounds world coordinates address distinct cells.
pub proof fn lemma_world_index_injective(g: ZoneMaterial, p: GridPoint, q: GridPoint)
    requires
        g.wf(),
        g.spec_in_bounds(p),
        g.spec_in_bounds(q),
        p != q,
    ensures
        g.world_index(p) != g.world_index(q),
        0 <= g.world_index(p) < g.zone_map@.len(),
        0 <= g.world_index(q) < g.zone_map@.len(),
{
    lemma_flat_index_in_range(g.width, g.height, raster_x(p, g.width), raster_y(p, g.height));
    lemma_flat_index_in_range(g.width, g.height, raster_x(q, g.width), raster_y(q, g.height));
    if g.world_index(p) == g.world_index(q) {
        lemma_flat_index_injective(
            g.width,
            raster_x(p, g.width),
            raster_y(p, g.height),
            raster_x(q, g.width),
            raster_y(q, g.height),
        );
    }
}

/// An in-bounds world coordinate addresses a cell inside the buffer.
pub proof fn lemma_world_index_in_range(g: ZoneMaterial, p: GridPoint)
    requires
        g.wf(),
        g.spec_in_bounds(p),
    ensures
        0 <= g.world_index(p) < g.zone_map@.len(),
{
    lemma_flat_index_in_range(g.width, g.height, raster_x(p, g.width), raster_y(p, g.height));
}

} // verus!
