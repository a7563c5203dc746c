//! The terrain grid: the heights of all rows of the elevation raster joined
//! into one vector, row after row, and the width of a row.
use vstd::prelude::*;

verus! {

/// Terrain heights, one per grid cell. The cell in column `x` of row `y` is
/// `heights[width * y + x]`. Each height is the elevation of the raster
/// taken as a `usize`.
pub struct Terrain {
    pub width: usize,
    pub heights: Vec<usize>,
}

/// The flat index of the cell in column `x` of row `y`, computed as the
/// radar does: with the row width taken as an `i32`.
pub open spec fn flat_index(width: usize, x: i32, y: i32) -> int {
    (width as i32) * y + x
}

/// Whether the flat index of a cell can be computed in `i32`.
pub open spec fn index_fits(width: usize, x: i32, y: i32) -> bool {
    i32::MIN <= flat_index(width, x, y) <= i32::MAX
}

/// A point of a path, as column, row and altitude.
pub type GridPoint = (i32, i32, i32);

/// The flat index of the cell under a point.
pub open spec fn point_index(width: usize, p: GridPoint) -> int {
    flat_index(width, p.0, p.1)
}

/// A point whose cell lies on a grid of `len` cells.
pub open spec fn cell_readable(width: usize, len: int, p: GridPoint) -> bool {
    index_fits(width, p.0, p.1) && 0 <= point_index(width, p) < len
}

/// A point whose cell lies off a grid of `len` cells, beyond the end or at a
/// negative index. (An index that is exactly `len` is neither.)
pub open spec fn cell_missing(width: usize, len: int, p: GridPoint) -> bool {
    index_fits(width, p.0, p.1) && (point_index(width, p) < 0 || point_index(width, p) > len)
}

/// A point is on or below the terrain where its altitude, taken as a `usize`,
/// is at most the terrain height. A negative altitude taken so is a very
/// large number.
pub open spec fn sample_hits(altitude: i32, height: usize) -> bool {
    (altitude as usize) <= height
}

/// The terrain height under a point.
pub open spec fn height_under(width: usize, heights: Seq<usize>, p: GridPoint) -> usize {
    heights[point_index(width, p)]
}

/// The flat index of the cell in column `x` of row `y`, or `None` where it
/// does not fit in an `i32`.
pub fn cell_index(width: usize, x: i32, y: i32) -> (r: Option<i32>)
    ensures
        r is Some <==> index_fits(width, x, y),
        r matches Some(i) ==> i as int == flat_index(width, x, y),
{
    let w: i64 = (#[verifier::truncate] (width as i32)) as i64;
    proof {
        let wi = w as int;
        let yi = y as int;
        assert(-0x4000_0000_0000_0000 <= wi * yi <= 0x4000_0000_0000_0000) by (nonlinear_arith)
            requires
                -0x8000_0000 <= wi <= 0x7fff_ffff,
                -0x8000_0000 <= yi <= 0x7fff_ffff,
        {
        }
    }
    let v: i64 = w * (y as i64) + (x as i64);
    if v < -0x8000_0000i64 || v > 0x7fff_ffffi64 {
        None
    } else {
        Some(v as i32)
    }
}

/// What a point reads from the grid: `Err(1)` where its cell lies off the
/// grid; otherwise the terrain height under it and whether it is on or below
/// that height.
pub open spec fn probe_outcome(width: usize, heights: Seq<usize>, p: GridPoint) -> Result<
    (usize, bool),
    i32,
> {
    if cell_readable(width, heights.len() as int, p) {
        Ok((height_under(width, heights, p), sample_hits(p.2, height_under(width, heights, p))))
    } else {
        Err(1)
    }
}

/// The grid is stored row after row: the first cell has index 0, the next
/// column is the next index, and the next row is `width` indices further on
/// (for a width that fits in an `i32`).
pub proof fn lemma_flat_index_row_major(width: usize, x: i32, y: i32)
    requires
        width <= i32::MAX,
    ensures
        flat_index(width, 0, 0) == 0,
        x < i32::MAX ==> flat_index(width, (x + 1) as i32, y) == flat_index(width, x, y) + 1,
        y < i32::MAX ==> flat_index(width, x, (y + 1) as i32) == flat_index(width, x, y)
            + width,
{
    assert((width as i32) as int == width as int);
    let w = width as int;
    let yi = y as int;
    assert(w * (yi + 1) == w * yi + w) by (nonlinear_arith);
    assert(w * 0 == 0);
}

/// A point hits the terrain by its altitude: a non-negative altitude hits
/// exactly when it is at most the height (so a point strictly above its cell
/// never hits); a negative altitude, taken as a `usize`, wraps around to a
/// number above `i32::MAX`, so it hits only a height above `i32::MAX`.
pub proof fn lemma_sample_hits_by_altitude(altitude: i32, height: usize)
    ensures
        altitude >= 0 ==> (sample_hits(altitude, height) <==> altitude <= height),
        altitude < 0 && sample_hits(altitude, height) ==> height > i32::MAX,
{
    assert(altitude < 0 ==> (altitude as usize) > 0x7fff_ffffusize) by (bit_vector);
}

/// Looking up a point reads its own cell: the lookup succeeds exactly where
/// the index fits in an `i32` and lies on the grid, the height read is the
/// one stored at that index, the point hits exactly where its non-negative
/// altitude is at most that height, and a failure is `Err(1)`.
pub proof fn lemma_probe_reads_its_cell(width: usize, heights: Seq<usize>, p: GridPoint)
    ensures
        probe_outcome(width, heights, p) is Ok <==> (i32::MIN <= flat_index(width, p.0, p.1)
            <= i32::MAX && 0 <= flat_index(width, p.0, p.1) < heights.len()),
        probe_outcome(width, heights, p) matches Ok((h, hit)) ==> h == heights[flat_index(
            width,
            p.0,
            p.1,
        )] && (p.2 >= 0 ==> (hit <==> p.2 <= h)),
        probe_outcome(width, heights, p) matches Err(code) ==> code == 1,
{
    if cell_readable(width, heights.len() as int, p) {
        lemma_sample_hits_by_altitude(p.2, height_under(width, heights, p));
    }
}

impl Terrain {
    /// Looks up the terrain under one point of a path. Its cell index must
    /// fit in an `i32` and must not be exactly the number of cells (there the
    /// lookup fails with a panic).
    pub fn probe(&self, p: GridPoint) -> (r: Result<(usize, bool), i32>)
        requires
            cell_readable(self.width, self.heights.len() as int, p) || cell_missing(
                self.width,
                self.heights.len() as int,
                p,
            ),
        ensures
            r == probe_outcome(self.width, self.heights@, p),
    {
        let i = match cell_index(self.width, p.0, p.1) {
            Some(i) => i,
            None => {
                return Err(1);
            },
        };
        if i < 0 {
            return Err(1);
        }
        if (i as usize) > self.heights.len() {
            return Err(1);
        }
        let height = self.heights[i as usize];
        let hit = (p.2 as usize) <= height;
        Ok((height, hit))
    }
}

} // verus!
