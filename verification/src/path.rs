//! The path between two grid points: its direction, the axis along which it
//! is sampled and the range of that axis that the samples cover.
use vstd::prelude::*;
use crate::grid::GridPoint;

verus! {

/// An axis of the grid: column, row or altitude.
#[derive(Clone, Copy, Debug, PartialEq, Eq, Structural)]
pub enum Axis {
    X,
    Y,
    Z,
}

/// The coordinate of a point along an axis.
pub open spec fn coord(p: GridPoint, axis: Axis) -> i32 {
    match axis {
        Axis::X => p.0,
        Axis::Y => p.1,
        Axis::Z => p.2,
    }
}

/// The largest of the three components of a direction (signed, not by
/// magnitude).
pub open spec fn max3(d: GridPoint) -> i32 {
    let m = if d.0 >= d.1 {
        d.0
    } else {
        d.1
    };
    if m >= d.2 {
        m
    } else {
        d.2
    }
}

/// The axis along which a path of direction `d` is sampled: the first axis,
/// in the order column, row, altitude, whose component is the largest.
pub open spec fn leading_axis_of(d: GridPoint) -> Axis {
    if d.0 == max3(d) {
        Axis::X
    } else if d.1 == max3(d) {
        Axis::Y
    } else {
        Axis::Z
    }
}

/// Whether each component of `b - a` fits in an `i32`.
pub open spec fn direction_fits(a: GridPoint, b: GridPoint) -> bool {
    &&& i32::MIN <= b.0 - a.0 <= i32::MAX
    &&& i32::MIN <= b.1 - a.1 <= i32::MAX
    &&& i32::MIN <= b.2 - a.2 <= i32::MAX
}

/// How a path from one point to another is sampled: one sample for each
/// value of the leading axis from `first` to `last`, both included.
#[derive(Clone, Copy, Debug)]
pub struct PathPlan {
    pub direction: GridPoint,
    pub axis: Axis,
    pub first: i32,
    pub last: i32,
}

/// The axis along which a path of the given direction is sampled.
pub fn leading_axis(d: GridPoint) -> (axis: Axis)
    ensures
        axis == leading_axis_of(d),
        coord(d, axis) == max3(d),
{
    let m01 = if d.1 >= d.0 {
        d.1
    } else {
        d.0
    };
    let m = if d.2 >= m01 {
        d.2
    } else {
        m01
    };
    if m == d.0 {
        Axis::X
    } else if m == d.1 {
        Axis::Y
    } else {
        Axis::Z
    }
}

/// Plans the path from `a` to `b`: its direction `b - a`, its leading axis,
/// and the range of that axis between the two points, lower end first.
pub fn plan_path(a: GridPoint, b: GridPoint) -> (plan: PathPlan)
    requires
        direction_fits(a, b),
    ensures
        plan.direction == (
            (b.0 - a.0) as i32,
            (b.1 - a.1) as i32,
            (b.2 - a.2) as i32,
        ),
        plan.axis == leading_axis_of(plan.direction),
        coord(plan.direction, plan.axis) == max3(plan.direction),
        plan.first as int == if coord(a, plan.axis) <= coord(b, plan.axis) {
            coord(a, plan.axis)
        } else {
            coord(b, plan.axis)
        },
        plan.last as int == if coord(a, plan.axis) <= coord(b, plan.axis) {
            coord(b, plan.axis)
        } else {
            coord(a, plan.axis)
        },
        plan.first <= coord(a, plan.axis) <= plan.last,
        plan.first <= coord(b, plan.axis) <= plan.last,
        plan.axis == Axis::X ==> plan.first == (if a.0 <= b.0 {
            a.0
        } else {
            b.0
        }) && plan.last == (if a.0 <= b.0 {
            b.0
        } else {
            a.0
        }),
        plan.axis == Axis::Y ==> plan.first == (if a.1 <= b.1 {
            a.1
        } else {
            b.1
        }) && plan.last == (if a.1 <= b.1 {
            b.1
        } else {
            a.1
        }),
        plan.axis == Axis::Z ==> plan.first == (if a.2 <= b.2 {
            a.2
        } else {
            b.2
        }) && plan.last == (if a.2 <= b.2 {
            b.2
        } else {
            a.2
        }),
{
    let direction = (b.0 - a.0, b.1 - a.1, b.2 - a.2);
    let axis = leading_axis(direction);
    let (ca, cb) = match axis {
        Axis::X => (a.0, b.0),
        Axis::Y => (a.1, b.1),
        Axis::Z => (a.2, b.2),
    };
    let first = if ca <= cb {
        ca
    } else {
        cb
    };
    let last = if ca <= cb {
        cb
    } else {
        ca
    };
    PathPlan { direction, axis, first, last }
}

/// The distance between two coordinates.
pub open spec fn abs_diff(a: i32, b: i32) -> int {
    if a >= b {
        a - b
    } else {
        b - a
    }
}

/// The volume of the box that two points span: the product of the distances
/// between their coordinates, computed in `i32` in the order column, row,
/// altitude. Each difference must fit in an `i32` and have a magnitude that
/// fits too, and so must the partial and the full product.
pub fn span_volume(a: GridPoint, b: GridPoint) -> (v: i32)
    requires
        i32::MIN < a.0 - b.0 <= i32::MAX,
        i32::MIN < a.1 - b.1 <= i32::MAX,
        i32::MIN < a.2 - b.2 <= i32::MAX,
        abs_diff(a.0, b.0) * abs_diff(a.1, b.1) <= i32::MAX,
        abs_diff(a.0, b.0) * abs_diff(a.1, b.1) * abs_diff(a.2, b.2) <= i32::MAX,
    ensures
        v == abs_diff(a.0, b.0) * abs_diff(a.1, b.1) * abs_diff(a.2, b.2),
{
    let dx = a.0 - b.0;
    let dy = a.1 - b.1;
    let dz = a.2 - b.2;
    let ax = if dx < 0 {
        -dx
    } else {
        dx
    };
    let ay = if dy < 0 {
        -dy
    } else {
        dy
    };
    let az = if dz < 0 {
        -dz
    } else {
        dz
    };
    assert(ax as int == abs_diff(a.0, b.0));
    assert(ay as int == abs_diff(a.1, b.1));
    assert(az as int == abs_diff(a.2, b.2));
    proof {
        let (x, y, z) = (ax as int, ay as int, az as int);
        assert(0 <= x * y) by (nonlinear_arith)
            requires
                0 <= x,
                0 <= y,
        {
        }
        assert(0 <= x * y * z) by (nonlinear_arith)
            requires
                0 <= x * y,
                0 <= z,
        {
        }
    }
    let xy = ax * ay;
    xy * az
}

/// The coordinate along each axis is the matching component of a point:
/// the column along `X`, the row along `Y` and the altitude along `Z`.
pub proof fn lemma_coord_components(p: GridPoint)
    ensures
        coord(p, Axis::X) == p.0,
        coord(p, Axis::Y) == p.1,
        coord(p, Axis::Z) == p.2,
{
}

/// The largest component is at least each component and is one of them.
pub proof fn lemma_max3_is_largest(d: GridPoint)
    ensures
        max3(d) >= d.0,
        max3(d) >= d.1,
        max3(d) >= d.2,
        max3(d) == d.0 || max3(d) == d.1 || max3(d) == d.2,
{
}

/// The leading axis is the one whose component is largest; ties go to the
/// earlier axis in the order column, row, altitude.
pub proof fn lemma_leading_axis_is_largest(d: GridPoint)
    ensures
        leading_axis_of(d) == Axis::X <==> (d.0 >= d.1 && d.0 >= d.2),
        leading_axis_of(d) == Axis::Y <==> (d.1 > d.0 && d.1 >= d.2),
        leading_axis_of(d) == Axis::Z <==> (d.2 > d.0 && d.2 > d.1),
{
}

/// The distance between two coordinates is never negative, does not depend
/// on their order, and is the larger less the smaller.
pub proof fn lemma_abs_diff_is_distance(a: i32, b: i32)
    ensures
        abs_diff(a, b) >= 0,
        abs_diff(a, b) == abs_diff(b, a),
        a >= b ==> abs_diff(a, b) == a - b,
        a == b ==> abs_diff(a, b) == 0,
{
}

} // verus!
