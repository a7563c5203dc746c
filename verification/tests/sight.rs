use primary_radar::grid::{cell_index, Terrain};
use primary_radar::path::{leading_axis, plan_path, span_volume, Axis};
use primary_radar::sight::line_of_sight;

#[test]
fn cell_index_is_row_major() {
    assert_eq!(cell_index(10, 3, 2), Some(23));
    assert_eq!(cell_index(10, -3, 0), Some(-3));
    assert_eq!(cell_index(0, 7, 100), Some(7));
}

#[test]
fn cell_index_overflow_is_none() {
    assert_eq!(cell_index(100_000, 0, 100_000), None);
    assert_eq!(cell_index(1, i32::MAX, 1), None);
    assert_eq!(cell_index(1, i32::MAX, 0), Some(i32::MAX));
}

#[test]
fn cell_index_takes_the_width_as_i32() {
    // A width of 2^32 + 3 is taken as 3, as `as i32` does.
    let width: usize = (1usize << 32) + 3;
    if usize::BITS == 64 {
        assert_eq!(cell_index(width, 1, 2), Some(7));
    }
}

#[test]
fn probe_reads_height_and_hit() {
    let t = Terrain { width: 3, heights: vec![10, 20, 30, 40, 50, 60] };
    assert_eq!(t.probe((1, 1, 49)), Ok((50, true)));
    assert_eq!(t.probe((1, 1, 50)), Ok((50, true)));
    assert_eq!(t.probe((1, 1, 51)), Ok((50, false)));
    assert_eq!(t.probe((0, 3, 0)), Err(1));
    assert_eq!(t.probe((-1, 0, 0)), Err(1));
    // a negative altitude taken as usize is above any real terrain
    assert_eq!(t.probe((0, 0, -5)), Ok((10, false)));
}

#[test]
fn leading_axis_picks_largest_signed_component() {
    assert_eq!(leading_axis((5, 3, 1)), Axis::X);
    assert_eq!(leading_axis((1, 5, 3)), Axis::Y);
    assert_eq!(leading_axis((1, 3, 5)), Axis::Z);
    assert_eq!(leading_axis((-9, -1, -5)), Axis::Y);
    // ties go to the earlier axis
    assert_eq!(leading_axis((4, 4, 4)), Axis::X);
    assert_eq!(leading_axis((0, 4, 4)), Axis::Y);
}

#[test]
fn plan_path_covers_the_leading_range() {
    let plan = plan_path((2, 10, 100), (8, 7, 50));
    assert_eq!(plan.direction, (6, -3, -50));
    assert_eq!(plan.axis, Axis::X);
    assert_eq!((plan.first, plan.last), (2, 8));

    let plan = plan_path((5, 5, 5), (1, 2, 3));
    assert_eq!(plan.direction, (-4, -3, -2));
    assert_eq!(plan.axis, Axis::Z);
    assert_eq!((plan.first, plan.last), (3, 5));

    let plan = plan_path((1, 1, 1), (1, 1, 1));
    assert_eq!(plan.axis, Axis::X);
    assert_eq!((plan.first, plan.last), (1, 1));
}

#[test]
fn span_volume_multiplies_distances() {
    assert_eq!(span_volume((1, 2, 3), (4, 6, 8)), 3 * 4 * 5);
    assert_eq!(span_volume((4, 6, 8), (1, 2, 3)), 60);
    assert_eq!(span_volume((0, 0, 0), (7, 0, 9)), 0);
}

fn terrain() -> Terrain {
    // a 4 x 2 grid
    Terrain { width: 4, heights: vec![100, 100, 300, 100, 100, 100, 100, 100] }
}

#[test]
fn clear_path_is_visible_with_profile() {
    let samples = vec![(0, 0, 200), (1, 0, 250), (3, 1, 150)];
    let r = line_of_sight(&terrain(), &samples);
    assert_eq!(r, Ok((true, vec![(100, 200), (100, 250), (100, 150)])));
}

#[test]
fn a_sample_on_the_terrain_blocks_sight() {
    let samples = vec![(0, 0, 200), (2, 0, 250), (3, 1, 150)];
    let r = line_of_sight(&terrain(), &samples);
    assert_eq!(r, Ok((false, vec![(100, 200), (300, 250), (100, 150)])));
    let touching = vec![(2, 0, 300)];
    assert_eq!(line_of_sight(&terrain(), &touching), Ok((false, vec![(300, 300)])));
}

#[test]
fn empty_path_is_visible() {
    assert_eq!(line_of_sight(&terrain(), &vec![]), Ok((true, vec![])));
}

#[test]
fn sample_off_the_grid_is_an_error() {
    let samples = vec![(0, 0, 200), (1, 2, 200)];
    assert_eq!(line_of_sight(&terrain(), &samples), Err(1));
    let negative = vec![(-1, 0, 200)];
    assert_eq!(line_of_sight(&terrain(), &negative), Err(1));
}

#[test]
fn lower_terrain_keeps_a_clear_path_clear() {
    let samples = vec![(0, 0, 200), (1, 0, 250), (3, 1, 150)];
    let low = Terrain { width: 4, heights: vec![0, 50, 10, 100, 0, 0, 0, 0] };
    assert_eq!(line_of_sight(&terrain(), &samples).map(|r| r.0), Ok(true));
    assert_eq!(line_of_sight(&low, &samples).map(|r| r.0), Ok(true));
}

#[test]
fn profile_height_is_taken_as_i32() {
    let t = Terrain { width: 1, heights: vec![(1usize << 31) + 5] };
    let r = line_of_sight(&t, &vec![(0, 0, 7)]);
    assert_eq!(r, Ok((false, vec![(i32::MIN + 5, 7)])));
}
