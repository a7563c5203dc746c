//! The line-of-sight verdict over the sampled points of a path.
use vstd::prelude::*;
use crate::grid::{
    cell_missing, cell_readable, flat_index, height_under, lemma_sample_hits_by_altitude,
    probe_outcome, sample_hits, GridPoint, Terrain,
};

verus! {

/// Every sample of a path lies on the grid.
pub open spec fn all_readable(width: usize, heights: Seq<usize>, samples: Seq<GridPoint>) -> bool {
    forall|j: int|
        0 <= j < samples.len() ==> cell_readable(width, heights.len() as int, #[trigger] samples[j])
}

/// No sample of a path is on or below the terrain.
pub open spec fn path_clear(width: usize, heights: Seq<usize>, samples: Seq<GridPoint>) -> bool {
    forall|j: int|
        0 <= j < samples.len() ==> !sample_hits(
            (#[trigger] samples[j]).2,
            height_under(width, heights, samples[j]),
        )
}

/// The terrain profile along a path: for each sample, the terrain height
/// under it taken as an `i32`, and its altitude.
pub open spec fn profile_of(width: usize, heights: Seq<usize>, samples: Seq<GridPoint>) -> Seq<
    (i32, i32),
> {
    Seq::new(
        samples.len(),
        |j: int| (height_under(width, heights, samples[j]) as i32, samples[j].2),
    )
}

/// The samples can be checked in order without a panic: up to the first
/// sample that lies off the grid, each index fits in an `i32` and none is
/// exactly the number of cells.
pub open spec fn samples_checkable(width: usize, len: int, samples: Seq<GridPoint>) -> bool {
    forall|j: int|
        0 <= j < samples.len() && (forall|k: int|
            0 <= k < j ==> cell_readable(width, len, #[trigger] samples[k])) ==> cell_readable(
            width,
            len,
            #[trigger] samples[j],
        ) || cell_missing(width, len, samples[j])
}

/// Decides whether the two end points of a path see each other, from the
/// points sampled along it: they do exactly where no sample is on or below
/// the terrain. Also returns the terrain profile along the path. Fails with
/// `Err(1)` where a sample lies off the grid.
pub fn line_of_sight(terrain: &Terrain, samples: &Vec<GridPoint>) -> (r: Result<
    (bool, Vec<(i32, i32)>),
    i32,
>)
    requires
        samples_checkable(terrain.width, terrain.heights.len() as int, samples@),
    ensures
        match r {
            Ok((visible, profile)) => {
                &&& all_readable(terrain.width, terrain.heights@, samples@)
                &&& visible == path_clear(terrain.width, terrain.heights@, samples@)
                &&& profile@ == profile_of(terrain.width, terrain.heights@, samples@)
            },
            Err(code) => code == 1 && !all_readable(terrain.width, terrain.heights@, samples@),
        },
{
    let ghost width = terrain.width;
    let ghost heights = terrain.heights@;
    let ghost len = terrain.heights.len() as int;
    let mut hit_total = false;
    let mut profile: Vec<(i32, i32)> = Vec::new();
    let mut j: usize = 0;
    while j < samples.len()
        invariant
            width == terrain.width,
            heights == terrain.heights@,
            len == heights.len(),
            samples_checkable(width, len, samples@),
            j <= samples.len(),
            forall|k: int| 0 <= k < j ==> cell_readable(width, len, #[trigger] samples@[k]),
            !hit_total == path_clear(width, heights, samples@.subrange(0, j as int)),
            profile@ == profile_of(width, heights, samples@.subrange(0, j as int)),
        decreases samples.len() - j,
    {
        let p = samples[j];
        assert(cell_readable(width, len, samples@[j as int]) || cell_missing(
            width,
            len,
            samples@[j as int],
        ));
        let ghost before = samples@.subrange(0, j as int);
        let ghost after = samples@.subrange(0, j + 1);
        assert(after =~= before.push(p));
        match terrain.probe(p) {
            Err(code) => {
                assert(!cell_readable(width, len, samples@[j as int]));
                return Err(code);
            },
            Ok((height, hit)) => {
                assert(probe_outcome(width, heights, p) == Ok::<(usize, bool), i32>((height, hit)));
                if hit {
                    hit_total = true;
                }
                profile.push(((#[verifier::truncate] (height as i32)), p.2));
                proof {
                    assert(path_clear(width, heights, after) == (path_clear(width, heights, before)
                        && !hit)) by {
                        if path_clear(width, heights, after) {
                            assert forall|k: int| 0 <= k < before.len() implies !sample_hits(
                                (#[trigger] before[k]).2,
                                height_under(width, heights, before[k]),
                            ) by {
                                assert(before[k] == after[k]);
                            }
                            assert(after[j as int] == p);
                        }
                        if path_clear(width, heights, before) && !hit {
                            assert forall|k: int| 0 <= k < after.len() implies !sample_hits(
                                (#[trigger] after[k]).2,
                                height_under(width, heights, after[k]),
                            ) by {
                                if k < j {
                                    assert(before[k] == after[k]);
                                }
                            }
                        }
                    }
                    assert(profile@ =~= profile_of(width, heights, after));
                }
            },
        }
        j = j + 1;
    }
    assert(samples@.subrange(0, j as int) =~= samples@);
    Ok((!hit_total, profile))
}

/// Lower terrain blocks no more: where every sample of a path lies on both
/// grids, and the second grid is nowhere higher than the first, a path that
/// is clear over the first is clear over the second.
pub proof fn lemma_lower_terrain_keeps_sight(
    width: usize,
    high: Seq<usize>,
    low: Seq<usize>,
    samples: Seq<GridPoint>,
)
    requires
        low.len() == high.len(),
        forall|i: int| 0 <= i < low.len() ==> #[trigger] low[i] <= high[i],
        all_readable(width, high, samples),
        path_clear(width, high, samples),
    ensures
        path_clear(width, low, samples),
{
    assert forall|j: int| 0 <= j < samples.len() implies !sample_hits(
        (#[trigger] samples[j]).2,
        height_under(width, low, samples[j]),
    ) by {
        assert(cell_readable(width, high.len() as int, samples[j]));
        let i = crate::grid::point_index(width, samples[j]);
        assert(low[i] <= high[i]);
        assert(!sample_hits(samples[j].2, height_under(width, high, samples[j])));
    }
}

/// One sample at or below the terrain blocks the sight, wherever it lies on
/// the path: a sample with a non-negative altitude at most the height of its
/// cell makes the path not clear.
pub proof fn lemma_one_hit_blocks(
    width: usize,
    heights: Seq<usize>,
    samples: Seq<GridPoint>,
    j: int,
)
    requires
        0 <= j < samples.len(),
        0 <= samples[j].2,
        samples[j].2 <= heights[flat_index(width, samples[j].0, samples[j].1)],
    ensures
        !path_clear(width, heights, samples),
{
    lemma_sample_hits_by_altitude(samples[j].2, height_under(width, heights, samples[j]));
    assert(sample_hits(samples[j].2, height_under(width, heights, samples[j])));
}

/// A path whose every sample has a non-negative altitude strictly above the
/// height of its cell is clear.
pub proof fn lemma_all_above_is_clear(
    width: usize,
    heights: Seq<usize>,
    samples: Seq<GridPoint>,
)
    requires
        forall|j: int|
            0 <= j < samples.len() ==> 0 <= (#[trigger] samples[j]).2 && samples[j].2 > heights[flat_index(
                width,
                samples[j].0,
                samples[j].1,
            )],
    ensures
        path_clear(width, heights, samples),
{
    assert forall|j: int| 0 <= j < samples.len() implies !sample_hits(
        (#[trigger] samples[j]).2,
        height_under(width, heights, samples[j]),
    ) by {
        lemma_sample_hits_by_altitude(samples[j].2, height_under(width, heights, samples[j]));
    }
}

/// Splitting a path in two: the whole is clear exactly when both parts are,
/// lies on the grid exactly when both parts do, and its profile is the profile
/// of the first part followed by that of the second.
pub proof fn lemma_split_path(
    width: usize,
    heights: Seq<usize>,
    first: Seq<GridPoint>,
    second: Seq<GridPoint>,
)
    ensures
        path_clear(width, heights, first + second) == (path_clear(width, heights, first)
            && path_clear(width, heights, second)),
        all_readable(width, heights, first + second) == (all_readable(width, heights, first)
            && all_readable(width, heights, second)),
        profile_of(width, heights, first + second) == profile_of(width, heights, first)
            + profile_of(width, heights, second),
{
    let whole = first + second;
    let n = first.len() as int;
    if path_clear(width, heights, first) && path_clear(width, heights, second) {
        assert forall|j: int| 0 <= j < whole.len() implies !sample_hits(
            (#[trigger] whole[j]).2,
            height_under(width, heights, whole[j]),
        ) by {
            if j < n {
                assert(whole[j] == first[j]);
            } else {
                assert(whole[j] == second[j - n]);
            }
        }
    }
    if path_clear(width, heights, whole) {
        assert forall|j: int| 0 <= j < first.len() implies !sample_hits(
            (#[trigger] first[j]).2,
            height_under(width, heights, first[j]),
        ) by {
            assert(whole[j] == first[j]);
        }
        assert forall|j: int| 0 <= j < second.len() implies !sample_hits(
            (#[trigger] second[j]).2,
            height_under(width, heights, second[j]),
        ) by {
            assert(whole[n + j] == second[j]);
        }
    }
    if all_readable(width, heights, first) && all_readable(width, heights, second) {
        assert forall|j: int| 0 <= j < whole.len() implies cell_readable(
            width,
            heights.len() as int,
            #[trigger] whole[j],
        ) by {
            if j < n {
                assert(whole[j] == first[j]);
            } else {
                assert(whole[j] == second[j - n]);
            }
        }
    }
    if all_readable(width, heights, whole) {
        assert forall|j: int| 0 <= j < first.len() implies cell_readable(
            width,
            heights.len() as int,
            #[trigger] first[j],
        ) by {
            assert(whole[j] == first[j]);
        }
        assert forall|j: int| 0 <= j < second.len() implies cell_readable(
            width,
            heights.len() as int,
            #[trigger] second[j],
        ) by {
            assert(whole[n + j] == second[j]);
        }
    }
    assert(profile_of(width, heights, whole) =~= profile_of(width, heights, first) + profile_of(
        width,
        heights,
        second,
    )) by {
        assert forall|j: int| 0 <= j < whole.len() implies profile_of(width, heights, whole)[j]
            == (profile_of(width, heights, first) + profile_of(width, heights, second))[j] by {
            if j < n {
                assert(whole[j] == first[j]);
            } else {
                assert(whole[j] == second[j - n]);
            }
        }
    }
}

/// The profile has one entry per sample: the height of the sample's cell,
/// taken as an `i32`, and the sample's altitude.
pub proof fn lemma_profile_entries(width: usize, heights: Seq<usize>, samples: Seq<GridPoint>)
    ensures
        profile_of(width, heights, samples).len() == samples.len(),
        forall|j: int|
            0 <= j < samples.len() ==> #[trigger] profile_of(width, heights, samples)[j] == (
                heights[flat_index(width, samples[j].0, samples[j].1)] as i32,
                samples[j].2,
            ),
{
}

/// A single sample on the grid lies on it exactly where its index fits in an
/// `i32` and is between 0 and the number of cells.
pub proof fn lemma_readable_cell(width: usize, heights: Seq<usize>, p: GridPoint)
    ensures
        all_readable(width, heights, seq![p]) == (i32::MIN <= flat_index(width, p.0, p.1)
            <= i32::MAX && 0 <= flat_index(width, p.0, p.1) < heights.len()),
{
    let s = seq![p];
    if cell_readable(width, heights.len() as int, p) {
        assert forall|j: int| 0 <= j < s.len() implies cell_readable(
            width,
            heights.len() as int,
            #[trigger] s[j],
        ) by {
            assert(s[j] == p);
        }
    }
    if all_readable(width, heights, s) {
        assert(s[0] == p);
    }
}

} // verus!
