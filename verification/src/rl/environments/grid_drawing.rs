//! What a picture of the grid environment shows, computed exactly: the
//! segment each wall is drawn on, where the agent stands in each frame of a
//! video of its trajectory, and how many frames such a video has. Putting
//! pixels on a canvas is left to the caller.
use vstd::prelude::*;
use crate::rl::environments::discrete_2d::GridActions;
use crate::rl::environments::discrete_2d::GridPos;
use crate::rl::environments::discrete_2d::opposite_of;
use crate::rl::environments::discrete_2d::shifted;
use crate::rl::environments::discrete_2d::can_shift;

verus! {

/// The side of cell `p` that faces `a`, as a segment between two corners of
/// the grid (cell `(x, y)` spans `x..x + 1` and `y..y + 1`).
pub open spec fn wall_segment_of(p: GridPos, a: GridActions) -> (GridPos, GridPos) {
    let x = p.x as int;
    let y = p.y as int;
    match a {
        GridActions::Up => (
            GridPos { x: x as i32, y: (y + 1) as i32 },
            GridPos { x: (x + 1) as i32, y: (y + 1) as i32 },
        ),
        GridActions::Right => (
            GridPos { x: (x + 1) as i32, y: y as i32 },
            GridPos { x: (x + 1) as i32, y: (y + 1) as i32 },
        ),
        GridActions::Down => (
            GridPos { x: x as i32, y: y as i32 },
            GridPos { x: (x + 1) as i32, y: y as i32 },
        ),
        GridActions::Left => (
            GridPos { x: x as i32, y: y as i32 },
            GridPos { x: x as i32, y: (y + 1) as i32 },
        ),
    }
}

/// The segment the wall `(p, a)` is drawn on.
pub fn wall_segment(p: GridPos, a: GridActions) -> (s: (GridPos, GridPos))
    requires
        p.x < i32::MAX,
        p.y < i32::MAX,
    ensures
        s == wall_segment_of(p, a),
{
    let x = p.x;
    let y = p.y;
    match a {
        GridActions::Up => (GridPos { x, y: y + 1 }, GridPos { x: x + 1, y: y + 1 }),
        GridActions::Right => (GridPos { x: x + 1, y }, GridPos { x: x + 1, y: y + 1 }),
        GridActions::Down => (GridPos { x, y }, GridPos { x: x + 1, y }),
        GridActions::Left => (GridPos { x, y }, GridPos { x, y: y + 1 }),
    }
}

/// A wall is drawn on the side the two cells it separates share: the wall
/// `(p, a)` and the wall seen from the other side lie on the same segment,
/// and that segment has unit length.
pub proof fn lemma_wall_drawn_between(p: GridPos, a: GridActions)
    requires
        can_shift(p, a),
        p.x < i32::MAX - 1,
        p.y < i32::MAX - 1,
    ensures
        wall_segment_of(shifted(p, a), opposite_of(a)) == wall_segment_of(p, a),
        ({
            let (u, v) = wall_segment_of(p, a);
            (v.x - u.x == 1 && v.y == u.y) || (v.x == u.x && v.y - u.y == 1)
        }),
{
}

/// The common denominator of the points of an interpolated trajectory.
pub open spec fn frame_scale(steps_per_cell: int) -> int {
    if steps_per_cell == 0 {
        1
    } else {
        steps_per_cell
    }
}

/// `steps_per_cell` times the coordinate that lies `step / steps_per_cell`
/// of the way from `a` to `b`.
pub open spec fn scaled_between(a: int, b: int, step: int, steps_per_cell: int) -> int {
    a * steps_per_cell + (b - a) * step
}

/// `point` is, over the denominator `steps_per_cell`, the point `step /
/// steps_per_cell` of the way from cell `a` to cell `b`.
pub open spec fn is_scaled_point(point: (i128, i128), a: GridPos, b: GridPos, step: int, steps_per_cell: int) -> bool {
    &&& point.0 == scaled_between(a.x as int, b.x as int, step, steps_per_cell)
    &&& point.1 == scaled_between(a.y as int, b.y as int, step, steps_per_cell)
}

proof fn lemma_frame_index(k: int, s: int, n: int, m: int)
    requires
        0 <= k < n,
        0 <= s < m,
    ensures
        0 <= k * m + s < n * m,
        k * m + s + 1 <= (k + 1) * m,
        (k + 1) * m == k * m + m,
{
    assert(0 <= k * m + s < n * m) by (nonlinear_arith)
        requires
            0 <= k < n,
            0 <= s < m,
    ;
    assert(k * m + s + 1 <= (k + 1) * m) by (nonlinear_arith)
        requires
            0 <= s < m,
    ;
    assert((k + 1) * m == k * m + m) by (nonlinear_arith);
}

proof fn lemma_scaled_bounds(a: i32, b: i32, step: int, m: int)
    requires
        0 <= step < m,
        m <= usize::MAX,
    ensures
        -0x1_0000_0000_0000_0000_0000_0000 <= a * m <= 0x1_0000_0000_0000_0000_0000_0000,
        -0x1_0000_0000_0000_0000_0000_0000 <= (b - a) * step <= 0x1_0000_0000_0000_0000_0000_0000,
{
    assert(-0x1_0000_0000_0000_0000_0000_0000 <= a * m <= 0x1_0000_0000_0000_0000_0000_0000)
        by (nonlinear_arith)
        requires
            -0x8000_0000 <= a < 0x8000_0000,
            0 <= m <= 0xffff_ffff_ffff_ffff,
    ;
    assert(-0x1_0000_0000_0000_0000_0000_0000 <= (b - a) * step
        <= 0x1_0000_0000_0000_0000_0000_0000) by (nonlinear_arith)
        requires
            -0x1_0000_0000 <= b - a <= 0x1_0000_0000,
            0 <= step <= 0xffff_ffff_ffff_ffff,
    ;
}

/// The positions of the agent in the frames of a video of `trajectory`:
/// `steps_per_cell` evenly spaced points along each move, starting at the
/// move's first cell, then the last cell. Each point is given exactly, as a
/// pair of numerators over [`frame_scale`]`(steps_per_cell)`.
pub fn interpolate_trajectory(trajectory: &Vec<GridPos>, steps_per_cell: usize) -> (r: Vec<(i128, i128)>)
    requires
        trajectory@.len() == 0 || (trajectory@.len() - 1) * steps_per_cell + 1 <= usize::MAX,
    ensures
        trajectory@.len() == 0 ==> r@.len() == 0,
        trajectory@.len() > 0 ==> r@.len() == (trajectory@.len() - 1) * steps_per_cell + 1,
        forall|k: int, s: int|
            0 <= k < trajectory@.len() - 1 && 0 <= s < steps_per_cell ==> is_scaled_point(
                #[trigger] r@[k * steps_per_cell + s],
                trajectory@[k],
                trajectory@[k + 1],
                s,
                steps_per_cell as int,
            ),
        trajectory@.len() > 0 ==> r@[(trajectory@.len() - 1) * steps_per_cell].0
            == trajectory@.last().x * frame_scale(steps_per_cell as int),
        trajectory@.len() > 0 ==> r@[(trajectory@.len() - 1) * steps_per_cell].1
            == trajectory@.last().y * frame_scale(steps_per_cell as int),
{
    let n = trajectory.len();
    let mut r: Vec<(i128, i128)> = Vec::new();
    if n == 0 {
        return r;
    }
    let m = steps_per_cell;
    let ghost mi = m as int;
    let mut k: usize = 0;
    while k + 1 < n
        invariant
            n == trajectory@.len(),
            n > 0,
            (n - 1) * m + 1 <= usize::MAX,
            mi == m as int,
            0 <= k < n,
            r@.len() == k * m,
            forall|j: int, s: int|
                0 <= j < k && 0 <= s < m ==> is_scaled_point(#[trigger] r@[j * m + s], trajectory@[j], trajectory@[j + 1], s, mi),
        decreases n - k,
    {
        let start = trajectory[k];
        let end = trajectory[k + 1];
        let mut s: usize = 0;
        while s < m
            invariant
                n == trajectory@.len(),
                0 <= k < n - 1,
                mi == m as int,
                start == trajectory@[k as int],
                end == trajectory@[k + 1],
                0 <= s <= m,
                r@.len() == k * m + s,
                forall|j: int, t: int|
                    0 <= j < k && 0 <= t < m ==> is_scaled_point(#[trigger] r@[j * m + t], trajectory@[j], trajectory@[j + 1], t, mi),
                forall|t: int|
                    0 <= t < s ==> is_scaled_point(#[trigger] r@[k * m + t], start, end, t, mi),
            decreases m - s,
        {
            proof {
                lemma_scaled_bounds(start.x, end.x, s as int, mi);
                lemma_scaled_bounds(start.y, end.y, s as int, mi);
            }
            let x = start.x as i128 * m as i128 + (end.x as i128 - start.x as i128) * s as i128;
            let y = start.y as i128 * m as i128 + (end.y as i128 - start.y as i128) * s as i128;
            let ghost before = r@;
            r.push((x, y));
            proof {
                assert forall|j: int, t: int|
                    0 <= j < k && 0 <= t < m implies is_scaled_point(#[trigger] r@[j * m + t], trajectory@[j], trajectory@[j + 1], t, mi) by {
                    lemma_frame_index(j, t, k as int, mi);
                    assert(r@[j * m + t] == before[j * m + t]);
                }
                assert forall|t: int|
                    0 <= t < s + 1 implies is_scaled_point(#[trigger] r@[k * m + t], start, end, t, mi) by {
                    if t < s {
                        assert(r@[k * m + t] == before[k * m + t]);
                    }
                }
            }
            s = s + 1;
        }
        proof {
            lemma_frame_index(k as int, 0, n as int, mi + 1);
            assert((k + 1) * m == k * m + m) by (nonlinear_arith);
        }
        k = k + 1;
    }
    let last = trajectory[n - 1];
    let scale: i128 = if m == 0 {
        1
    } else {
        m as i128
    };
    proof {
        lemma_scaled_bounds(last.x, last.x, 0, frame_scale(mi));
        lemma_scaled_bounds(last.y, last.y, 0, frame_scale(mi));
    }
    let ghost before = r@;
    r.push((last.x as i128 * scale, last.y as i128 * scale));
    proof {
        assert forall|j: int, t: int|
            0 <= j < n - 1 && 0 <= t < m implies is_scaled_point(
            #[trigger] r@[j * m + t],
            trajectory@[j],
            trajectory@[j + 1],
            t,
            mi,
        ) by {
            lemma_frame_index(j, t, k as int, mi);
            assert(r@[j * m + t] == before[j * m + t]);
        }
    }
    r
}

/// How a video of a trajectory of `trajectory_len` cells is cut into frames:
/// the number of frames per move (about 600 frames in all, at least one per
/// move), and the number of frames.
pub fn video_frame_plan(trajectory_len: usize) -> (r: (usize, usize))
    requires
        trajectory_len >= 1,
    ensures
        r.0 == 600usize / trajectory_len + 1,
        r.1 == (trajectory_len - 1) * r.0,
{
    let steps_per_cell = 600 / trajectory_len + 1;
    proof {
        if trajectory_len <= 600 {
            assert((trajectory_len - 1) * steps_per_cell <= 600 * 601) by (nonlinear_arith)
                requires
                    trajectory_len <= 600,
                    steps_per_cell <= 601,
                    trajectory_len >= 1,
            ;
        } else {
            assert(600usize / trajectory_len == 0) by (nonlinear_arith)
                requires
                    trajectory_len > 600,
            ;
        }
    }
    (steps_per_cell, (trajectory_len - 1) * steps_per_cell)
}

/// The frames of a video shown up to frame `until`: the first `until + 1`
/// frames, or all of them when no frame is given.
pub fn frames_until<T: Copy>(frames: &Vec<T>, until: Option<usize>) -> (r: Vec<T>)
    requires
        until matches Some(u) ==> u < frames@.len(),
    ensures
        r@ == match until {
            Some(u) => frames@.subrange(0, u + 1),
            None => frames@,
        },
{
    let n = frames.len();
    let end = match until {
        Some(u) => u + 1,
        None => n,
    };
    let mut r: Vec<T> = Vec::new();
    let mut i: usize = 0;
    while i < end
        invariant
            end <= frames@.len(),
            0 <= i <= end,
            r@ == frames@.subrange(0, i as int),
        decreases end - i,
    {
        r.push(frames[i]);
        i = i + 1;
        assert(r@ =~= frames@.subrange(0, i as int));
    }
    assert(frames@.subrange(0, frames@.len() as int) =~= frames@);
    r
}

} // verus!
