//! The discrete parts of the continuous 2D environment: its actions and how
//! its rewards are computed.
use vstd::prelude::*;
use crate::rl::Action;

verus! {

/// How the reward of each step is computed in the continuous environment.
#[derive(Clone, Copy, Debug, PartialEq, Eq, Structural, Default)]
pub enum PlaneRewardType {
    /// Every step costs the same.
    #[default]
    Flat,
    /// A step costs the distance to the goal.
    Gradient,
    /// A step is rewarded by how much closer it brings the agent to the goal.
    Additive,
}

/// The moves of the agent in the continuous environment.
#[derive(Clone, Copy, Debug, PartialEq, Eq, Structural, Hash, Default)]
pub enum Environment2dActions {
    #[default]
    Forward,
    TurnLeft,
    TurnRight,
}

impl Environment2dActions {
    /// The number that stands for this action, used when it is fed to a network.
    pub fn to_index(&self) -> (i: u8)
        ensures
            i == (match *self {
                Environment2dActions::Forward => 0u8,
                Environment2dActions::TurnLeft => 1u8,
                Environment2dActions::TurnRight => 2u8,
            }),
    {
        match self {
            Environment2dActions::Forward => 0,
            Environment2dActions::TurnLeft => 1,
            Environment2dActions::TurnRight => 2,
        }
    }

    /// The number of values an action is fed to a network as.
    pub fn len(&self) -> (n: usize)
        ensures
            n == 1,
    {
        1
    }
}

impl Action for Environment2dActions {
    /// All the actions, in the order `Forward, TurnLeft, TurnRight`.
    fn get_all_actions() -> (v: Vec<Environment2dActions>)
        ensures
            v@ == seq![
                Environment2dActions::Forward,
                Environment2dActions::TurnLeft,
                Environment2dActions::TurnRight,
            ],
    {
        vec![Environment2dActions::Forward, Environment2dActions::TurnLeft, Environment2dActions::TurnRight]
    }
}

/// The index of the `i`-th of `max_points` points spread evenly over
/// `0..len`: `i * (len - 1) / (max_points - 1)`, rounded to the nearest
/// integer, halves rounded up. The rounding is exact; a computation in `f32`
/// can land just below a half and round down instead (for 13 of 55 points,
/// the 8th index is 32 here and 31 in `f32`).
pub open spec fn spread_index(i: int, len: int, max_points: int) -> int {
    (2 * i * (len - 1) + (max_points - 1)) / (2 * (max_points - 1))
}

/// Whether a trajectory of `len` points is kept whole when at most
/// `max_points` of it are drawn.
pub open spec fn keeps_all(len: int, max_points: int) -> bool {
    len <= max_points || max_points < 2
}

proof fn lemma_round_half_up(n: int, d: int, q: int, r: int)
    requires
        0 < d,
        0 <= n,
        n == q * d + r,
        0 <= r < d,
    ensures
        (2 * n + d) / (2 * d) == if 2 * r >= d {
            q + 1
        } else {
            q
        },
{
    let v = if 2 * r >= d {
        q + 1
    } else {
        q
    };
    assert(2 * n + d == v * (2 * d) + (2 * n + d - v * (2 * d))) by (nonlinear_arith);
    assert(0 <= 2 * n + d - v * (2 * d) < 2 * d) by (nonlinear_arith)
        requires
            n == q * d + r,
            0 <= r < d,
            v == if 2 * r >= d {
                q + 1
            } else {
                q
            },
    ;
    vstd::arithmetic::div_mod::lemma_fundamental_div_mod_converse(
        2 * n + d,
        2 * d,
        v,
        2 * n + d - v * (2 * d),
    );
}

proof fn lemma_spread_index_value(i: int, len: int, max_points: int)
    requires
        2 <= max_points,
        1 <= len,
        0 <= i,
    ensures
        0 <= i * (len - 1),
        spread_index(i, len, max_points) == i * (len - 1) / (max_points - 1) + if 2 * (i * (len
            - 1) % (max_points - 1)) >= max_points - 1 {
            1int
        } else {
            0int
        },
{
    let d = max_points - 1;
    let n = i * (len - 1);
    assert(0 <= n) by (nonlinear_arith)
        requires
            0 <= i,
            1 <= len,
            n == i * (len - 1),
    ;
    assert(2 * i * (len - 1) == 2 * n) by (nonlinear_arith)
        requires
            n == i * (len - 1),
    ;
    vstd::arithmetic::div_mod::lemma_fundamental_div_mod(n, d);
    lemma_round_half_up(n, d, n / d, n % d);
}

proof fn lemma_spread_index_bounds(i: int, len: int, max_points: int)
    requires
        2 <= max_points < len,
        0 <= i < max_points,
    ensures
        0 <= spread_index(i, len, max_points) < len,
        i == 0 ==> spread_index(i, len, max_points) == 0,
        i == max_points - 1 ==> spread_index(i, len, max_points) == len - 1,
{
    let d = max_points - 1;
    let n = i * (len - 1);
    lemma_spread_index_value(i, len, max_points);
    let q = n / d;
    let r = n % d;
    vstd::arithmetic::div_mod::lemma_fundamental_div_mod(n, d);
    assert(n <= d * (len - 1)) by (nonlinear_arith)
        requires
            0 <= i <= d,
            1 <= len,
            n == i * (len - 1),
    ;
    assert(q <= len - 1) by (nonlinear_arith)
        requires
            n == d * q + r,
            n <= d * (len - 1),
            0 <= r,
            0 < d,
    ;
    assert(q >= 0) by (nonlinear_arith)
        requires
            n == d * q + r,
            0 <= n,
            r < d,
            0 < d,
    ;
    if q == len - 1 {
        assert(r == 0) by (nonlinear_arith)
            requires
                n == d * q + r,
                n <= d * (len - 1),
                q == len - 1,
                0 <= r,
        ;
    }
    if i == 0 {
        assert(q == 0 && r == 0) by (nonlinear_arith)
            requires
                n == d * q + r,
                n == 0,
                0 <= r < d,
                0 < d,
        ;
    }
    if i == d {
        assert(q == len - 1 && r == 0) by (nonlinear_arith)
            requires
                n == d * q + r,
                n == d * (len - 1),
                0 <= r < d,
                0 < d,
        ;
    }
}

/// Which points of a trajectory of `len` points are drawn when at most
/// `max_points` may be: all of them when they are few enough (or when fewer
/// than two may be drawn), else `max_points` indices spread evenly from the
/// first point to the last.
pub fn downsample_indices(len: usize, max_points: usize) -> (r: Vec<usize>)
    ensures
        keeps_all(len as int, max_points as int) ==> r@.len() == len && forall|i: int|
            0 <= i < len ==> #[trigger] r@[i] == i,
        !keeps_all(len as int, max_points as int) ==> r@.len() == max_points && forall|i: int|
            0 <= i < max_points ==> #[trigger] r@[i] == spread_index(
                i,
                len as int,
                max_points as int,
            ),
        forall|i: int| 0 <= i < r@.len() ==> #[trigger] r@[i] < len,
{
    let mut r: Vec<usize> = Vec::new();
    if len <= max_points || max_points < 2 {
        let mut i: usize = 0;
        while i < len
            invariant
                0 <= i <= len,
                r@.len() == i,
                forall|j: int| 0 <= j < i ==> #[trigger] r@[j] == j,
            decreases len - i,
        {
            r.push(i);
            i = i + 1;
        }
        return r;
    }
    let d = (max_points - 1) as u128;
    let span = (len - 1) as u128;
    let mut i: usize = 0;
    while i < max_points
        invariant
            2 <= max_points < len,
            d == max_points - 1,
            span == len - 1,
            0 <= i <= max_points,
            r@.len() == i,
            forall|j: int|
                0 <= j < i ==> #[trigger] r@[j] == spread_index(j, len as int, max_points as int),
            forall|j: int| 0 <= j < i ==> #[trigger] r@[j] < len,
        decreases max_points - i,
    {
        assert(i * span <= 0xffff_ffff_ffff_ffff * 0xffff_ffff_ffff_ffff) by (nonlinear_arith)
            requires
                i <= 0xffff_ffff_ffff_ffff,
                span <= 0xffff_ffff_ffff_ffff,
        ;
        let n = i as u128 * span;
        let q = n / d;
        let rem = n % d;
        proof {
            lemma_spread_index_value(i as int, len as int, max_points as int);
            lemma_spread_index_bounds(i as int, len as int, max_points as int);
        }
        let index = if 2 * rem >= d {
            q + 1
        } else {
            q
        };
        r.push(index as usize);
        i = i + 1;
    }
    r
}

/// The drawn points of a long trajectory start at its first point, end at
/// its last, and never go back.
pub proof fn lemma_downsample_keeps_ends(len: int, max_points: int, i: int, j: int)
    requires
        2 <= max_points < len,
        0 <= i <= j < max_points,
    ensures
        spread_index(0, len, max_points) == 0,
        spread_index(max_points - 1, len, max_points) == len - 1,
        spread_index(i, len, max_points) <= spread_index(j, len, max_points),
{
    lemma_spread_index_bounds(0, len, max_points);
    lemma_spread_index_bounds(max_points - 1, len, max_points);
    assert(2 * i * (len - 1) + (max_points - 1) <= 2 * j * (len - 1) + (max_points - 1))
        by (nonlinear_arith)
        requires
            i <= j,
            1 <= len,
    ;
    vstd::arithmetic::div_mod::lemma_div_is_ordered(
        2 * i * (len - 1) + (max_points - 1),
        2 * j * (len - 1) + (max_points - 1),
        2 * (max_points - 1),
    );
}

} // verus!
