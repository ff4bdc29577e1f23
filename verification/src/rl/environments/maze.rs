//! Mazes on the grid: random generation by depth-first carving, and the
//! search for the cell furthest from a start.
use std::collections::HashSet;
use std::collections::VecDeque;
use rand::rngs::ThreadRng;
use vstd::prelude::*;
use vstd::set_lib::lemma_int_range;
use vstd::set_lib::lemma_len_subset;
use vstd::relations::injective_on;
use vstd::set_lib::set_int_range;
use vstd::arithmetic::div_mod::lemma_fundamental_div_mod_converse;
use crate::rl::environments::discrete_2d::EdgeSet;
use crate::rl::environments::discrete_2d::GridRewardType;
use crate::rl::environments::discrete_2d::SimpleGridEnvironment;
use crate::rl::environments::discrete_2d::GridActions;
use crate::rl::environments::discrete_2d::GridPos;
use crate::rl::environments::discrete_2d::action_dx;
use crate::rl::environments::discrete_2d::action_dy;
use crate::rl::environments::discrete_2d::can_shift;
use crate::rl::environments::discrete_2d::in_grid;
use crate::rl::environments::discrete_2d::lemma_opposite_involution;
use crate::rl::environments::discrete_2d::lemma_shift_back;
use crate::rl::environments::discrete_2d::manhattan;
use crate::rl::environments::discrete_2d::opposite_of;
use crate::rl::environments::discrete_2d::shift;
use crate::rl::environments::discrete_2d::shifted;
use crate::rl::utils::random::choose_from;
use crate::rl::utils::random::random_i32_in;
use crate::rl::utils::random::random_ratio;
use crate::rl::utils::random::thread_rng;

verus! {

broadcast use vstd::std_specs::hash::group_hash_axioms;

/**************************************************************
                        Reachability
**************************************************************/

/// `c` can be reached from `s` with at most `n` moves allowed by `can_move`.
pub open spec fn reachable_within(
    can_move: spec_fn(GridPos, GridActions) -> bool,
    s: GridPos,
    c: GridPos,
    n: nat,
) -> bool
    decreases n,
{
    c == s || (n > 0 && exists|p: GridPos, a: GridActions|
        #[trigger] can_move(p, a) && shifted(p, a) == c && reachable_within(
            can_move,
            s,
            p,
            (n - 1) as nat,
        ))
}

/// `c` can be reached from `s` with moves allowed by `can_move`.
pub open spec fn reachable(can_move: spec_fn(GridPos, GridActions) -> bool, s: GridPos, c: GridPos) -> bool {
    exists|n: nat| reachable_within(can_move, s, c, n)
}

/// The moves through a set of walls: no wall in the way on the side the
/// move starts from, and the cell reached lies on the grid.
pub open spec fn maze_moves(walls: Set<(GridPos, GridActions)>, width: int, height: int) -> spec_fn(
    GridPos,
    GridActions,
) -> bool {
    |p: GridPos, a: GridActions| !walls.contains((p, a)) && in_grid(shifted(p, a), width, height)
}

/// The moves along carved passages between two cells of the grid.
pub open spec fn passage_moves(passages: Set<(GridPos, GridActions)>, width: int, height: int) -> spec_fn(
    GridPos,
    GridActions,
) -> bool {
    |p: GridPos, a: GridActions|
        passages.contains((p, a)) && in_grid(p, width, height) && in_grid(
            shifted(p, a),
            width,
            height,
        )
}

/// Every passage can be taken both ways.
pub open spec fn symmetric(passages: Set<(GridPos, GridActions)>) -> bool {
    forall|p: GridPos, a: GridActions|
        #![trigger passages.contains((p, a))]
        passages.contains((p, a)) ==> can_shift(p, a) && passages.contains(
            (shifted(p, a), opposite_of(a)),
        )
}

/// The move `(p, a)` is walled in a maze with these passages: it starts on
/// the grid and leaves it, or no passage was carved for it.
pub open spec fn wall_needed(
    passages: Set<(GridPos, GridActions)>,
    width: int,
    height: int,
    p: GridPos,
    a: GridActions,
) -> bool {
    in_grid(p, width, height) && (!in_grid(shifted(p, a), width, height) || !passages.contains(
        (p, a),
    ))
}

/// Reachability is preserved when more moves are allowed.
pub proof fn lemma_reachable_within_monotone(
    m1: spec_fn(GridPos, GridActions) -> bool,
    m2: spec_fn(GridPos, GridActions) -> bool,
    s: GridPos,
    c: GridPos,
    n: nat,
)
    requires
        forall|p: GridPos, a: GridActions| #[trigger] m1(p, a) ==> m2(p, a),
        reachable_within(m1, s, c, n),
    ensures
        reachable_within(m2, s, c, n),
    decreases n,
{
    if c != s {
        let (p, a) = choose|p: GridPos, a: GridActions|
            #[trigger] m1(p, a) && shifted(p, a) == c && reachable_within(m1, s, p, (n - 1) as nat);
        lemma_reachable_within_monotone(m1, m2, s, p, (n - 1) as nat);
        assert(m2(p, a));
    }
}

/**************************************************************
                        Sets of cells
**************************************************************/

/// The number under which a cell is kept in a hash set.
pub open spec fn cell_key(p: GridPos) -> int {
    (p.x + 2147483648) * 4294967296 + (p.y + 2147483648)
}

proof fn lemma_cell_key(p: GridPos, q: GridPos)
    ensures
        0 <= cell_key(p) <= u64::MAX,
        cell_key(p) == cell_key(q) ==> p == q,
{
}

fn cell_key_of(p: GridPos) -> (k: u64)
    ensures
        k == cell_key(p),
{
    proof {
        lemma_cell_key(p, p);
    }
    let kx = (p.x as i64 + 2147483648i64) as u64;
    let ky = (p.y as i64 + 2147483648i64) as u64;
    kx * 4294967296u64 + ky
}

/// A set of cells, kept in a hash set by their number.
pub struct CellSet {
    keys: HashSet<u64>,
}

impl View for CellSet {
    type V = Set<GridPos>;

    closed spec fn view(&self) -> Set<GridPos> {
        Set::new(|p: GridPos| self.keys@.contains(cell_key(p) as u64))
    }
}

impl CellSet {
    /// An empty set.
    pub fn new() -> (s: CellSet)
        ensures
            s@ == Set::<GridPos>::empty(),
    {
        let s = CellSet { keys: HashSet::new() };
        assert(s@ =~= Set::<GridPos>::empty());
        s
    }

    /// Whether `p` is in the set.
    pub fn contains(&self, p: GridPos) -> (r: bool)
        ensures
            r == self@.contains(p),
    {
        let k = cell_key_of(p);
        self.keys.contains(&k)
    }

    /// Adds `p`; returns whether it was new.
    pub fn insert(&mut self, p: GridPos) -> (r: bool)
        ensures
            final(self)@ == old(self)@.insert(p),
            r == !old(self)@.contains(p),
    {
        let k = cell_key_of(p);
        let r = self.keys.insert(k);
        proof {
            assert forall|q: GridPos| #[trigger] final(self)@.contains(q) == old(self)@.insert(p).contains(q) by {
                lemma_cell_key(q, p);
            }
            assert(final(self)@ =~= old(self)@.insert(p));
        }
        r
    }
}

/**************************************************************
                        The cells of a grid
**************************************************************/

/// The cells of the `width` x `height` grid, numbered row by row.
pub open spec fn grid_cells(width: int, height: int) -> Set<GridPos> {
    set_int_range(0, width * height).map(
        |i: int| GridPos { x: (i % width) as i32, y: (i / width) as i32 },
    )
}

/// The grid has `width * height` cells: exactly the cells on it.
pub proof fn lemma_grid_cells(width: int, height: int)
    requires
        0 <= width <= i32::MAX,
        0 <= height <= i32::MAX,
    ensures
        grid_cells(width, height).finite(),
        grid_cells(width, height).len() == width * height,
        forall|p: GridPos| #[trigger] grid_cells(width, height).contains(p) <==> in_grid(p, width, height),
{
    assert(0 <= width * height) by (nonlinear_arith)
        requires
            0 <= width,
            0 <= height,
    ;
    lemma_int_range(0, width * height);
    let range = set_int_range(0, width * height);
    let f = |i: int| GridPos { x: (i % width) as i32, y: (i / width) as i32 };
    assert forall|i: int| #[trigger] range.contains(i) implies {
        &&& 0 <= i % width < width
        &&& 0 <= i / width < height
        &&& f(i).x == i % width
        &&& f(i).y == i / width
        &&& i == width * (i / width) + i % width
    } by {
        assert(width > 0) by (nonlinear_arith)
            requires
                0 <= i < width * height,
                0 <= width,
                0 <= height,
        ;
        vstd::arithmetic::div_mod::lemma_fundamental_div_mod(i, width);
        assert(0 <= i / width < height) by (nonlinear_arith)
            requires
                0 <= i < width * height,
                i == width * (i / width) + i % width,
                0 <= i % width < width,
        ;
    }
    assert(injective_on(f, range)) by {
        assert forall|i: int, j: int|
            range.contains(i) && range.contains(j) && #[trigger] f(i) == #[trigger] f(j) implies i == j by {
            assert(i == width * (i / width) + i % width);
            assert(j == width * (j / width) + j % width);
        }
    }
    vstd::set_lib::lemma_map_size(range, grid_cells(width, height), f);
    assert forall|p: GridPos| in_grid(p, width, height) implies #[trigger] grid_cells(
        width,
        height,
    ).contains(p) by {
        let i = p.y * width + p.x;
        assert(0 <= i < width * height) by (nonlinear_arith)
            requires
                i == p.y * width + p.x,
                0 <= p.x < width,
                0 <= p.y < height,
        ;
        lemma_fundamental_div_mod_converse(i, width, p.y as int, p.x as int);
        assert(f(i) == p);
        assert(range.contains(i));
    }
}

/// A set of cells that contains the start and every on-grid neighbour of
/// each of its on-grid cells holds the whole grid.
pub proof fn lemma_closed_set_covers_grid(
    cells: Set<GridPos>,
    width: int,
    height: int,
    start: GridPos,
    c: GridPos,
)
    requires
        in_grid(start, width, height),
        in_grid(c, width, height),
        cells.contains(start),
        forall|v: GridPos, a: GridActions|
            #![trigger cells.contains(v), shifted(v, a)]
            cells.contains(v) && in_grid(v, width, height) && in_grid(shifted(v, a), width, height)
                ==> cells.contains(shifted(v, a)),
    ensures
        cells.contains(c),
    decreases manhattan(start, c),
{
    if c != start {
        let a = if c.x < start.x {
            GridActions::Right
        } else if c.x > start.x {
            GridActions::Left
        } else if c.y < start.y {
            GridActions::Up
        } else {
            GridActions::Down
        };
        let q = shifted(c, a);
        assert(in_grid(q, width, height));
        lemma_closed_set_covers_grid(cells, width, height, start, q);
        lemma_shift_back(c, a);
        assert(shifted(q, opposite_of(a)) == c);
    }
}


/**************************************************************
                        Maze generation
**************************************************************/

/// Every move from `p` stays within the range of `i32`.
pub open spec fn can_shift_all(p: GridPos) -> bool {
    i32::MIN < p.x < i32::MAX && i32::MIN < p.y < i32::MAX
}

/// Every passage joins cells of the grid or the start.
pub open spec fn passages_local(
    passages: Set<(GridPos, GridActions)>,
    width: int,
    height: int,
    start: GridPos,
) -> bool {
    forall|p: GridPos, a: GridActions|
        #![trigger passages.contains((p, a))]
        passages.contains((p, a)) ==> (in_grid(p, width, height) || p == start) && (in_grid(
            shifted(p, a),
            width,
            height,
        ) || shifted(p, a) == start)
}

/// The visited cells form a tree rooted at the start: each other cell was
/// reached from a visited cell one level closer to the root, through a
/// carved passage.
pub open spec fn carving_tree(
    visited: Set<GridPos>,
    parent: Map<GridPos, (GridPos, GridActions)>,
    depth: Map<GridPos, nat>,
    passages: Set<(GridPos, GridActions)>,
    width: int,
    height: int,
    start: GridPos,
) -> bool {
    forall|v: GridPos|
        #![trigger visited.contains(v)]
        visited.contains(v) ==> {
            &&& depth.dom().contains(v)
            &&& in_grid(v, width, height)
            &&& v != start ==> {
                &&& parent.dom().contains(v)
                &&& visited.contains(parent[v].0)
                &&& shifted(parent[v].0, parent[v].1) == v
                &&& passages.contains(parent[v])
                &&& depth[parent[v].0] + 1 == depth[v]
            }
        }
}

proof fn lemma_tree_reachable(
    visited: Set<GridPos>,
    parent: Map<GridPos, (GridPos, GridActions)>,
    depth: Map<GridPos, nat>,
    passages: Set<(GridPos, GridActions)>,
    width: int,
    height: int,
    start: GridPos,
    v: GridPos,
)
    requires
        carving_tree(visited, parent, depth, passages, width, height, start),
        visited.contains(v),
    ensures
        reachable_within(passage_moves(passages, width, height), start, v, depth[v]),
    decreases depth[v],
{
    if v != start {
        let (u, a) = parent[v];
        assert(visited.contains(u));
        lemma_tree_reachable(visited, parent, depth, passages, width, height, start, u);
        assert(passage_moves(passages, width, height)(u, a));
    }
}

/// The on-grid neighbours of `current` not in `visited` reached by the
/// first `k` moves (in the order `Up, Right, Down, Left`), each with its move.
pub open spec fn neighbors_upto(
    current: GridPos,
    width: int,
    height: int,
    visited: Set<GridPos>,
    k: int,
) -> Seq<(GridActions, GridPos)>
    decreases k,
{
    if k <= 0 {
        Seq::empty()
    } else {
        let before = neighbors_upto(current, width, height, visited, k - 1);
        let a = crate::rl::environments::discrete_2d::all_actions_seq()[k - 1];
        let next = shifted(current, a);
        if in_grid(next, width, height) && !visited.contains(next) {
            before.push((a, next))
        } else {
            before
        }
    }
}

/// The on-grid neighbours of `current` that are not visited yet, each with
/// the move that reaches it.
fn unvisited_neighbors(current: GridPos, width: i32, height: i32, visited: &CellSet) -> (ns: Vec<
    (GridActions, GridPos),
>)
    requires
        can_shift_all(current),
    ensures
        forall|i: int|
            0 <= i < ns@.len() ==> {
                &&& ns@[i].1 == shifted(current, ns@[i].0)
                &&& in_grid(ns@[i].1, width as int, height as int)
                &&& !visited@.contains(ns@[i].1)
            },
        ns@.len() == 0 ==> forall|a: GridActions|
            in_grid(#[trigger] shifted(current, a), width as int, height as int) ==> visited@.contains(
                shifted(current, a),
            ),
        ns@ == neighbors_upto(current, width as int, height as int, visited@, 4),
{
    let actions = GridActions::get_all_actions();
    let mut ns: Vec<(GridActions, GridPos)> = Vec::new();
    let mut k: usize = 0;
    while k < 4
        invariant
            0 <= k <= 4,
            actions@ == crate::rl::environments::discrete_2d::all_actions_seq(),
            can_shift_all(current),
            ns@ == neighbors_upto(current, width as int, height as int, visited@, k as int),
            forall|i: int|
                0 <= i < ns@.len() ==> {
                    &&& ns@[i].1 == shifted(current, ns@[i].0)
                    &&& in_grid(ns@[i].1, width as int, height as int)
                    &&& !visited@.contains(ns@[i].1)
                },
            ns@.len() == 0 ==> forall|j: int|
                0 <= j < k ==> (in_grid(
                    #[trigger] shifted(current, actions@[j]),
                    width as int,
                    height as int,
                ) ==> visited@.contains(shifted(current, actions@[j]))),
        decreases 4 - k,
    {
        let action = actions[k];
        let next = shift(current, action);
        if !(next.x < 0 || next.x >= width || next.y < 0 || next.y >= height) {
            if !visited.contains(next) {
                ns.push((action, next));
            }
        }
        k = k + 1;
    }
    proof {
        if ns@.len() == 0 {
            assert forall|a: GridActions|
                in_grid(#[trigger] shifted(current, a), width as int, height as int) implies visited@.contains(
                shifted(current, a),
            ) by {
                let j: int = match a {
                    GridActions::Up => 0,
                    GridActions::Right => 1,
                    GridActions::Down => 2,
                    GridActions::Left => 3,
                };
                assert(actions@[j] == a);
            }
        }
    }
    ns
}

/// The first position in `ns` of a neighbour reached by the move `dir`, or
/// `ns.len()` when there is none.
pub open spec fn first_in_direction(ns: Seq<(GridActions, GridPos)>, dir: GridActions) -> int
    decreases ns.len(),
{
    if ns.len() == 0 {
        0
    } else if ns[0].0 == dir {
        0
    } else {
        1 + first_in_direction(ns.drop_first(), dir)
    }
}

/// The neighbour the carving goes on to, given its draws: when the draw
/// `straight` says so and the corridor can go on in `previous_direction`,
/// the first neighbour in that direction; otherwise the neighbour at the
/// drawn position.
pub open spec fn chosen_neighbor(
    ns: Seq<(GridActions, GridPos)>,
    previous_direction: Option<GridActions>,
    straight: bool,
    drawn: int,
) -> (GridActions, GridPos) {
    match previous_direction {
        Some(dir) => if straight && first_in_direction(ns, dir) < ns.len() {
            ns[first_in_direction(ns, dir)]
        } else {
            ns[drawn]
        },
        None => ns[drawn],
    }
}

proof fn lemma_first_in_direction(ns: Seq<(GridActions, GridPos)>, dir: GridActions, i: int)
    requires
        0 <= i <= ns.len(),
        forall|j: int| 0 <= j < i ==> (#[trigger] ns[j]).0 != dir,
    ensures
        i <= first_in_direction(ns, dir) <= ns.len(),
        first_in_direction(ns, dir) < ns.len() ==> ns[first_in_direction(ns, dir)].0 == dir,
        i < ns.len() && ns[i].0 == dir ==> first_in_direction(ns, dir) == i,
    decreases ns.len(),
{
    if ns.len() > 0 && ns[0].0 != dir {
        assert forall|j: int| 0 <= j < i - 1 implies (#[trigger] ns.drop_first()[j]).0 != dir by {
            assert(ns.drop_first()[j] == ns[j + 1]);
        }
        if i > 0 {
            lemma_first_in_direction(ns.drop_first(), dir, i - 1);
        } else {
            lemma_first_in_direction(ns.drop_first(), dir, 0);
        }
    }
}

/// A corridor drawn to go on straight does so whenever it can: the carving
/// moves on in its previous direction when a neighbour lies that way. At
/// difficulty 1 every such draw says so ([`straight_draws_fit`]).
pub proof fn lemma_straight_draw_goes_on(
    ns: Seq<(GridActions, GridPos)>,
    dir: GridActions,
    drawn: int,
    i: int,
)
    requires
        0 <= i < ns.len(),
        ns[i].0 == dir,
    ensures
        chosen_neighbor(ns, Some(dir), true, drawn).0 == dir,
{
    lemma_first_in_direction(ns, dir, 0);
    lemma_first_at_most(ns, dir, i);
}

proof fn lemma_first_at_most(ns: Seq<(GridActions, GridPos)>, dir: GridActions, i: int)
    requires
        0 <= i < ns.len(),
        ns[i].0 == dir,
    ensures
        first_in_direction(ns, dir) <= i,
    decreases ns.len(),
{
    if ns[0].0 != dir {
        assert(ns.drop_first()[i - 1] == ns[i]);
        lemma_first_at_most(ns.drop_first(), dir, i - 1);
    }
}

/// The first position in `ns` of a neighbour reached by the move `dir`, or
/// `ns.len()` when there is none.
fn first_position(ns: &Vec<(GridActions, GridPos)>, dir: GridActions) -> (i: usize)
    ensures
        i == first_in_direction(ns@, dir),
        i <= ns@.len(),
        i < ns@.len() ==> ns@[i as int].0 == dir,
{
    let mut i: usize = 0;
    while i < ns.len()
        invariant
            0 <= i <= ns@.len(),
            forall|j: int| 0 <= j < i ==> (#[trigger] ns@[j]).0 != dir,
        decreases ns@.len() - i,
    {
        if ns[i].0 == dir {
            proof {
                lemma_first_in_direction(ns@, dir, i as int);
            }
            return i;
        }
        i = i + 1;
    }
    proof {
        lemma_first_in_direction(ns@, dir, i as int);
    }
    i
}

/// Chooses the neighbour to carve towards from the draws already made:
/// whether the corridor is to go on straight, and a position in `ns`.
pub fn choose_neighbor(
    ns: &Vec<(GridActions, GridPos)>,
    previous_direction: Option<GridActions>,
    straight: bool,
    drawn: usize,
) -> (c: (GridActions, GridPos))
    requires
        drawn < ns@.len(),
    ensures
        c == chosen_neighbor(ns@, previous_direction, straight, drawn as int),
{
    match previous_direction {
        Some(dir) => {
            if straight {
                let i = first_position(ns, dir);
                if i < ns.len() {
                    return ns[i];
                }
            }
            ns[drawn]
        },
        None => ns[drawn],
    }
}

/// Picks the neighbour to carve towards. With probability
/// `numerator / denominator` the corridor goes on straight when it can;
/// otherwise a neighbour is drawn uniformly. Returns the neighbour and the
/// draws it rests on (a draw that was not needed is recorded as any value
/// consistent with the difficulty).
fn pick_neighbor(
    ns: &Vec<(GridActions, GridPos)>,
    previous_direction: Option<GridActions>,
    numerator: u32,
    denominator: u32,
    rng: &mut ThreadRng,
) -> (r: ((GridActions, GridPos), Ghost<(bool, int)>))
    requires
        ns@.len() > 0,
        0 < denominator,
        numerator <= denominator,
    ensures
        0 <= r.1@.1 < ns@.len(),
        numerator == 0 ==> !r.1@.0,
        numerator == denominator ==> r.1@.0,
        r.0 == chosen_neighbor(ns@, previous_direction, r.1@.0, r.1@.1),
        ns@.contains(r.0),
{
    let straight = match previous_direction {
        Some(_) => random_ratio(rng, numerator, denominator),
        None => false,
    };
    let ghost recorded = match previous_direction {
        Some(_) => straight,
        None => numerator == denominator,
    };
    let straight_position = match previous_direction {
        Some(dir) => if straight {
            first_position(ns, dir)
        } else {
            ns.len()
        },
        None => ns.len(),
    };
    let drawn = if straight_position < ns.len() {
        0
    } else {
        let mut positions: Vec<usize> = Vec::new();
        let mut i: usize = 0;
        while i < ns.len()
            invariant
                0 <= i <= ns@.len(),
                positions@.len() == i,
                forall|j: int| 0 <= j < i ==> #[trigger] positions@[j] == j,
            decreases ns@.len() - i,
        {
            positions.push(i);
            i = i + 1;
        }
        let d = choose_from(rng, positions.as_slice()).unwrap();
        proof {
            let j = choose|j: int| 0 <= j < positions@.len() && positions@[j] == d;
            assert(positions@[j] == j);
        }
        d
    };
    let c = choose_neighbor(ns, previous_direction, straight, drawn);
    proof {
        lemma_first_in_direction(ns@, GridActions::Up, 0);
        lemma_first_in_direction(ns@, GridActions::Right, 0);
        lemma_first_in_direction(ns@, GridActions::Down, 0);
        lemma_first_in_direction(ns@, GridActions::Left, 0);
        assert(ns@.contains(ns@[drawn as int]));
        if let Some(dir) = previous_direction {
            if straight && first_in_direction(ns@, dir) < ns@.len() {
                assert(ns@.contains(ns@[first_in_direction(ns@, dir)]));
            }
        }
    }
    (c, Ghost((recorded, drawn as int)))
}

/// What the depth-first carving keeps true: the visited cells, the stack
/// of cells still to backtrack through, and the passages carved so far.
#[verifier::opaque]
pub open spec fn carving_inv(
    visited: Set<GridPos>,
    stack: Seq<GridPos>,
    passages: Set<(GridPos, GridActions)>,
    parent: Map<GridPos, (GridPos, GridActions)>,
    depth: Map<GridPos, nat>,
    w: int,
    h: int,
    start: GridPos,
) -> bool {
    &&& visited.contains(start)
    &&& forall|v: GridPos| #[trigger] visited.contains(v) ==> v == start || in_grid(v, w, h)
    &&& forall|i: int| 0 <= i < stack.len() ==> visited.contains(#[trigger] stack[i])
    &&& stack.no_duplicates()
    &&& forall|v: GridPos, a: GridActions|
        #![trigger visited.contains(v), shifted(v, a)]
        visited.contains(v) && !stack.contains(v) && in_grid(shifted(v, a), w, h)
            ==> visited.contains(shifted(v, a))
    &&& symmetric(passages)
    &&& passages_local(passages, w, h, start)
    &&& in_grid(start, w, h) ==> carving_tree(visited, parent, depth, passages, w, h, start)
}

proof fn lemma_carving_start(w: int, h: int, start: GridPos)
    ensures
        carving_inv(
            set![start],
            seq![start],
            Set::empty(),
            Map::empty(),
            Map::empty().insert(start, 0nat),
            w,
            h,
            start,
        ),
{
    reveal(carving_inv);
    let stack = seq![start];
    assert(stack[0] == start);
    assert(stack.contains(start));
}

proof fn lemma_carving_top(
    visited: Set<GridPos>,
    stack: Seq<GridPos>,
    passages: Set<(GridPos, GridActions)>,
    parent: Map<GridPos, (GridPos, GridActions)>,
    depth: Map<GridPos, nat>,
    w: int,
    h: int,
    start: GridPos,
)
    requires
        carving_inv(visited, stack, passages, parent, depth, w, h, start),
        stack.len() > 0,
    ensures
        visited.contains(stack.last()),
        stack.last() == start || in_grid(stack.last(), w, h),
{
    reveal(carving_inv);
    assert(visited.contains(stack[stack.len() - 1]));
}

proof fn lemma_carving_pop(
    visited: Set<GridPos>,
    stack: Seq<GridPos>,
    passages: Set<(GridPos, GridActions)>,
    parent: Map<GridPos, (GridPos, GridActions)>,
    depth: Map<GridPos, nat>,
    w: int,
    h: int,
    start: GridPos,
)
    requires
        carving_inv(visited, stack, passages, parent, depth, w, h, start),
        stack.len() > 0,
        forall|a: GridActions|
            in_grid(#[trigger] shifted(stack.last(), a), w, h) ==> visited.contains(
                shifted(stack.last(), a),
            ),
    ensures
        carving_inv(visited, stack.drop_last(), passages, parent, depth, w, h, start),
{
    reveal(carving_inv);
    let current = stack.last();
    let new_stack = stack.drop_last();
    assert(stack == new_stack.push(current));
    assert forall|v: GridPos| !new_stack.contains(v) && v != current implies !stack.contains(v) by {
        if stack.contains(v) {
            let i = choose|i: int| 0 <= i < stack.len() && stack[i] == v;
            assert(i < new_stack.len());
            assert(new_stack[i] == v);
        }
    }
    assert forall|i: int, j: int| 0 <= i < j < new_stack.len() implies new_stack[i] != new_stack[j] by {
        assert(stack[i] == new_stack[i] && stack[j] == new_stack[j]);
    }
    assert forall|i: int| 0 <= i < new_stack.len() implies visited.contains(#[trigger] new_stack[i]) by {
        assert(stack[i] == new_stack[i]);
    }
}

proof fn lemma_carving_push(
    visited: Set<GridPos>,
    stack: Seq<GridPos>,
    passages: Set<(GridPos, GridActions)>,
    parent: Map<GridPos, (GridPos, GridActions)>,
    depth: Map<GridPos, nat>,
    w: int,
    h: int,
    start: GridPos,
    direction: GridActions,
    next: GridPos,
)
    requires
        carving_inv(visited, stack, passages, parent, depth, w, h, start),
        stack.len() > 0,
        can_shift_all(stack.last()),
        w <= i32::MAX,
        h <= i32::MAX,
        next == shifted(stack.last(), direction),
        in_grid(next, w, h),
        !visited.contains(next),
    ensures
        carving_inv(
            visited.insert(next),
            stack.push(next),
            passages.insert((stack.last(), direction)).insert((next, opposite_of(direction))),
            parent.insert(next, (stack.last(), direction)),
            depth.insert(next, depth[stack.last()] + 1),
            w,
            h,
            start,
        ),
{
    reveal(carving_inv);
    let current = stack.last();
    assert(visited.contains(stack[stack.len() - 1]));
    lemma_shift_back(current, direction);
    lemma_opposite_involution(direction);
    let nv = visited.insert(next);
    let ns = stack.push(next);
    let np = passages.insert((current, direction)).insert((next, opposite_of(direction)));
    let npar = parent.insert(next, (current, direction));
    let nd = depth.insert(next, depth[current] + 1);
    assert(!stack.contains(next));
    assert forall|i: int, j: int| 0 <= i < j < ns.len() implies ns[i] != ns[j] by {
        if j == stack.len() {
            assert(stack.contains(stack[i]));
        }
    }
    assert forall|i: int| 0 <= i < ns.len() implies nv.contains(#[trigger] ns[i]) by {
        if i < stack.len() {
            assert(visited.contains(stack[i]));
        }
    }
    assert forall|v: GridPos| !ns.contains(v) implies !stack.contains(v) by {
        if stack.contains(v) {
            let i = choose|i: int| 0 <= i < stack.len() && stack[i] == v;
            assert(ns[i] == v);
        }
    }
    assert(ns.contains(next)) by {
        assert(ns[stack.len() as int] == next);
    }
    assert forall|p: GridPos, a: GridActions|
        #![trigger np.contains((p, a))]
        np.contains((p, a)) implies can_shift(p, a) && np.contains((shifted(p, a), opposite_of(a))) by {
        if (p, a) == (next, opposite_of(direction)) {
            assert(shifted(p, a) == current);
        } else if (p, a) == (current, direction) {
        } else {
            assert(passages.contains((p, a)));
        }
    }
    assert forall|p: GridPos, a: GridActions|
        #![trigger np.contains((p, a))]
        np.contains((p, a)) implies (in_grid(p, w, h) || p == start) && (in_grid(shifted(p, a), w, h)
            || shifted(p, a) == start) by {
        if (p, a) == (next, opposite_of(direction)) {
            assert(shifted(p, a) == current);
        } else if (p, a) == (current, direction) {
        } else {
            assert(passages.contains((p, a)));
        }
    }
    if in_grid(start, w, h) {
        assert forall|v: GridPos| #[trigger] nv.contains(v) implies {
            &&& nd.dom().contains(v)
            &&& in_grid(v, w, h)
            &&& v != start ==> {
                &&& npar.dom().contains(v)
                &&& nv.contains(npar[v].0)
                &&& shifted(npar[v].0, npar[v].1) == v
                &&& np.contains(npar[v])
                &&& nd[npar[v].0] + 1 == nd[v]
            }
        } by {
            if v != next {
                assert(visited.contains(v));
                if v != start {
                    assert(visited.contains(parent[v].0));
                }
            }
        }
    }
}

proof fn lemma_carving_done(
    visited: Set<GridPos>,
    stack: Seq<GridPos>,
    passages: Set<(GridPos, GridActions)>,
    parent: Map<GridPos, (GridPos, GridActions)>,
    depth: Map<GridPos, nat>,
    w: int,
    h: int,
    start: GridPos,
)
    requires
        carving_inv(visited, stack, passages, parent, depth, w, h, start),
        stack.len() == 0,
    ensures
        symmetric(passages),
        passages_local(passages, w, h, start),
        in_grid(start, w, h) ==> forall|c: GridPos|
            in_grid(c, w, h) ==> #[trigger] reachable(passage_moves(passages, w, h), start, c),
        in_grid(start, w, h) ==> forall|c: GridPos| #[trigger] visited.contains(c) <==> in_grid(c, w, h),
{
    reveal(carving_inv);
    if in_grid(start, w, h) {
        assert forall|c: GridPos| #[trigger] visited.contains(c) <==> in_grid(c, w, h) by {
            if in_grid(c, w, h) {
                assert forall|v: GridPos, a: GridActions|
                    #![trigger visited.contains(v), shifted(v, a)]
                    visited.contains(v) && in_grid(v, w, h) && in_grid(shifted(v, a), w, h)
                        implies visited.contains(shifted(v, a)) by {
                    assert(!stack.contains(v));
                }
                lemma_closed_set_covers_grid(visited, w, h, start, c);
            }
        }
        assert forall|c: GridPos| in_grid(c, w, h) implies #[trigger] reachable(
            passage_moves(passages, w, h),
            start,
            c,
        ) by {
            assert forall|v: GridPos, a: GridActions|
                #![trigger visited.contains(v), shifted(v, a)]
                visited.contains(v) && in_grid(v, w, h) && in_grid(shifted(v, a), w, h)
                    implies visited.contains(shifted(v, a)) by {
                assert(!stack.contains(v));
            }
            lemma_closed_set_covers_grid(visited, w, h, start, c);
            lemma_tree_reachable(visited, parent, depth, passages, w, h, start, c);
        }
    }
}

/// The passages a depth-first carving ends with from the given state, when
/// each of its steps forward rests on the next of `draws` (whether to go on
/// straight, and a position among the unvisited neighbours, taken modulo
/// their number); a step back to a cell with no unvisited neighbour takes no
/// draw. `fuel` bounds the number of steps.
pub open spec fn carving(
    width: int,
    height: int,
    visited: Set<GridPos>,
    stack: Seq<GridPos>,
    passages: Set<(GridPos, GridActions)>,
    previous_direction: Option<GridActions>,
    draws: Seq<(bool, int)>,
    fuel: nat,
) -> Set<(GridPos, GridActions)>
    decreases fuel,
{
    if stack.len() == 0 || fuel == 0 {
        passages
    } else {
        let current = stack.last();
        let ns = neighbors_upto(current, width, height, visited, 4);
        if ns.len() == 0 {
            carving(
                width,
                height,
                visited,
                stack.drop_last(),
                passages,
                None,
                draws,
                (fuel - 1) as nat,
            )
        } else {
            let (dir, next) = chosen_neighbor(
                ns,
                previous_direction,
                draws[0].0,
                draws[0].1 % (ns.len() as int),
            );
            carving(
                width,
                height,
                visited.insert(next),
                stack.push(next),
                passages.insert((current, dir)).insert((next, opposite_of(dir))),
                Some(dir),
                draws.drop_first(),
                (fuel - 1) as nat,
            )
        }
    }
}

/// The passages of the maze carved from `start` with the draws `draws`.
pub open spec fn carved_maze(width: int, height: int, start: GridPos, draws: Seq<(bool, int)>) -> Set<
    (GridPos, GridActions),
> {
    carving(
        width,
        height,
        set![start],
        seq![start],
        Set::empty(),
        None,
        draws,
        2 * grid_cells(width, height).insert(start).len(),
    )
}

/// The draws of "go on straight" are those a difficulty of
/// `numerator / denominator` can give: never at difficulty 0, always at 1.
pub open spec fn straight_draws_fit(draws: Seq<(bool, int)>, numerator: int, denominator: int) -> bool {
    forall|i: int|
        0 <= i < draws.len() ==> (numerator == 0 ==> !(#[trigger] draws[i]).0) && (numerator
            == denominator ==> draws[i].0)
}

/// Carves passages through the grid by a randomised depth-first search from
/// `start` (a recursive backtracker): the result is a spanning tree of the
/// grid when the start lies on it.
fn carve_passages(
    width: i32,
    height: i32,
    numerator: u32,
    denominator: u32,
    start: GridPos,
    rng: &mut ThreadRng,
) -> (passages: EdgeSet)
    requires
        0 <= width,
        0 <= height,
        width * height <= i32::MAX,
        0 < denominator,
        numerator <= denominator,
        can_shift_all(start),
    ensures
        symmetric(passages@),
        passages_local(passages@, width as int, height as int, start),
        in_grid(start, width as int, height as int) ==> forall|c: GridPos|
            in_grid(c, width as int, height as int) ==> #[trigger] reachable(
                passage_moves(passages@, width as int, height as int),
                start,
                c,
            ),
        passages@.finite(),
        in_grid(start, width as int, height as int) ==> passages@.len() == 2 * (width * height - 1),
        exists|draws: Seq<(bool, int)>|
            straight_draws_fit(draws, numerator as int, denominator as int) && #[trigger] carved_maze(
                width as int,
                height as int,
                start,
                draws,
            ) == passages@,
{
    let ghost w = width as int;
    let ghost h = height as int;
    proof {
        assert(width <= i32::MAX && height <= i32::MAX);
        lemma_grid_cells(w, h);
    }
    let ghost bound = grid_cells(w, h).insert(start);
    let mut visited = CellSet::new();
    let mut passages = EdgeSet::new();
    visited.insert(start);
    let mut stack: Vec<GridPos> = Vec::new();
    stack.push(start);
    let mut previous_direction: Option<GridActions> = None;
    let ghost mut parent: Map<GridPos, (GridPos, GridActions)> = Map::empty();
    let ghost mut depth: Map<GridPos, nat> = Map::empty().insert(start, 0nat);
    proof {
        assert(visited@ =~= set![start]);
        assert(stack@ =~= seq![start]);
        assert(passages@ =~= Set::<(GridPos, GridActions)>::empty());
        lemma_carving_start(w, h, start);
        lemma_len_subset(visited@, bound);
    }
    let ghost fuel0: nat = 2 * bound.len();
    let ghost mut fuel: nat = fuel0;
    let ghost mut draws: Seq<(bool, int)> = Seq::empty();
    proof {
        assert forall|f: Seq<(bool, int)>| #[trigger] carving(w, h, set![start], seq![start], Set::empty(), None, draws + f, fuel0)
            == carving(w, h, visited@, stack@, passages@, previous_direction, f, fuel) by {
            assert(draws + f =~= f);
        }
    }
    while stack.len() > 0
        invariant
            fuel0 == 2 * bound.len(),
            2 * (bound.len() - visited@.len()) + stack@.len() <= fuel,
            forall|f: Seq<(bool, int)>| #[trigger] carving(w, h, set![start], seq![start], Set::empty(), None, draws + f, fuel0)
                == carving(w, h, visited@, stack@, passages@, previous_direction, f, fuel),
            straight_draws_fit(draws, numerator as int, denominator as int),
            0 <= width,
            0 <= height,
            width * height <= i32::MAX,
            0 < denominator,
            numerator <= denominator,
            can_shift_all(start),
            w == width as int,
            h == height as int,
            bound == grid_cells(w, h).insert(start),
            bound.finite(),
            forall|p: GridPos| in_grid(p, w, h) ==> #[trigger] grid_cells(w, h).contains(p),
            visited@.subset_of(bound),
            visited@.finite(),
            carving_inv(visited@, stack@, passages@, parent, depth, w, h, start),
            passages@.finite(),
            visited@.len() >= 1,
            passages@.len() == 2 * (visited@.len() - 1),
            forall|p: GridPos, a: GridActions|
                #![trigger passages@.contains((p, a))]
                passages@.contains((p, a)) ==> visited@.contains(p) && visited@.contains(shifted(p, a)),
        decreases 2 * (bound.len() - visited@.len()) + stack@.len(),
    {
        proof {
            lemma_len_subset(visited@, bound);
            lemma_carving_top(visited@, stack@, passages@, parent, depth, w, h, start);
        }
        let current = stack[stack.len() - 1];
        let neighbors = unvisited_neighbors(current, width, height, &visited);
        let ghost state_visited = visited@;
        let ghost state_stack = stack@;
        let ghost state_passages = passages@;
        let ghost state_previous = previous_direction;
        let ghost state_fuel = fuel;
        let ghost state_draws = draws;
        if neighbors.len() == 0 {
            proof {
                lemma_carving_pop(visited@, stack@, passages@, parent, depth, w, h, start);
            }
            stack.pop();
            previous_direction = None;
            proof {
                fuel = (state_fuel - 1) as nat;
                assert forall|f: Seq<(bool, int)>| #[trigger] carving(w, h, set![start], seq![start], Set::empty(), None, draws + f, fuel0)
                    == carving(w, h, visited@, stack@, passages@, previous_direction, f, fuel) by {
                    assert(carving(w, h, set![start], seq![start], Set::empty(), None, state_draws + f, fuel0)
                        == carving(w, h, state_visited, state_stack, state_passages, state_previous, f, state_fuel));
                    assert(stack@ =~= state_stack.drop_last());
                }
            }
        } else {
            let (choice, draw) = pick_neighbor(&neighbors, previous_direction, numerator, denominator, rng);
            let (direction, next) = choice;
            proof {
                let i = choose|i: int| 0 <= i < neighbors@.len() && neighbors@[i] == (direction, next);
                assert(neighbors@[i] == (direction, next));
                lemma_carving_push(
                    visited@,
                    stack@,
                    passages@,
                    parent,
                    depth,
                    w,
                    h,
                    start,
                    direction,
                    next,
                );
                parent = parent.insert(next, (current, direction));
                depth = depth.insert(next, depth[current] + 1);
            }
            let ghost old_passages = passages@;
            let ghost old_visited = visited@;
            proof {
                assert(!old_passages.contains((current, direction)));
                assert(!old_passages.contains((next, opposite_of(direction))));
            }
            passages.insert(current, direction);
            passages.insert(next, direction.opposite());
            visited.insert(next);
            stack.push(next);
            proof {
                lemma_shift_back(current, direction);
                assert forall|p: GridPos, a: GridActions|
                    #![trigger passages@.contains((p, a))]
                    passages@.contains((p, a)) implies visited@.contains(p) && visited@.contains(
                    shifted(p, a),
                ) by {
                    if (p, a) != (current, direction) && (p, a) != (next, opposite_of(direction)) {
                        assert(old_passages.contains((p, a)));
                    }
                }
            }
            previous_direction = Some(direction);
            proof {
                let d = draw@;
                vstd::arithmetic::div_mod::lemma_small_mod(d.1 as nat, neighbors@.len());
                fuel = (state_fuel - 1) as nat;
                draws = state_draws.push(d);
                assert forall|f: Seq<(bool, int)>| #[trigger] carving(w, h, set![start], seq![start], Set::empty(), None, draws + f, fuel0)
                    == carving(w, h, visited@, stack@, passages@, previous_direction, f, fuel) by {
                    let g = seq![d] + f;
                    assert(draws + f =~= state_draws + g);
                    assert(carving(w, h, set![start], seq![start], Set::empty(), None, state_draws + g, fuel0)
                        == carving(w, h, state_visited, state_stack, state_passages, state_previous, g, state_fuel));
                    assert(g[0] == d);
                    assert(g.drop_first() =~= f);
                    assert(stack@ =~= state_stack.push(next));
                }
                assert forall|i: int| 0 <= i < draws.len() implies (numerator == 0 ==> !(#[trigger] draws[i]).0)
                    && (numerator == denominator ==> draws[i].0) by {
                    if i < state_draws.len() {
                        assert(draws[i] == state_draws[i]);
                    }
                }
            }
        }
    }
    proof {
        assert(carving(w, h, set![start], seq![start], Set::empty(), None, draws + Seq::empty(), fuel0)
            == carving(w, h, visited@, stack@, passages@, previous_direction, Seq::empty(), fuel));
        assert(draws + Seq::<(bool, int)>::empty() =~= draws);
        assert(carved_maze(w, h, start, draws) == passages@);
        lemma_carving_done(visited@, stack@, passages@, parent, depth, w, h, start);
        if in_grid(start, w, h) {
            assert(visited@ =~= grid_cells(w, h));
        }
    }
    passages
}

/// How many extra passages make loops in a maze of the given size and
/// difficulty: 15% of the cells, scaled by one minus the difficulty, rounded
/// down exactly. A product taken in `f32` can fall just below a whole number
/// and lose one (a 5 x 10 grid at difficulty 3/5 gets 3 here, 2 in `f32`).
pub open spec fn extra_connections_of(width: int, height: int, numerator: int, denominator: int) -> int {
    (width * height * (denominator - numerator) * 15) / (100 * denominator)
}

proof fn lemma_floor_div_monotone(a: int, b: int, c: int, e: int)
    requires
        0 <= a,
        0 <= c,
        0 < b,
        0 < e,
        a * e <= c * b,
    ensures
        a / b <= c / e,
{
    let q = a / b;
    vstd::arithmetic::div_mod::lemma_fundamental_div_mod(a, b);
    vstd::arithmetic::div_mod::lemma_fundamental_div_mod(c, e);
    assert(q * b <= a) by (nonlinear_arith)
        requires
            a == b * q + a % b,
            0 <= a % b,
    ;
    assert(q * e <= c) by (nonlinear_arith)
        requires
            q * b <= a,
            a * e <= c * b,
            0 < b,
            0 < e,
    {
        assert(q * b * e <= a * e) by (nonlinear_arith)
            requires
                q * b <= a,
                0 < e,
        ;
        assert(q * e * b <= c * b);
    }
    assert(q <= c / e) by (nonlinear_arith)
        requires
            q * e <= c,
            c == e * (c / e) + c % e,
            c % e < e,
            0 < e,
    ;
}

/// Harder means fewer loops: at a difficulty at least as high, a maze gets
/// no more extra passages.
pub proof fn lemma_harder_fewer_extra_passages(
    width: int,
    height: int,
    easy_numerator: int,
    easy_denominator: int,
    hard_numerator: int,
    hard_denominator: int,
)
    requires
        0 <= width,
        0 <= height,
        0 < easy_denominator,
        0 <= easy_numerator <= easy_denominator,
        0 < hard_denominator,
        0 <= hard_numerator <= hard_denominator,
        easy_numerator * hard_denominator <= hard_numerator * easy_denominator,
    ensures
        extra_connections_of(width, height, hard_numerator, hard_denominator)
            <= extra_connections_of(width, height, easy_numerator, easy_denominator),
{
    let area = width * height;
    let de = easy_denominator;
    let dh = hard_denominator;
    let me = de - easy_numerator;
    let mh = dh - hard_numerator;
    assert(0 <= area) by (nonlinear_arith)
        requires
            0 <= width,
            0 <= height,
            area == width * height,
    ;
    assert(mh * de <= me * dh) by (nonlinear_arith)
        requires
            easy_numerator * dh <= hard_numerator * de,
            me == de - easy_numerator,
            mh == dh - hard_numerator,
    ;
    assert(0 <= area * mh * 15 && 0 <= area * me * 15) by (nonlinear_arith)
        requires
            0 <= area,
            0 <= mh,
            0 <= me,
    ;
    assert((area * mh * 15) * (100 * de) <= (area * me * 15) * (100 * dh)) by (nonlinear_arith)
        requires
            0 <= area,
            mh * de <= me * dh,
    ;
    lemma_floor_div_monotone(area * mh * 15, 100 * dh, area * me * 15, 100 * de);
}

fn extra_connections(width: i32, height: i32, numerator: u32, denominator: u32) -> (n: usize)
    requires
        0 <= width,
        0 <= height,
        width * height <= i32::MAX,
        0 < denominator,
        numerator <= denominator,
    ensures
        n == extra_connections_of(width as int, height as int, numerator as int, denominator as int),
        n > 0 ==> 1 <= width && 1 <= height,
        numerator == denominator ==> n == 0,
{
    proof {
        assert(0 <= width * height) by (nonlinear_arith)
            requires
                0 <= width,
                0 <= height,
        ;
    }
    let area: u64 = (width as i64 * height as i64) as u64;
    proof {
        let a = area as int;
        let d = denominator as int;
        let m = (denominator - numerator) as int;
        assert(a == width * height);
        assert(0 <= a * m * 15 <= a * d * 15) by (nonlinear_arith)
            requires
                0 <= a,
                0 <= m <= d,
        ;
        assert((a * m * 15) / (100 * d) <= a) by (nonlinear_arith)
            requires
                0 <= a,
                0 <= a * m * 15 <= a * d * 15,
                0 < d,
        ;
        assert(a * m <= 2147483647 * 4294967295) by (nonlinear_arith)
            requires
                0 <= a <= 2147483647,
                0 <= m <= 4294967295,
        ;
        if width == 0 || height == 0 {
            assert(a == 0);
        }
        if m == 0 {
            assert(a * m * 15 == 0) by (nonlinear_arith)
                requires
                    m == 0,
            ;
        }
    }
    let top: u128 = area as u128 * (denominator - numerator) as u128 * 15u128;
    let bottom: u128 = 100u128 * denominator as u128;
    (top / bottom) as usize
}

/// The passages after the drawn moves `draws` are opened, in order, on top
/// of `passages`: a move whose target lies on the grid is opened both ways,
/// one that leaves the grid opens nothing.
pub open spec fn open_draws(
    passages: Set<(GridPos, GridActions)>,
    draws: Seq<(GridPos, GridActions)>,
    width: int,
    height: int,
) -> Set<(GridPos, GridActions)>
    decreases draws.len(),
{
    if draws.len() == 0 {
        passages
    } else {
        let before = open_draws(passages, draws.drop_last(), width, height);
        let (p, a) = draws.last();
        if in_grid(shifted(p, a), width, height) {
            before.insert((p, a)).insert((shifted(p, a), opposite_of(a)))
        } else {
            before
        }
    }
}

/// The drawn move `loops[i]` stays on the grid, and `e` is it or its reverse.
pub open spec fn opened_by(
    loops: Seq<(GridPos, GridActions)>,
    i: int,
    e: (GridPos, GridActions),
    width: int,
    height: int,
) -> bool {
    let (p, a) = loops[i];
    &&& in_grid(shifted(p, a), width, height)
    &&& (e == (p, a) || e == (shifted(p, a), opposite_of(a)))
}

/// Opening drawn moves keeps every passage, opens every drawn move whose
/// target lies on the grid both ways, and opens nothing else.
pub proof fn lemma_open_draws_opens_each_draw(
    passages: Set<(GridPos, GridActions)>,
    loops: Seq<(GridPos, GridActions)>,
    width: int,
    height: int,
)
    ensures
        passages.subset_of(open_draws(passages, loops, width, height)),
        forall|i: int|
            0 <= i < loops.len() && in_grid(shifted(loops[i].0, loops[i].1), width, height) ==> {
                &&& open_draws(passages, loops, width, height).contains(#[trigger] loops[i])
                &&& open_draws(passages, loops, width, height).contains(
                    (shifted(loops[i].0, loops[i].1), opposite_of(loops[i].1)),
                )
            },
        forall|e: (GridPos, GridActions)|
            #[trigger] open_draws(passages, loops, width, height).contains(e) ==> passages.contains(e)
                || exists|i: int| 0 <= i < loops.len() && #[trigger] opened_by(loops, i, e, width, height),
    decreases loops.len(),
{
    if loops.len() > 0 {
        let init = loops.drop_last();
        let n = loops.len() - 1;
        lemma_open_draws_opens_each_draw(passages, init, width, height);
        let before = open_draws(passages, init, width, height);
        let after = open_draws(passages, loops, width, height);
        assert(before.subset_of(after));
        assert forall|i: int|
            0 <= i < loops.len() && in_grid(shifted(loops[i].0, loops[i].1), width, height) implies {
            &&& after.contains(#[trigger] loops[i])
            &&& after.contains((shifted(loops[i].0, loops[i].1), opposite_of(loops[i].1)))
        } by {
            if i < n {
                assert(init[i] == loops[i]);
            }
        }
        assert forall|e: (GridPos, GridActions)| #[trigger] after.contains(e) implies passages.contains(e)
            || exists|i: int| 0 <= i < loops.len() && #[trigger] opened_by(loops, i, e, width, height) by {
            if before.contains(e) {
                if !passages.contains(e) {
                    let i = choose|i: int| 0 <= i < init.len() && #[trigger] opened_by(init, i, e, width, height);
                    assert(init[i] == loops[i]);
                    assert(opened_by(loops, i, e, width, height));
                }
            } else {
                assert(opened_by(loops, n, e, width, height));
            }
        }
    }
}

/// Opening the drawn moves adds at most two passages per draw.
pub proof fn lemma_open_draws_size(
    passages: Set<(GridPos, GridActions)>,
    draws: Seq<(GridPos, GridActions)>,
    width: int,
    height: int,
)
    requires
        passages.finite(),
    ensures
        open_draws(passages, draws, width, height).finite(),
        open_draws(passages, draws, width, height).len() <= passages.len() + 2 * draws.len(),
    decreases draws.len(),
{
    if draws.len() > 0 {
        lemma_open_draws_size(passages, draws.drop_last(), width, height);
    }
}

/// Draws `extra` random moves, each from a random cell of the grid, and
/// opens a passage (both ways) for each that stays on the grid, which opens
/// loops in the maze. Returns the moves drawn.
fn add_loops(
    passages: &mut EdgeSet,
    width: i32,
    height: i32,
    extra: usize,
    start: GridPos,
    rng: &mut ThreadRng,
) -> (draws: Vec<(GridPos, GridActions)>)
    requires
        extra > 0 ==> 1 <= width && 1 <= height,
        0 <= width,
        0 <= height,
        width * height <= i32::MAX,
        symmetric(old(passages)@),
        passages_local(old(passages)@, width as int, height as int, start),
    ensures
        draws@.len() == extra,
        forall|i: int| 0 <= i < draws@.len() ==> in_grid(#[trigger] draws@[i].0, width as int, height as int),
        final(passages)@ == open_draws(old(passages)@, draws@, width as int, height as int),
        forall|i: int|
            0 <= i < draws@.len() && in_grid(shifted(draws@[i].0, draws@[i].1), width as int, height as int)
                ==> {
                &&& final(passages)@.contains(#[trigger] draws@[i])
                &&& final(passages)@.contains((shifted(draws@[i].0, draws@[i].1), opposite_of(draws@[i].1)))
            },
        old(passages)@.subset_of(final(passages)@),
        symmetric(final(passages)@),
        passages_local(final(passages)@, width as int, height as int, start),
        extra == 0 ==> final(passages)@ == old(passages)@,
{
    let actions = GridActions::get_all_actions();
    let ghost initial = passages@;
    let mut draws: Vec<(GridPos, GridActions)> = Vec::new();
    let mut i: usize = 0;
    while i < extra
        invariant
            extra > 0 ==> 1 <= width && 1 <= height,
            0 <= width,
            0 <= height,
            width * height <= i32::MAX,
            actions@ == crate::rl::environments::discrete_2d::all_actions_seq(),
            0 <= i <= extra,
            draws@.len() == i,
            forall|j: int| 0 <= j < draws@.len() ==> in_grid(#[trigger] draws@[j].0, width as int, height as int),
            passages@ == open_draws(initial, draws@, width as int, height as int),
            initial.subset_of(passages@),
            symmetric(passages@),
            passages_local(passages@, width as int, height as int, start),
        decreases extra - i,
    {
        let x = random_i32_in(rng, 0, width);
        let y = random_i32_in(rng, 0, height);
        let pos = GridPos::new(x, y);
        let action = choose_from(rng, actions.as_slice()).unwrap();
        let next = shift(pos, action);
        let ghost before = draws@;
        draws.push((pos, action));
        assert(draws@.drop_last() == before);
        if !(next.x < 0 || next.x >= width || next.y < 0 || next.y >= height) {
            proof {
                lemma_add_passage(passages@, pos, action, width as int, height as int, start);
            }
            passages.insert(pos, action);
            passages.insert(next, action.opposite());
        }
        i = i + 1;
    }
    proof {
        lemma_open_draws_opens_each_draw(initial, draws@, width as int, height as int);
    }
    draws
}

proof fn lemma_add_passage(
    before: Set<(GridPos, GridActions)>,
    pos: GridPos,
    action: GridActions,
    w: int,
    h: int,
    start: GridPos,
)
    requires
        symmetric(before),
        passages_local(before, w, h, start),
        in_grid(pos, w, h),
        can_shift(pos, action),
        in_grid(shifted(pos, action), w, h),
    ensures
        ({
            let np = before.insert((pos, action)).insert((shifted(pos, action), opposite_of(action)));
            symmetric(np) && passages_local(np, w, h, start)
        }),
{
    let next = shifted(pos, action);
    lemma_shift_back(pos, action);
    lemma_opposite_involution(action);
    let np = before.insert((pos, action)).insert((next, opposite_of(action)));
    assert forall|p: GridPos, a: GridActions|
        #![trigger np.contains((p, a))]
        np.contains((p, a)) implies can_shift(p, a) && np.contains((shifted(p, a), opposite_of(a))) by {
        if (p, a) == (next, opposite_of(action)) {
            assert(shifted(p, a) == pos);
        } else if (p, a) == (pos, action) {
        } else {
            assert(before.contains((p, a)));
        }
    }
    assert forall|p: GridPos, a: GridActions|
        #![trigger np.contains((p, a))]
        np.contains((p, a)) implies (in_grid(p, w, h) || p == start) && (in_grid(shifted(p, a), w, h)
            || shifted(p, a) == start) by {
        if (p, a) == (next, opposite_of(action)) {
            assert(shifted(p, a) == pos);
        } else if (p, a) == (pos, action) {
        } else {
            assert(before.contains((p, a)));
        }
    }
}

/// The walls already placed when the cells are visited row by row, each
/// cell's moves in the order `Up, Right, Down, Left`, up to row `y`, column
/// `x` and move number `k`.
pub open spec fn walls_upto(
    passages: Set<(GridPos, GridActions)>,
    width: int,
    height: int,
    y: int,
    x: int,
    k: int,
) -> Set<(GridPos, GridActions)> {
    Set::new(
        |e: (GridPos, GridActions)|
            wall_needed(passages, width, height, e.0, e.1) && (e.0.y < y || (e.0.y == y && (e.0.x
                < x || (e.0.x == x && crate::rl::environments::discrete_2d::action_index(e.1) < k)))),
    )
}

/// Turns passages into walls: every move from a grid cell that leaves the
/// grid or has no passage is walled.
fn walls_from_passages(passages: &EdgeSet, width: i32, height: i32) -> (walls: EdgeSet)
    requires
        0 <= width,
        0 <= height,
        width * height <= i32::MAX,
    ensures
        walls@ == Set::new(
            |e: (GridPos, GridActions)| wall_needed(passages@, width as int, height as int, e.0, e.1),
        ),
{
    let ghost w = width as int;
    let ghost h = height as int;
    let actions = GridActions::get_all_actions();
    let mut walls = EdgeSet::new();
    proof {
        assert(walls@ =~= walls_upto(passages@, w, h, 0, 0, 0));
    }
    let mut y: i32 = 0;
    while y < height
        invariant
            0 <= y <= height,
            0 <= width,
            w == width as int,
            h == height as int,
            actions@ == crate::rl::environments::discrete_2d::all_actions_seq(),
            walls@ == walls_upto(passages@, w, h, y as int, 0, 0),
        decreases height - y,
    {
        let mut x: i32 = 0;
        while x < width
            invariant
                0 <= y < height,
                0 <= x <= width,
                w == width as int,
                h == height as int,
                actions@ == crate::rl::environments::discrete_2d::all_actions_seq(),
                walls@ == walls_upto(passages@, w, h, y as int, x as int, 0),
            decreases width - x,
        {
            let pos = GridPos::new(x, y);
            let mut k: usize = 0;
            while k < 4
                invariant
                    0 <= y < height,
                    0 <= x < width,
                    0 <= k <= 4,
                    pos.x == x && pos.y == y,
                    w == width as int,
                    h == height as int,
                    actions@ == crate::rl::environments::discrete_2d::all_actions_seq(),
                    walls@ == walls_upto(passages@, w, h, y as int, x as int, k as int),
                decreases 4 - k,
            {
                let action = actions[k];
                assert(crate::rl::environments::discrete_2d::action_index(action) == k);
                let next = shift(pos, action);
                let ghost before = walls@;
                if next.x < 0 || next.x >= width || next.y < 0 || next.y >= height {
                    walls.insert(pos, action);
                } else if !passages.contains(pos, action) {
                    walls.insert(pos, action);
                }
                proof {
                    assert(walls@ =~= walls_upto(passages@, w, h, y as int, x as int, k + 1));
                }
                k = k + 1;
            }
            proof {
                assert(walls@ =~= walls_upto(passages@, w, h, y as int, x + 1, 0));
            }
            x = x + 1;
        }
        proof {
            assert(walls@ =~= walls_upto(passages@, w, h, y + 1, 0, 0));
        }
        y = y + 1;
    }
    proof {
        assert(walls@ =~= Set::new(
            |e: (GridPos, GridActions)| wall_needed(passages@, w, h, e.0, e.1),
        ));
    }
    walls
}

/// The moves between two cells of the grid that no wall blocks.
pub open spec fn open_moves(walls: Set<(GridPos, GridActions)>, width: int, height: int) -> Set<
    (GridPos, GridActions),
> {
    Set::new(
        |e: (GridPos, GridActions)|
            in_grid(e.0, width, height) && in_grid(shifted(e.0, e.1), width, height) && !walls.contains(
                e,
            ),
    )
}

/// The walls of a maze with these passages: every move from a grid cell
/// that leaves the grid or has no passage.
pub open spec fn maze_walls(passages: Set<(GridPos, GridActions)>, width: int, height: int) -> Set<
    (GridPos, GridActions),
> {
    Set::new(|e: (GridPos, GridActions)| wall_needed(passages, width, height, e.0, e.1))
}

/// `walls` are those of the maze carved from `start` with the draws
/// `draws` (each fitting a difficulty of `numerator / denominator`) and then
/// opened further by the `loops` drawn moves, as many as the difficulty
/// asks for, each from a grid cell.
pub open spec fn maze_from_draws(
    walls: Set<(GridPos, GridActions)>,
    width: int,
    height: int,
    start: GridPos,
    numerator: int,
    denominator: int,
    draws: Seq<(bool, int)>,
    loops: Seq<(GridPos, GridActions)>,
) -> bool {
    &&& straight_draws_fit(draws, numerator, denominator)
    &&& loops.len() == extra_connections_of(width, height, numerator, denominator)
    &&& forall|i: int| 0 <= i < loops.len() ==> in_grid(#[trigger] loops[i].0, width, height)
    &&& walls == maze_walls(
        open_draws(carved_maze(width, height, start, draws), loops, width, height),
        width,
        height,
    )
}

/// The numerator of a difficulty capped at 1: a difficulty above 1 makes
/// the same mazes as difficulty 1.
pub open spec fn capped_numerator(numerator: int, denominator: int) -> int {
    if numerator > denominator {
        denominator
    } else {
        numerator
    }
}

/// Generates the walls of a random maze on the `width` x `height` grid,
/// carved from `start`.
///
/// `difficulty_numerator / difficulty_denominator` is the difficulty, from 0
/// (very easy) to 1 (hard): the probability that a corridor goes on straight
/// when it can, and one minus it scales the number of extra passages that
/// open loops (15% of the cells at difficulty 0). Harder means fewer loops
/// and longer corridors. A difficulty above 1 counts as 1.
///
/// Every move out of the grid is walled, walls stand on both sides of a
/// blocked move, and when `start` lies on the grid every cell can be reached
/// from it. At difficulty 1 the maze has no loops: its open moves are those
/// of a spanning tree, two (one each way) for each cell but the start. Below
/// it, at most [`extra_connections_of`] passages are added to that tree, a
/// number that does not grow with the difficulty
/// ([`lemma_harder_fewer_extra_passages`]).
///
/// The walls are exactly those made by some draws ([`maze_from_draws`]): a
/// depth-first carving whose every step forward goes on straight when its
/// draw says so and it can ([`chosen_neighbor`]), the draws never saying so
/// at difficulty 0 and always at difficulty 1, and then as many drawn moves
/// from grid cells as [`extra_connections_of`] asks for, each opened both
/// ways when it stays on the grid ([`open_draws`]).
pub fn generate_maze(
    width: i32,
    height: i32,
    difficulty_numerator: u32,
    difficulty_denominator: u32,
    start: GridPos,
) -> (walls: EdgeSet)
    requires
        0 <= width,
        0 <= height,
        width * height <= i32::MAX,
        0 < difficulty_denominator,
        can_shift_all(start),
    ensures
        forall|p: GridPos, a: GridActions|
            #[trigger] walls@.contains((p, a)) ==> in_grid(p, width as int, height as int),
        forall|p: GridPos, a: GridActions|
            in_grid(p, width as int, height as int) && !in_grid(
                #[trigger] shifted(p, a),
                width as int,
                height as int,
            ) ==> walls@.contains((p, a)),
        forall|p: GridPos, a: GridActions|
            in_grid(p, width as int, height as int) && in_grid(
                #[trigger] shifted(p, a),
                width as int,
                height as int,
            ) ==> (walls@.contains((p, a)) <==> walls@.contains((shifted(p, a), opposite_of(a)))),
        in_grid(start, width as int, height as int) ==> forall|c: GridPos|
            in_grid(c, width as int, height as int) ==> #[trigger] reachable(
                maze_moves(walls@, width as int, height as int),
                start,
                c,
            ),
        difficulty_numerator >= difficulty_denominator && in_grid(
            start,
            width as int,
            height as int,
        ) ==> open_moves(walls@, width as int, height as int).finite() && open_moves(
            walls@,
            width as int,
            height as int,
        ).len() == 2 * (width * height - 1),
        in_grid(start, width as int, height as int) ==> open_moves(
            walls@,
            width as int,
            height as int,
        ).finite() && open_moves(walls@, width as int, height as int).len() <= 2 * (width * height
            - 1) + 2 * extra_connections_of(
            width as int,
            height as int,
            capped_numerator(difficulty_numerator as int, difficulty_denominator as int),
            difficulty_denominator as int,
        ),
        exists|draws: Seq<(bool, int)>, loops: Seq<(GridPos, GridActions)>|
            #[trigger] maze_from_draws(
                walls@,
                width as int,
                height as int,
                start,
                capped_numerator(difficulty_numerator as int, difficulty_denominator as int),
                difficulty_denominator as int,
                draws,
                loops,
            ),
{
    let ghost w = width as int;
    let ghost h = height as int;
    let numerator = if difficulty_numerator > difficulty_denominator {
        difficulty_denominator
    } else {
        difficulty_numerator
    };
    let mut rng = thread_rng();
    let mut passages = carve_passages(
        width,
        height,
        numerator,
        difficulty_denominator,
        start,
        &mut rng,
    );
    let ghost tree = passages@;
    let extra = extra_connections(width, height, numerator, difficulty_denominator);
    let draws = add_loops(&mut passages, width, height, extra, start, &mut rng);
    let walls = walls_from_passages(&passages, width, height);
    proof {
        let carve_draws = choose|d: Seq<(bool, int)>|
            straight_draws_fit(d, numerator as int, difficulty_denominator as int) && #[trigger] carved_maze(
                w,
                h,
                start,
                d,
            ) == tree;
        assert(walls@ =~= maze_walls(passages@, w, h));
        assert(maze_from_draws(
            walls@,
            w,
            h,
            start,
            capped_numerator(difficulty_numerator as int, difficulty_denominator as int),
            difficulty_denominator as int,
            carve_draws,
            draws@,
        ));
    }
    proof {
        let pf = passages@;
        assert forall|p: GridPos, a: GridActions|
            in_grid(p, w, h) && in_grid(#[trigger] shifted(p, a), w, h) implies (walls@.contains((p, a))
                <==> walls@.contains((shifted(p, a), opposite_of(a)))) by {
            lemma_shift_back(p, a);
            lemma_opposite_involution(a);
            let q = shifted(p, a);
            if pf.contains((p, a)) {
                assert(pf.contains((q, opposite_of(a))));
            }
            if pf.contains((q, opposite_of(a))) {
                assert(pf.contains((shifted(q, opposite_of(a)), opposite_of(opposite_of(a)))));
            }
        }
        if in_grid(start, w, h) {
            assert forall|e: (GridPos, GridActions)| #[trigger] pf.contains(e) implies open_moves(
                walls@,
                w,
                h,
            ).contains(e) by {
                assert(pf.contains((e.0, e.1)));
            }
            assert(open_moves(walls@, w, h) =~= pf);
            lemma_open_draws_size(tree, draws@, w, h);
        }
        if in_grid(start, w, h) {
            assert forall|c: GridPos| in_grid(c, w, h) implies #[trigger] reachable(
                maze_moves(walls@, w, h),
                start,
                c,
            ) by {
                assert(reachable(passage_moves(tree, w, h), start, c));
                let n = choose|n: nat| reachable_within(passage_moves(tree, w, h), start, c, n);
                assert forall|p: GridPos, a: GridActions|
                    #[trigger] passage_moves(tree, w, h)(p, a) implies maze_moves(walls@, w, h)(p, a) by {
                    assert(pf.contains((p, a)));
                }
                lemma_reachable_within_monotone(
                    passage_moves(tree, w, h),
                    maze_moves(walls@, w, h),
                    start,
                    c,
                    n,
                );
            }
        }
    }
    walls
}


/**************************************************************
                        Furthest cell
**************************************************************/

/// `c` is exactly `d` moves away from `s`: reachable within `d` moves, and
/// not within fewer.
pub open spec fn exact_distance(
    can_move: spec_fn(GridPos, GridActions) -> bool,
    s: GridPos,
    c: GridPos,
    d: int,
) -> bool {
    &&& d >= 0
    &&& reachable_within(can_move, s, c, d as nat)
    &&& (d == 0 || !reachable_within(can_move, s, c, (d - 1) as nat))
}

/// Reachability within `n` moves implies reachability within more.
pub proof fn lemma_reachable_within_more(
    can_move: spec_fn(GridPos, GridActions) -> bool,
    s: GridPos,
    c: GridPos,
    n: nat,
    m: nat,
)
    requires
        reachable_within(can_move, s, c, n),
        n <= m,
    ensures
        reachable_within(can_move, s, c, m),
    decreases n,
{
    if c != s {
        let (p, a) = choose|p: GridPos, a: GridActions|
            #[trigger] can_move(p, a) && shifted(p, a) == c && reachable_within(can_move, s, p, (n - 1) as nat);
        lemma_reachable_within_more(can_move, s, p, (n - 1) as nat, (m - 1) as nat);
        assert(can_move(p, a));
    }
}

/// A cell has one exact distance.
pub proof fn lemma_exact_distance_unique(
    can_move: spec_fn(GridPos, GridActions) -> bool,
    s: GridPos,
    c: GridPos,
    d1: int,
    d2: int,
)
    requires
        exact_distance(can_move, s, c, d1),
        exact_distance(can_move, s, c, d2),
    ensures
        d1 == d2,
{
    if d1 < d2 {
        lemma_reachable_within_more(can_move, s, c, d1 as nat, (d2 - 1) as nat);
    } else if d2 < d1 {
        lemma_reachable_within_more(can_move, s, c, d2 as nat, (d1 - 1) as nat);
    }
}

/// A set that holds `s` and is closed under the moves holds every cell
/// reachable from `s`.
pub proof fn lemma_closed_set_holds_reachable(
    can_move: spec_fn(GridPos, GridActions) -> bool,
    cells: Set<GridPos>,
    s: GridPos,
    c: GridPos,
    n: nat,
)
    requires
        cells.contains(s),
        forall|v: GridPos, a: GridActions|
            #![trigger cells.contains(v), can_move(v, a)]
            cells.contains(v) && can_move(v, a) ==> cells.contains(shifted(v, a)),
        reachable_within(can_move, s, c, n),
    ensures
        cells.contains(c),
    decreases n,
{
    if c != s {
        let (p, a) = choose|p: GridPos, a: GridActions|
            #[trigger] can_move(p, a) && shifted(p, a) == c && reachable_within(can_move, s, p, (n - 1) as nat);
        lemma_closed_set_holds_reachable(can_move, cells, s, p, (n - 1) as nat);
    }
}

/// `v` is waiting in the queue.
pub open spec fn in_queue(queue: Seq<(GridPos, i32)>, v: GridPos) -> bool {
    exists|i: int| 0 <= i < queue.len() && (#[trigger] queue[i]).0 == v
}

/// The first `k` moves from `v` (in the order `Up, Right, Down, Left`) lead
/// to visited cells when they are allowed.
pub open spec fn expanded_upto(
    can_move: spec_fn(GridPos, GridActions) -> bool,
    visited: Set<GridPos>,
    v: GridPos,
    k: int,
) -> bool {
    forall|j: int|
        0 <= j < k && can_move(v, #[trigger] crate::rl::environments::discrete_2d::all_actions_seq()[j])
            ==> visited.contains(
            shifted(v, crate::rl::environments::discrete_2d::all_actions_seq()[j]),
        )
}

/// What the breadth-first search keeps true. `current` is the cell whose
/// moves are being followed, `k` the number of them followed so far, and
/// `level` the distance of `current`.
#[verifier::opaque]
pub open spec fn search_inv(
    can_move: spec_fn(GridPos, GridActions) -> bool,
    start: GridPos,
    width: int,
    height: int,
    visited: Set<GridPos>,
    queue: Seq<(GridPos, i32)>,
    level: int,
    best: int,
    best_cell: GridPos,
    current: GridPos,
    k: int,
) -> bool {
    &&& visited.contains(start)
    &&& visited.finite()
    &&& forall|v: GridPos| #[trigger] visited.contains(v) ==> v == start || in_grid(v, width, height)
    &&& forall|i: int|
        0 <= i < queue.len() ==> {
            &&& visited.contains((#[trigger] queue[i]).0)
            &&& exact_distance(can_move, start, queue[i].0, queue[i].1 as int)
            &&& level <= queue[i].1 <= level + 1
            &&& queue[i].1 < visited.len()
        }
    &&& forall|i: int, j: int| 0 <= i < j < queue.len() ==> (#[trigger] queue[i]).1 <= (#[trigger] queue[j]).1
    &&& forall|i: int, j: int| 0 <= i < j < queue.len() ==> (#[trigger] queue[i]).0 != (#[trigger] queue[j]).0
    &&& forall|v: GridPos|
        #[trigger] visited.contains(v) && !in_queue(queue, v) ==> expanded_upto(
            can_move,
            visited,
            v,
            if v == current {
                k
            } else {
                4
            },
        )
    &&& level >= 1 ==> forall|u: GridPos|
        #[trigger] reachable_within(can_move, start, u, (level - 1) as nat) ==> visited.contains(u)
            && !in_queue(queue, u)
    &&& forall|v: GridPos|
        #[trigger] visited.contains(v) && !in_queue(queue, v) ==> reachable_within(
            can_move,
            start,
            v,
            best as nat,
        )
    &&& exact_distance(can_move, start, best_cell, best)
    &&& best <= level
}

proof fn lemma_expanded_all(
    can_move: spec_fn(GridPos, GridActions) -> bool,
    visited: Set<GridPos>,
    v: GridPos,
    a: GridActions,
)
    requires
        expanded_upto(can_move, visited, v, 4),
        can_move(v, a),
    ensures
        visited.contains(shifted(v, a)),
{
    let j: int = match a {
        GridActions::Up => 0,
        GridActions::Right => 1,
        GridActions::Down => 2,
        GridActions::Left => 3,
    };
    assert(crate::rl::environments::discrete_2d::all_actions_seq()[j] == a);
}

proof fn lemma_search_start(
    can_move: spec_fn(GridPos, GridActions) -> bool,
    start: GridPos,
    width: int,
    height: int,
)
    ensures
        search_inv(
            can_move,
            start,
            width,
            height,
            set![start],
            seq![(start, 0i32)],
            0,
            0,
            start,
            start,
            4,
        ),
{
    reveal(search_inv);
    let q = seq![(start, 0i32)];
    assert(q[0] == (start, 0i32));
    assert(in_queue(q, start));
    assert(set![start].len() == 1) by {
        assert(set![start] =~= Set::<GridPos>::empty().insert(start));
    }
}

proof fn lemma_search_pop(
    can_move: spec_fn(GridPos, GridActions) -> bool,
    start: GridPos,
    width: int,
    height: int,
    visited: Set<GridPos>,
    queue: Seq<(GridPos, i32)>,
    level: int,
    best: int,
    best_cell: GridPos,
    current: GridPos,
)
    requires
        search_inv(can_move, start, width, height, visited, queue, level, best, best_cell, current, 4),
        queue.len() > 0,
    ensures
        ({
            let (c, d) = queue[0];
            let new_best = if d > best {
                d as int
            } else {
                best
            };
            let new_best_cell = if d > best {
                c
            } else {
                best_cell
            };
            &&& search_inv(
                can_move,
                start,
                width,
                height,
                visited,
                queue.drop_first(),
                d as int,
                new_best,
                new_best_cell,
                c,
                0,
            )
            &&& visited.contains(c)
            &&& c == start || in_grid(c, width, height)
            &&& exact_distance(can_move, start, c, d as int)
            &&& 0 <= d < visited.len()
            &&& !in_queue(queue.drop_first(), c)
        }),
{
    reveal(search_inv);
    let (c, d) = queue[0];
    let q2 = queue.drop_first();
    let new_best = if d > best {
        d as int
    } else {
        best
    };
    let new_best_cell = if d > best {
        c
    } else {
        best_cell
    };
    assert(queue[0] == (c, d));
    assert forall|v: GridPos| in_queue(q2, v) implies in_queue(queue, v) by {
        let i = choose|i: int| 0 <= i < q2.len() && (#[trigger] q2[i]).0 == v;
        assert(queue[i + 1] == q2[i]);
    }
    assert(!in_queue(q2, c)) by {
        if in_queue(q2, c) {
            let i = choose|i: int| 0 <= i < q2.len() && (#[trigger] q2[i]).0 == c;
            assert(queue[i + 1] == q2[i]);
        }
    }
    assert forall|v: GridPos| in_queue(queue, v) && v != c implies in_queue(q2, v) by {
        let i = choose|i: int| 0 <= i < queue.len() && (#[trigger] queue[i]).0 == v;
        assert(i != 0);
        assert(q2[i - 1] == queue[i]);
    }
    assert forall|i: int|
        0 <= i < q2.len() implies {
            &&& visited.contains((#[trigger] q2[i]).0)
            &&& exact_distance(can_move, start, q2[i].0, q2[i].1 as int)
            &&& d <= q2[i].1 <= d + 1
            &&& q2[i].1 < visited.len()
        } by {
        assert(q2[i] == queue[i + 1]);
        assert(queue[0].1 <= queue[i + 1].1);
    }
    assert forall|i: int, j: int| 0 <= i < j < q2.len() implies (#[trigger] q2[i]).1 <= (
    #[trigger] q2[j]).1 && q2[i].0 != q2[j].0 by {
        assert(q2[i] == queue[i + 1] && q2[j] == queue[j + 1]);
    }
    assert forall|v: GridPos|
        #[trigger] visited.contains(v) && !in_queue(q2, v) implies expanded_upto(
        can_move,
        visited,
        v,
        if v == c {
            0
        } else {
            4
        },
    ) by {
        if v != c {
            assert(!in_queue(queue, v));
        }
    }
    if d >= 1 {
        assert forall|u: GridPos|
            #[trigger] reachable_within(can_move, start, u, (d - 1) as nat) implies visited.contains(u)
                && !in_queue(q2, u) by {
            if level >= 1 && reachable_within(can_move, start, u, (level - 1) as nat) {
            } else {
                // u is exactly `level` away, and `d == level + 1`.
                assert(d == level + 1);
                assert(exact_distance(can_move, start, u, level));
                if u != start {
                    let (p, a) = choose|p: GridPos, a: GridActions|
                        #[trigger] can_move(p, a) && shifted(p, a) == u && reachable_within(
                            can_move,
                            start,
                            p,
                            (level - 1) as nat,
                        );
                    assert(visited.contains(p) && !in_queue(queue, p));
                    if p == current {
                        assert(expanded_upto(can_move, visited, p, 4));
                    }
                    lemma_expanded_all(can_move, visited, p, a);
                }
                if in_queue(q2, u) {
                    let i = choose|i: int| 0 <= i < q2.len() && (#[trigger] q2[i]).0 == u;
                    assert(q2[i] == queue[i + 1]);
                    assert(exact_distance(can_move, start, u, q2[i].1 as int));
                    lemma_exact_distance_unique(can_move, start, u, level, q2[i].1 as int);
                }
            }
        }
    }
    assert forall|v: GridPos|
        #[trigger] visited.contains(v) && !in_queue(q2, v) implies reachable_within(
        can_move,
        start,
        v,
        new_best as nat,
    ) by {
        if v == c {
            lemma_reachable_within_more(can_move, start, v, d as nat, new_best as nat);
        } else {
            assert(!in_queue(queue, v));
            lemma_reachable_within_more(can_move, start, v, best as nat, new_best as nat);
        }
    }
}

proof fn lemma_search_skip(
    can_move: spec_fn(GridPos, GridActions) -> bool,
    start: GridPos,
    width: int,
    height: int,
    visited: Set<GridPos>,
    queue: Seq<(GridPos, i32)>,
    level: int,
    best: int,
    best_cell: GridPos,
    current: GridPos,
    k: int,
)
    requires
        search_inv(can_move, start, width, height, visited, queue, level, best, best_cell, current, k),
        0 <= k < 4,
        can_move(current, crate::rl::environments::discrete_2d::all_actions_seq()[k]) ==> visited.contains(
            shifted(current, crate::rl::environments::discrete_2d::all_actions_seq()[k]),
        ),
    ensures
        search_inv(
            can_move,
            start,
            width,
            height,
            visited,
            queue,
            level,
            best,
            best_cell,
            current,
            k + 1,
        ),
{
    reveal(search_inv);
}

proof fn lemma_search_push(
    can_move: spec_fn(GridPos, GridActions) -> bool,
    start: GridPos,
    width: int,
    height: int,
    visited: Set<GridPos>,
    queue: Seq<(GridPos, i32)>,
    level: int,
    best: int,
    best_cell: GridPos,
    current: GridPos,
    k: int,
    next: GridPos,
)
    requires
        search_inv(can_move, start, width, height, visited, queue, level, best, best_cell, current, k),
        0 <= k < 4,
        visited.contains(current),
        !in_queue(queue, current),
        exact_distance(can_move, start, current, level),
        level < visited.len(),
        can_move(current, crate::rl::environments::discrete_2d::all_actions_seq()[k]),
        next == shifted(current, crate::rl::environments::discrete_2d::all_actions_seq()[k]),
        in_grid(next, width, height),
        !visited.contains(next),
        level + 1 <= i32::MAX,
    ensures
        search_inv(
            can_move,
            start,
            width,
            height,
            visited.insert(next),
            queue.push((next, (level + 1) as i32)),
            level,
            best,
            best_cell,
            current,
            k + 1,
        ),
        visited.insert(next).len() == visited.len() + 1,
{
    reveal(search_inv);
    let a = crate::rl::environments::discrete_2d::all_actions_seq()[k];
    let nv = visited.insert(next);
    let nq = queue.push((next, (level + 1) as i32));
    assert(nq[queue.len() as int] == (next, (level + 1) as i32));
    assert(in_queue(nq, next));
    assert(!in_queue(queue, next));
    assert forall|v: GridPos| in_queue(queue, v) implies in_queue(nq, v) by {
        let i = choose|i: int| 0 <= i < queue.len() && (#[trigger] queue[i]).0 == v;
        assert(nq[i] == queue[i]);
    }
    assert forall|v: GridPos| in_queue(nq, v) && v != next implies in_queue(queue, v) by {
        let i = choose|i: int| 0 <= i < nq.len() && (#[trigger] nq[i]).0 == v;
        assert(i < queue.len());
        assert(nq[i] == queue[i]);
    }
    // the new cell is exactly one move further than `current`
    assert(reachable_within(can_move, start, next, (level + 1) as nat)) by {
        assert(can_move(current, a));
    }
    assert(!reachable_within(can_move, start, next, level as nat)) by {
        if reachable_within(can_move, start, next, level as nat) {
            if next != start {
                let (p, b) = choose|p: GridPos, b: GridActions|
                    #[trigger] can_move(p, b) && shifted(p, b) == next && reachable_within(
                        can_move,
                        start,
                        p,
                        (level - 1) as nat,
                    );
                assert(level >= 1);
                assert(visited.contains(p) && !in_queue(queue, p));
                if p == current {
                    assert(reachable_within(can_move, start, current, (level - 1) as nat));
                }
                assert(expanded_upto(can_move, visited, p, 4));
                lemma_expanded_all(can_move, visited, p, b);
            }
        }
    }
    assert forall|i: int|
        0 <= i < nq.len() implies {
            &&& nv.contains((#[trigger] nq[i]).0)
            &&& exact_distance(can_move, start, nq[i].0, nq[i].1 as int)
            &&& level <= nq[i].1 <= level + 1
            &&& nq[i].1 < nv.len()
        } by {
        if i < queue.len() {
            assert(nq[i] == queue[i]);
        }
    }
    assert forall|i: int, j: int| 0 <= i < j < nq.len() implies (#[trigger] nq[i]).1 <= (
    #[trigger] nq[j]).1 && nq[i].0 != nq[j].0 by {
        assert(nq[i] == queue[i]);
        if j < queue.len() {
            assert(nq[j] == queue[j]);
        } else {
            assert(in_queue(queue, queue[i].0));
        }
    }
    assert forall|v: GridPos|
        #[trigger] nv.contains(v) && !in_queue(nq, v) implies expanded_upto(
        can_move,
        nv,
        v,
        if v == current {
            k + 1
        } else {
            4
        },
    ) by {
        assert(visited.contains(v) && !in_queue(queue, v));
    }
    if level >= 1 {
        assert forall|u: GridPos|
            #[trigger] reachable_within(can_move, start, u, (level - 1) as nat) implies nv.contains(u)
                && !in_queue(nq, u) by {
            assert(visited.contains(u));
        }
    }
    assert forall|v: GridPos|
        #[trigger] nv.contains(v) && !in_queue(nq, v) implies reachable_within(
        can_move,
        start,
        v,
        best as nat,
    ) by {
        assert(visited.contains(v) && !in_queue(queue, v));
    }
}

proof fn lemma_search_done(
    can_move: spec_fn(GridPos, GridActions) -> bool,
    start: GridPos,
    width: int,
    height: int,
    visited: Set<GridPos>,
    queue: Seq<(GridPos, i32)>,
    level: int,
    best: int,
    best_cell: GridPos,
    current: GridPos,
)
    requires
        search_inv(can_move, start, width, height, visited, queue, level, best, best_cell, current, 4),
        queue.len() == 0,
    ensures
        exact_distance(can_move, start, best_cell, best),
        forall|c: GridPos|
            #[trigger] reachable(can_move, start, c) ==> reachable_within(
                can_move,
                start,
                c,
                best as nat,
            ),
{
    reveal(search_inv);
    assert forall|v: GridPos| !in_queue(queue, v) by {}
    assert forall|v: GridPos, a: GridActions|
        #![trigger visited.contains(v), can_move(v, a)]
        visited.contains(v) && can_move(v, a) implies visited.contains(shifted(v, a)) by {
        lemma_expanded_all(can_move, visited, v, a);
    }
    assert forall|c: GridPos| #[trigger] reachable(can_move, start, c) implies reachable_within(
        can_move,
        start,
        c,
        best as nat,
    ) by {
        let n = choose|n: nat| reachable_within(can_move, start, c, n);
        lemma_closed_set_holds_reachable(can_move, visited, start, c, n);
    }
}

/// The cells that can be reached from `s` with moves allowed by `can_move`.
pub open spec fn reachable_cells(can_move: spec_fn(GridPos, GridActions) -> bool, s: GridPos) -> Set<
    GridPos,
> {
    Set::new(|c: GridPos| reachable(can_move, s, c))
}

/// From `start`, only cells of the grid (and `start` itself) can be reached.
pub proof fn lemma_reachable_cells_finite(
    walls: Set<(GridPos, GridActions)>,
    width: int,
    height: int,
    start: GridPos,
)
    requires
        0 <= width <= i32::MAX,
        0 <= height <= i32::MAX,
    ensures
        reachable_cells(maze_moves(walls, width, height), start).subset_of(
            grid_cells(width, height).insert(start),
        ),
        reachable_cells(maze_moves(walls, width, height), start).finite(),
{
    lemma_grid_cells(width, height);
    let r = reachable_cells(maze_moves(walls, width, height), start);
    assert forall|c: GridPos| #[trigger] r.contains(c) implies grid_cells(width, height).insert(
        start,
    ).contains(c) by {
        let n = choose|n: nat| reachable_within(maze_moves(walls, width, height), start, c, n);
        lemma_reached_cell_on_grid(walls, width, height, start, c, n);
    }
    vstd::set_lib::lemma_len_subset(r, grid_cells(width, height).insert(start));
}

proof fn lemma_visited_reachable(
    can_move: spec_fn(GridPos, GridActions) -> bool,
    start: GridPos,
    width: int,
    height: int,
    visited: Set<GridPos>,
    queue: Seq<(GridPos, i32)>,
    level: int,
    best: int,
    best_cell: GridPos,
    current: GridPos,
    k: int,
)
    requires
        search_inv(can_move, start, width, height, visited, queue, level, best, best_cell, current, k),
    ensures
        visited.subset_of(reachable_cells(can_move, start)),
{
    reveal(search_inv);
    assert forall|v: GridPos| #[trigger] visited.contains(v) implies reachable_cells(
        can_move,
        start,
    ).contains(v) by {
        if in_queue(queue, v) {
            let i = choose|i: int| 0 <= i < queue.len() && (#[trigger] queue[i]).0 == v;
            assert(exact_distance(can_move, start, queue[i].0, queue[i].1 as int));
            assert(reachable_within(can_move, start, v, queue[i].1 as nat));
        } else {
            assert(reachable_within(can_move, start, v, best as nat));
        }
    }
}

/// The cells seen and the queue of the breadth-first search once it has
/// looked at the moves of `cell` (at distance `d`) from move number `k` on,
/// in the order `Up, Right, Down, Left`: an open move to a cell of the grid
/// not seen yet queues that cell at distance `d + 1`.
pub open spec fn search_expand(
    walls: Set<(GridPos, GridActions)>,
    width: int,
    height: int,
    visited: Set<GridPos>,
    queue: Seq<(GridPos, i32)>,
    cell: GridPos,
    d: i32,
    k: int,
) -> (Set<GridPos>, Seq<(GridPos, i32)>)
    decreases 4 - k,
{
    if k < 0 || k >= 4 {
        (visited, queue)
    } else {
        let a = crate::rl::environments::discrete_2d::all_actions_seq()[k];
        let next = shifted(cell, a);
        if !walls.contains((cell, a)) && in_grid(next, width, height) && !visited.contains(next) {
            search_expand(
                walls,
                width,
                height,
                visited.insert(next),
                queue.push((next, (d + 1) as i32)),
                cell,
                d,
                k + 1,
            )
        } else {
            search_expand(walls, width, height, visited, queue, cell, d, k + 1)
        }
    }
}

/// The cell the breadth-first search settles on: it takes the queued cells
/// from the front, queues their unseen neighbours (see [`search_expand`]),
/// and keeps the first cell found at a larger distance than the best so far.
/// `fuel` bounds the number of cells taken.
pub open spec fn search_result(
    walls: Set<(GridPos, GridActions)>,
    width: int,
    height: int,
    visited: Set<GridPos>,
    queue: Seq<(GridPos, i32)>,
    best: GridPos,
    best_distance: i32,
    fuel: nat,
) -> GridPos
    decreases fuel,
{
    if queue.len() == 0 || fuel == 0 {
        best
    } else {
        let (cell, d) = queue[0];
        let (v, q) = search_expand(walls, width, height, visited, queue.drop_first(), cell, d, 0);
        if d > best_distance {
            search_result(walls, width, height, v, q, cell, d, (fuel - 1) as nat)
        } else {
            search_result(walls, width, height, v, q, best, best_distance, (fuel - 1) as nat)
        }
    }
}

/// The first cell at the largest distance from `start` in the order the
/// breadth-first search from `start` takes the cells.
pub open spec fn furthest_in_search_order(
    start: GridPos,
    width: int,
    height: int,
    walls: Set<(GridPos, GridActions)>,
) -> GridPos {
    search_result(
        walls,
        width,
        height,
        set![start],
        seq![(start, 0i32)],
        start,
        0,
        grid_cells(width, height).insert(start).len(),
    )
}

/// The cell furthest from `start` in the maze: a breadth-first search through
/// the moves the walls allow (a wall on the side a move starts from blocks
/// it) that stay on the grid. Among the cells at the largest distance, the
/// first one the search reaches is returned.
///
/// The result is exactly `d` moves away from `start` for some `d`, and every
/// cell that can be reached from `start` lies within `d` moves of it; of the
/// cells that far away, it is the first the search takes
/// ([`furthest_in_search_order`]). Distances are kept in an `i32`, so at
/// most `i32::MAX + 1` cells may be reachable from `start`.
pub fn find_furthest_cell(start: GridPos, width: i32, height: i32, walls: &EdgeSet) -> (r: GridPos)
    requires
        0 <= width,
        0 <= height,
        reachable_cells(maze_moves(walls@, width as int, height as int), start).len() <= i32::MAX + 1,
        can_shift_all(start),
    ensures
        exists|d: int|
            {
                &&& exact_distance(maze_moves(walls@, width as int, height as int), start, r, d)
                &&& forall|c: GridPos|
                    #[trigger] reachable(maze_moves(walls@, width as int, height as int), start, c)
                        ==> reachable_within(
                        maze_moves(walls@, width as int, height as int),
                        start,
                        c,
                        d as nat,
                    )
            },
        r == furthest_in_search_order(start, width as int, height as int, walls@),
{
    broadcast use vstd::std_specs::vecdeque::group_vec_dequeue_axioms;

    let ghost w = width as int;
    let ghost h = height as int;
    let ghost m = maze_moves(walls@, w, h);
    proof {
        lemma_grid_cells(w, h);
        lemma_reachable_cells_finite(walls@, w, h, start);
    }
    let ghost bound = grid_cells(w, h).insert(start);
    let actions = GridActions::get_all_actions();
    let mut visited = CellSet::new();
    let mut queue: VecDeque<(GridPos, i32)> = VecDeque::new();
    queue.push_back((start, 0));
    visited.insert(start);
    let mut best_cell = start;
    let mut best_distance: i32 = 0;
    let ghost mut level: int = 0;
    let ghost mut current: GridPos = start;
    proof {
        assert(visited@ =~= set![start]);
        assert(queue@ =~= seq![(start, 0i32)]);
        lemma_search_start(m, start, w, h);
        lemma_len_subset(visited@, bound);
    }
    let ghost result = furthest_in_search_order(start, w, h, walls@);
    let ghost mut fuel: nat = bound.len();
    while queue.len() > 0
        invariant
            result == search_result(walls@, w, h, visited@, queue@, best_cell, best_distance, fuel),
            queue@.len() + (bound.len() - visited@.len()) <= fuel,
            visited@.finite(),
            0 <= width,
            0 <= height,
            reachable_cells(m, start).finite(),
            reachable_cells(m, start).len() <= i32::MAX + 1,
            w == width as int,
            h == height as int,
            m == maze_moves(walls@, w, h),
            can_shift_all(start),
            actions@ == crate::rl::environments::discrete_2d::all_actions_seq(),
            bound == grid_cells(w, h).insert(start),
            bound.finite(),
            bound.len() <= w * h + 1,
            forall|p: GridPos| in_grid(p, w, h) ==> #[trigger] grid_cells(w, h).contains(p),
            visited@.subset_of(bound),
            search_inv(
                m,
                start,
                w,
                h,
                visited@,
                queue@,
                level,
                best_distance as int,
                best_cell,
                current,
                4,
            ),
        decreases 2 * (bound.len() - visited@.len()) + queue@.len(),
    {
        proof {
            lemma_len_subset(visited@, bound);
            lemma_search_pop(
                m,
                start,
                w,
                h,
                visited@,
                queue@,
                level,
                best_distance as int,
                best_cell,
                current,
            );
        }
        let ghost measure = 2 * (bound.len() - visited@.len()) + queue@.len();
        let ghost queue_before = queue@;
        let (cell, dist) = queue.pop_front().unwrap();
        proof {
            assert(queue@ =~= queue_before.drop_first());
        }
        let ghost target = search_expand(walls@, w, h, visited@, queue@, cell, dist, 0);
        let ghost balance = queue@.len() - visited@.len();
        proof {
            assert(result == search_result(walls@, w, h, target.0, target.1, if dist > best_distance {
                cell
            } else {
                best_cell
            }, if dist > best_distance {
                dist
            } else {
                best_distance
            }, (fuel - 1) as nat));
            fuel = (fuel - 1) as nat;
        }
        if dist > best_distance {
            best_distance = dist;
            best_cell = cell;
        }
        proof {
            level = dist as int;
            current = cell;
        }
        let mut k: usize = 0;
        while k < 4
            invariant
                0 <= k <= 4,
                0 <= width,
                0 <= height,
                reachable_cells(m, start).finite(),
                reachable_cells(m, start).len() <= i32::MAX + 1,
                w == width as int,
                h == height as int,
                m == maze_moves(walls@, w, h),
                actions@ == crate::rl::environments::discrete_2d::all_actions_seq(),
                bound == grid_cells(w, h).insert(start),
                bound.finite(),
                bound.len() <= w * h + 1,
                forall|p: GridPos| in_grid(p, w, h) ==> #[trigger] grid_cells(w, h).contains(p),
                visited@.subset_of(bound),
                current == cell,
                level == dist as int,
                visited@.contains(cell),
                cell == start || in_grid(cell, w, h),
                can_shift_all(start),
                !in_queue(queue@, cell),
                exact_distance(m, start, cell, level),
                0 <= level < visited@.len(),
                visited@.finite(),
                2 * (bound.len() - visited@.len()) + queue@.len() < measure,
                search_expand(walls@, w, h, visited@, queue@, cell, dist, k as int) == target,
                result == search_result(walls@, w, h, target.0, target.1, best_cell, best_distance, fuel),
                queue@.len() - visited@.len() == balance,
                queue@.len() + (bound.len() - visited@.len()) <= fuel,
                search_inv(
                    m,
                    start,
                    w,
                    h,
                    visited@,
                    queue@,
                    level,
                    best_distance as int,
                    best_cell,
                    current,
                    k as int,
                ),
            decreases 4 - k,
        {
            let action = actions[k];
            let ghost before_visited = visited@;
            let ghost before_queue = queue@;
            if walls.contains(cell, action) {
                proof {
                    lemma_search_skip(m, start, w, h, visited@, queue@, level, best_distance as int, best_cell, current, k as int);
                }
            } else {
                let next = shift(cell, action);
                if next.x < 0 || next.x >= width || next.y < 0 || next.y >= height {
                    proof {
                        lemma_search_skip(m, start, w, h, visited@, queue@, level, best_distance as int, best_cell, current, k as int);
                    }
                } else {
                    proof {
                        lemma_len_subset(visited@.insert(next), bound);
                        lemma_visited_reachable(m, start, w, h, visited@, queue@, level, best_distance as int, best_cell, current, k as int);
                        let a = crate::rl::environments::discrete_2d::all_actions_seq()[k as int];
                        assert(m(cell, a));
                        assert(reachable_within(m, start, next, (level + 1) as nat));
                        assert(reachable_cells(m, start).contains(next));
                        lemma_len_subset(visited@.insert(next), reachable_cells(m, start));
                    }
                    if visited.insert(next) {
                        proof {
                            lemma_search_push(
                                m,
                                start,
                                w,
                                h,
                                before_visited,
                                before_queue,
                                level,
                                best_distance as int,
                                best_cell,
                                current,
                                k as int,
                                next,
                            );
                            lemma_len_subset(before_visited, bound);
                        }
                        queue.push_back((next, dist + 1));
                        proof {
                            assert(!in_queue(before_queue, cell));
                            assert(in_queue(queue@, cell) ==> in_queue(before_queue, cell)) by {
                                if in_queue(queue@, cell) {
                                    let i = choose|i: int| 0 <= i < queue@.len() && (#[trigger] queue@[i]).0 == cell;
                                    if i < before_queue.len() {
                                        assert(before_queue[i] == queue@[i]);
                                    }
                                }
                            }
                        }
                    } else {
                        proof {
                            assert(visited@ =~= before_visited);
                            lemma_search_skip(m, start, w, h, visited@, queue@, level, best_distance as int, best_cell, current, k as int);
                        }
                    }
                }
            }
            k = k + 1;
        }
        proof {
            lemma_len_subset(visited@, bound);
        }
    }
    proof {
        lemma_search_done(m, start, w, h, visited@, queue@, level, best_distance as int, best_cell, current);
    }
    best_cell
}


/**************************************************************
                        Building an environment
**************************************************************/

proof fn lemma_reached_cell_on_grid(
    walls: Set<(GridPos, GridActions)>,
    w: int,
    h: int,
    s: GridPos,
    c: GridPos,
    n: nat,
)
    requires
        reachable_within(maze_moves(walls, w, h), s, c, n),
    ensures
        c == s || in_grid(c, w, h),
{
    if c != s {
        let (p, a) = choose|p: GridPos, a: GridActions|
            #[trigger] maze_moves(walls, w, h)(p, a) && shifted(p, a) == c && reachable_within(
                maze_moves(walls, w, h),
                s,
                p,
                (n - 1) as nat,
            );
    }
}

/// The structure every maze of difficulty `numerator / denominator` carved
/// from `start` has: walls only on grid cells, every move off the grid
/// walled, walls on both sides of a blocked move; when `start` lies on the
/// grid, at most `2 * extra_connections_of(..)` open moves beyond those of a
/// spanning tree, and exactly those of a spanning tree at difficulty 1 (or
/// above, which counts as 1).
pub open spec fn maze_structure(
    walls: Set<(GridPos, GridActions)>,
    width: int,
    height: int,
    start: GridPos,
    numerator: int,
    denominator: int,
) -> bool {
    &&& forall|p: GridPos, a: GridActions|
        #[trigger] walls.contains((p, a)) ==> in_grid(p, width, height)
    &&& forall|p: GridPos, a: GridActions|
        in_grid(p, width, height) && !in_grid(#[trigger] shifted(p, a), width, height)
            ==> walls.contains((p, a))
    &&& forall|p: GridPos, a: GridActions|
        in_grid(p, width, height) && in_grid(#[trigger] shifted(p, a), width, height) ==> (
        walls.contains((p, a)) <==> walls.contains((shifted(p, a), opposite_of(a))))
    &&& in_grid(start, width, height) ==> {
        &&& open_moves(walls, width, height).finite()
        &&& open_moves(walls, width, height).len() <= 2 * (width * height - 1) + 2
            * extra_connections_of(width, height, capped_numerator(numerator, denominator), denominator)
        &&& numerator >= denominator ==> open_moves(walls, width, height).len() == 2 * (width
            * height - 1)
    }
}

/// Builds the grid environment of a configuration. With a maze difficulty
/// (a probability `numerator / denominator`), the walls are a maze generated
/// at that difficulty (see [`generate_maze`] and [`maze_structure`]) and the
/// goal is the cell furthest from the start, so `goal` is not used; without
/// one, the grid has no walls and the goal is `goal`. The start and the goal
/// may lie off the grid.
pub fn generate_environment(
    width: usize,
    height: usize,
    start: GridPos,
    goal: GridPos,
    maze_difficulty: Option<(u32, u32)>,
    reward_type: GridRewardType,
) -> (env: SimpleGridEnvironment)
    requires
        width <= i32::MAX,
        height <= i32::MAX,
        width * height <= i32::MAX,
        maze_difficulty is Some ==> can_shift_all(start),
        maze_difficulty matches Some((n, d)) ==> 0 < d,
    ensures
        env.wf(),
        env.width == width,
        env.height == height,
        env.agent_pos == start,
        env.initial_agent_pos == start,
        env.reward_type == reward_type,
        env.trajectory@.len() == 0,
        maze_difficulty is None ==> env.goal_pos == goal && env.walls@ == Set::<
            (GridPos, GridActions),
        >::empty(),
        maze_difficulty matches Some((n, d)) ==> maze_structure(
            env.walls@,
            width as int,
            height as int,
            start,
            n as int,
            d as int,
        ),
        maze_difficulty is Some ==> env.goal_pos == furthest_in_search_order(
            start,
            width as int,
            height as int,
            env.walls@,
        ),
        maze_difficulty is Some ==> {
            &&& in_grid(start, width as int, height as int) ==> forall|c: GridPos|
                in_grid(c, width as int, height as int) ==> #[trigger] reachable(
                    maze_moves(env.walls@, width as int, height as int),
                    start,
                    c,
                )
            &&& exists|d: int|
                {
                    &&& exact_distance(
                        maze_moves(env.walls@, width as int, height as int),
                        start,
                        env.goal_pos,
                        d,
                    )
                    &&& forall|c: GridPos|
                        #[trigger] reachable(
                            maze_moves(env.walls@, width as int, height as int),
                            start,
                            c,
                        ) ==> reachable_within(
                            maze_moves(env.walls@, width as int, height as int),
                            start,
                            c,
                            d as nat,
                        )
                }
        },
{
    let w = width as i32;
    let h = height as i32;
    match maze_difficulty {
        Some((numerator, denominator)) => {
            let walls = generate_maze(w, h, numerator, denominator, start);
            proof {
                lemma_reachable_cells_finite(walls@, w as int, h as int, start);
                lemma_grid_cells(w as int, h as int);
                vstd::set_lib::lemma_len_subset(
                    reachable_cells(maze_moves(walls@, w as int, h as int), start),
                    grid_cells(w as int, h as int).insert(start),
                );
            }
            let furthest = find_furthest_cell(start, w, h, &walls);
            proof {
                assert(maze_structure(
                    walls@,
                    w as int,
                    h as int,
                    start,
                    numerator as int,
                    denominator as int,
                ));
            }
            SimpleGridEnvironment::new(width, height, start, furthest, walls, reward_type)
        },
        None => {
            let walls = EdgeSet::new();
            SimpleGridEnvironment::new(width, height, start, goal, walls, reward_type)
        },
    }
}

} // verus!
