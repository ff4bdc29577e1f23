//! The discrete 2D grid environment: an agent moves cell by cell towards a
//! goal, walls between cells block some moves.
use std::collections::HashSet;
use vstd::prelude::*;
use vstd::arithmetic::div_mod::lemma_fundamental_div_mod_converse;
use crate::rl::Action;
use crate::rl::State;

verus! {

broadcast use vstd::std_specs::hash::group_hash_axioms;

/**************************************************************
                        Positions and actions
**************************************************************/

/// A cell of the grid, or a difference between two cells.
/// `x` grows to the right and `y` grows upwards.
#[derive(Clone, Copy, Debug, PartialEq, Eq, Structural, Hash, Default)]
pub struct GridPos {
    pub x: i32,
    pub y: i32,
}

impl GridPos {
    pub fn new(x: i32, y: i32) -> (r: GridPos)
        ensures
            r.x == x,
            r.y == y,
    {
        GridPos { x, y }
    }
}

/// The four moves an agent can make.
#[derive(Clone, Copy, Debug, PartialEq, Eq, Structural, Hash, Default)]
pub enum GridActions {
    #[default]
    Up,
    Right,
    Down,
    Left,
}

/// Horizontal displacement of an action.
pub open spec fn action_dx(a: GridActions) -> int {
    match a {
        GridActions::Up => 0,
        GridActions::Right => 1,
        GridActions::Down => 0,
        GridActions::Left => -1,
    }
}

/// Vertical displacement of an action.
pub open spec fn action_dy(a: GridActions) -> int {
    match a {
        GridActions::Up => 1,
        GridActions::Right => 0,
        GridActions::Down => -1,
        GridActions::Left => 0,
    }
}

/// The number that stands for an action (its position in `Up, Right, Down, Left`).
pub open spec fn action_index(a: GridActions) -> int {
    match a {
        GridActions::Up => 0,
        GridActions::Right => 1,
        GridActions::Down => 2,
        GridActions::Left => 3,
    }
}

/// The action that undoes `a`.
pub open spec fn opposite_of(a: GridActions) -> GridActions {
    match a {
        GridActions::Up => GridActions::Down,
        GridActions::Right => GridActions::Left,
        GridActions::Down => GridActions::Up,
        GridActions::Left => GridActions::Right,
    }
}

/// The four actions in their canonical order.
pub open spec fn all_actions_seq() -> Seq<GridActions> {
    seq![GridActions::Up, GridActions::Right, GridActions::Down, GridActions::Left]
}

/// `p` lies on the `width` x `height` grid.
pub open spec fn in_grid(p: GridPos, width: int, height: int) -> bool {
    0 <= p.x < width && 0 <= p.y < height
}

/// Moving `p` by `a` stays within the range of `i32`.
pub open spec fn can_shift(p: GridPos, a: GridActions) -> bool {
    i32::MIN <= p.x + action_dx(a) <= i32::MAX && i32::MIN <= p.y + action_dy(a) <= i32::MAX
}

/// The cell reached from `p` by the move `a`.
pub open spec fn shifted(p: GridPos, a: GridActions) -> GridPos {
    GridPos { x: (p.x + action_dx(a)) as i32, y: (p.y + action_dy(a)) as i32 }
}

impl GridActions {
    /// The displacement of this action.
    pub fn to_vec(&self) -> (v: GridPos)
        ensures
            v.x == action_dx(*self),
            v.y == action_dy(*self),
    {
        match self {
            GridActions::Up => GridPos { x: 0, y: 1 },
            GridActions::Right => GridPos { x: 1, y: 0 },
            GridActions::Down => GridPos { x: 0, y: -1 },
            GridActions::Left => GridPos { x: -1, y: 0 },
        }
    }

    /// The action that undoes this one.
    pub fn opposite(&self) -> (o: GridActions)
        ensures
            o == opposite_of(*self),
    {
        match self {
            GridActions::Up => GridActions::Down,
            GridActions::Right => GridActions::Left,
            GridActions::Down => GridActions::Up,
            GridActions::Left => GridActions::Right,
        }
    }

    /// The number that stands for this action, used when it is fed to a network.
    pub fn to_index(&self) -> (i: u8)
        ensures
            i == action_index(*self),
    {
        match self {
            GridActions::Up => 0,
            GridActions::Right => 1,
            GridActions::Down => 2,
            GridActions::Left => 3,
        }
    }

    /// All the actions, in the order `Up, Right, Down, Left`.
    pub fn get_all_actions() -> (v: Vec<GridActions>)
        ensures
            v@ == all_actions_seq(),
    {
        vec![GridActions::Up, GridActions::Right, GridActions::Down, GridActions::Left]
    }
}

impl Action for GridActions {
    /// All the actions, in the order `Up, Right, Down, Left`.
    fn get_all_actions() -> (v: Vec<GridActions>)
        ensures
            v@ == all_actions_seq(),
    {
        vec![GridActions::Up, GridActions::Right, GridActions::Down, GridActions::Left]
    }
}

impl GridActions {
    /// The number of values an action is fed to a network as.
    pub fn len(&self) -> (n: usize)
        ensures
            n == 1,
    {
        1
    }
}

/// The cell reached from `p` by the move `a`.
pub fn shift(p: GridPos, a: GridActions) -> (r: GridPos)
    requires
        can_shift(p, a),
    ensures
        r == shifted(p, a),
        r.x == p.x + action_dx(a),
        r.y == p.y + action_dy(a),
{
    let d = a.to_vec();
    GridPos { x: p.x + d.x, y: p.y + d.y }
}

/// Undoing a move is an involution.
pub proof fn lemma_opposite_involution(a: GridActions)
    ensures
        opposite_of(opposite_of(a)) == a,
        action_dx(opposite_of(a)) == -action_dx(a),
        action_dy(opposite_of(a)) == -action_dy(a),
        opposite_of(a) != a,
{
}

/// Moving by `a` and then by its opposite comes back to the start.
pub proof fn lemma_shift_back(p: GridPos, a: GridActions)
    requires
        can_shift(p, a),
    ensures
        can_shift(shifted(p, a), opposite_of(a)),
        shifted(shifted(p, a), opposite_of(a)) == p,
{
}

/**************************************************************
                        Sets of moves
**************************************************************/

/// The number under which a move `(p, a)` is kept in a hash set.
pub open spec fn edge_key(p: GridPos, a: GridActions) -> int {
    ((p.x + 2147483648) * 4294967296 + (p.y + 2147483648)) * 4 + action_index(a)
}

proof fn lemma_edge_key(p: GridPos, a: GridActions, q: GridPos, b: GridActions)
    ensures
        0 <= edge_key(p, a) <= u128::MAX,
        edge_key(p, a) == edge_key(q, b) ==> p == q && a == b,
{
}

fn edge_key_of(p: GridPos, a: GridActions) -> (k: u128)
    ensures
        k == edge_key(p, a),
{
    proof {
        lemma_edge_key(p, a, p, a);
    }
    let kx = (p.x as i64 + 2147483648i64) as u128;
    let ky = (p.y as i64 + 2147483648i64) as u128;
    (kx * 4294967296u128 + ky) * 4u128 + a.to_index() as u128
}

/// A set of moves `(cell, action)`: the walls of a grid (the moves that are
/// blocked) or the passages of a maze (the moves that are open).
pub struct EdgeSet {
    keys: HashSet<u128>,
    edges: Vec<(GridPos, GridActions)>,
}

impl View for EdgeSet {
    type V = Set<(GridPos, GridActions)>;

    closed spec fn view(&self) -> Set<(GridPos, GridActions)> {
        self.edges@.to_set()
    }
}

impl EdgeSet {
    #[verifier::type_invariant]
    spec fn inv(self) -> bool {
        &&& forall|e: (GridPos, GridActions)|
            #![trigger self.edges@.contains(e)]
            self.keys@.contains(edge_key(e.0, e.1) as u128) <==> self.edges@.contains(e)
        &&& self.edges@.no_duplicates()
    }

    /// An empty set.
    pub fn new() -> (s: EdgeSet)
        ensures
            s@ == Set::<(GridPos, GridActions)>::empty(),
    {
        let s = EdgeSet { keys: HashSet::new(), edges: Vec::new() };
        assert(s@ =~= Set::<(GridPos, GridActions)>::empty());
        s
    }

    /// Whether the move `(p, a)` is in the set.
    pub fn contains(&self, p: GridPos, a: GridActions) -> (r: bool)
        ensures
            r == self@.contains((p, a)),
    {
        proof {
            use_type_invariant(self);
        }
        let k = edge_key_of(p, a);
        let r = self.keys.contains(&k);
        assert(self.edges@.contains((p, a)) == self.keys@.contains(k));
        r
    }

    /// Adds the move `(p, a)`; returns whether it was new.
    pub fn insert(&mut self, p: GridPos, a: GridActions) -> (r: bool)
        ensures
            final(self)@ == old(self)@.insert((p, a)),
            r == !old(self)@.contains((p, a)),
    {
        proof {
            use_type_invariant(&*self);
        }
        let k = edge_key_of(p, a);
        let ghost old_edges = self.edges@;
        let ghost old_keys = self.keys@;
        assert(old_edges.contains((p, a)) == old_keys.contains(k));
        let mut taken = EdgeSet::new();
        std::mem::swap(self, &mut taken);
        let EdgeSet { mut keys, mut edges } = taken;
        let fresh = keys.insert(k);
        if fresh {
            edges.push((p, a));
        }
        proof {
            assert forall|e: (GridPos, GridActions)|
                #![trigger edges@.contains(e)]
                keys@.contains(edge_key(e.0, e.1) as u128) <==> edges@.contains(e) by {
                lemma_edge_key(e.0, e.1, p, a);
                if fresh {
                    assert(edges@ == old_edges.push((p, a)));
                    if old_edges.contains(e) {
                        let i = choose|i: int| 0 <= i < old_edges.len() && old_edges[i] == e;
                        assert(edges@[i] == e);
                    }
                    if e == (p, a) {
                        assert(edges@[old_edges.len() as int] == e);
                    }
                    if edges@.contains(e) {
                        let i = choose|i: int| 0 <= i < edges@.len() && edges@[i] == e;
                        if i < old_edges.len() {
                            assert(old_edges[i] == e);
                        }
                    }
                    assert(edges@.contains(e) <==> (old_edges.contains(e) || e == (p, a)));
                }
            }
            if fresh {
                assert forall|i: int, j: int|
                    0 <= i < j < edges@.len() implies edges@[i] != edges@[j] by {
                    if j == old_edges.len() {
                        assert(old_edges.contains(old_edges[i]));
                    }
                }
            }
            assert(edges@.to_set() =~= old_edges.to_set().insert((p, a)));
        }
        *self = EdgeSet { keys, edges };
        fresh
    }

    /// The number of moves in the set.
    pub fn len(&self) -> (n: usize)
        ensures
            n == self@.len(),
            self@.finite(),
    {
        proof {
            use_type_invariant(self);
            self.edges@.unique_seq_to_set();
        }
        self.edges.len()
    }

    /// The moves of the set, each once, in no particular order.
    pub fn to_vec(&self) -> (v: Vec<(GridPos, GridActions)>)
        ensures
            v@.to_set() == self@,
            v@.no_duplicates(),
    {
        proof {
            use_type_invariant(self);
        }
        let mut v: Vec<(GridPos, GridActions)> = Vec::new();
        let n = self.edges.len();
        for i in 0..n
            invariant
                n == self.edges@.len(),
                v@ == self.edges@.subrange(0, i as int),
        {
            v.push(self.edges[i]);
            assert(v@ =~= self.edges@.subrange(0, i + 1));
        }
        assert(v@ =~= self.edges@);
        v
    }
}


/**************************************************************
                        Environment
**************************************************************/

/// How the reward of each step is computed.
#[derive(Clone, Copy, Debug, PartialEq, Eq, Structural, Default)]
pub enum GridRewardType {
    /// Every step costs the same.
    #[default]
    Flat,
    /// A step costs the distance to the goal of the cell it reaches.
    Gradient,
}

/// What the agent observes: where the goal lies relative to it.
#[derive(Clone, Copy, Debug, PartialEq, Eq, Structural, Hash, Default)]
pub struct GridState {
    pub direction_to_goal: GridPos,
}

impl State for GridState {

}

/// What the agent observes standing on `p`: where the goal lies relative to it.
pub open spec fn observation_at(goal: GridPos, p: GridPos) -> GridState {
    GridState {
        direction_to_goal: GridPos { x: (goal.x - p.x) as i32, y: (goal.y - p.y) as i32 },
    }
}

impl GridState {
    /// The number of values a state is fed to a network as.
    pub fn len(&self) -> (n: usize)
        ensures
            n == 2,
    {
        2
    }
}

/// The grid environment: an agent, a goal, and walls that block some moves.
///
/// Rewards are computed in whole units; the reward the agent receives is
/// that number times `100 / reward_scale`, so that a whole episode is worth
/// about 100 (see [`SimpleGridEnvironment::step`]).
pub struct SimpleGridEnvironment {
    pub agent_pos: GridPos,
    pub goal_pos: GridPos,
    pub initial_agent_pos: GridPos,
    pub width: i32,
    pub height: i32,
    /// The divisor of the reward weight: the weight is `100 / reward_scale`.
    pub reward_scale: i128,
    pub walls: EdgeSet,
    /// The cells visited since the last reset (for plotting).
    pub trajectory: Vec<GridPos>,
    pub reward_type: GridRewardType,
}

/// `|v|`
pub open spec fn abs_int(v: int) -> int {
    if v < 0 {
        -v
    } else {
        v
    }
}

/// The number of moves between two cells on an empty grid.
pub open spec fn manhattan(a: GridPos, b: GridPos) -> int {
    abs_int(a.x - b.x) + abs_int(a.y - b.y)
}

/// The penalty of a cell under `Gradient`, skipping the start cell, where no step ends.
pub open spec fn gradient_term(x: int, y: int, initial: GridPos, goal: GridPos) -> int {
    if x == initial.x && y == initial.y {
        0
    } else {
        abs_int(x - goal.x) + abs_int(y - goal.y)
    }
}

/// Sum of `gradient_term(x, y)` for `y` in `0..n_y`.
pub open spec fn gradient_column(x: int, n_y: int, initial: GridPos, goal: GridPos) -> int
    decreases n_y,
{
    if n_y <= 0 {
        0
    } else {
        gradient_column(x, n_y - 1, initial, goal) + gradient_term(x, n_y - 1, initial, goal)
    }
}

/// Sum of `gradient_term(x, y)` for `x` in `0..n_x` and `y` in `0..height`.
pub open spec fn gradient_total(n_x: int, height: int, initial: GridPos, goal: GridPos) -> int
    decreases n_x,
{
    if n_x <= 0 {
        0
    } else {
        gradient_total(n_x - 1, height, initial, goal) + gradient_column(
            n_x - 1,
            height,
            initial,
            goal,
        )
    }
}

/// The divisor of the reward weight: under `Flat` the number of cells an
/// episode can step into, under `Gradient` the sum over those cells of their
/// distance to the goal.
pub open spec fn reward_scale_of(
    reward_type: GridRewardType,
    width: int,
    height: int,
    initial: GridPos,
    goal: GridPos,
) -> int {
    match reward_type {
        GridRewardType::Flat => width * height - 1,
        GridRewardType::Gradient => gradient_total(width, height, initial, goal),
    }
}

/// The move `(p, a)` is blocked: a wall stands on either side of it.
pub open spec fn collides(walls: Set<(GridPos, GridActions)>, p: GridPos, a: GridActions) -> bool {
    walls.contains((p, a)) || walls.contains((shifted(p, a), opposite_of(a)))
}

/// `v` brought into `lo..=hi`.
pub open spec fn clamp_int(v: int, lo: int, hi: int) -> int {
    if v < lo {
        lo
    } else if v > hi {
        hi
    } else {
        v
    }
}

/// The raw reward of a step that ends on `target`.
pub open spec fn step_reward(
    reward_type: GridRewardType,
    target: GridPos,
    goal: GridPos,
    initial: GridPos,
) -> int {
    if target == goal {
        let d = manhattan(goal, initial);
        match reward_type {
            GridRewardType::Flat => d - 1,
            GridRewardType::Gradient => d * (d - 1) / 2,
        }
    } else {
        match reward_type {
            GridRewardType::Flat => -1,
            GridRewardType::Gradient => -manhattan(target, goal),
        }
    }
}

proof fn lemma_column_bound(x: int, n_y: int, height: int, initial: GridPos, goal: GridPos)
    requires
        0 <= x <= i32::MAX,
        0 <= n_y <= height <= i32::MAX,
    ensures
        0 <= gradient_column(x, n_y, initial, goal) <= n_y * 0x2_0000_0000,
    decreases n_y,
{
    if n_y > 0 {
        lemma_column_bound(x, n_y - 1, height, initial, goal);
    }
}

proof fn lemma_total_bound(n_x: int, width: int, height: int, initial: GridPos, goal: GridPos)
    requires
        0 <= n_x <= width <= i32::MAX,
        0 <= height <= i32::MAX,
    ensures
        0 <= gradient_total(n_x, height, initial, goal) <= n_x * height * 0x2_0000_0000,
    decreases n_x,
{
    if n_x > 0 {
        lemma_total_bound(n_x - 1, width, height, initial, goal);
        lemma_column_bound(n_x - 1, height, height, initial, goal);
        assert(n_x * height * 0x2_0000_0000 == (n_x - 1) * height * 0x2_0000_0000 + height
            * 0x2_0000_0000) by (nonlinear_arith);
    }
}

impl SimpleGridEnvironment {
    /// The environment is well formed: a grid whose area fits an `i32`, the agent on the grid or still on its start (which, like the
    /// goal, may lie off the grid), and the reward scale computed from them.
    pub open spec fn wf(&self) -> bool {
        &&& 0 <= self.width
        &&& 0 <= self.height
        &&& self.width * self.height <= i32::MAX
        &&& in_grid(self.agent_pos, self.width as int, self.height as int)
            || self.agent_pos == self.initial_agent_pos
        &&& self.reward_scale == reward_scale_of(
            self.reward_type,
            self.width as int,
            self.height as int,
            self.initial_agent_pos,
            self.goal_pos,
        )
    }

    /// The cell the agent ends on when it tries the move `a` from `p`: it
    /// stays put when a wall blocks the move, and never leaves the grid.
    pub open spec fn target_from(&self, p: GridPos, a: GridActions) -> GridPos {
        if collides(self.walls@, p, a) {
            p
        } else {
            let t = shifted(p, a);
            GridPos {
                x: clamp_int(t.x as int, 0, self.width - 1) as i32,
                y: clamp_int(t.y as int, 0, self.height - 1) as i32,
            }
        }
    }

    /// The cell the agent ends on when it tries the move `a`.
    pub open spec fn target_of(&self, a: GridActions) -> GridPos {
        self.target_from(self.agent_pos, a)
    }

    /// A new environment with the agent at `agent`; no trajectory yet.
    pub fn new(
        width: usize,
        height: usize,
        agent: GridPos,
        goal: GridPos,
        walls: EdgeSet,
        reward_type: GridRewardType,
    ) -> (env: SimpleGridEnvironment)
        requires
            width <= i32::MAX,
            height <= i32::MAX,
            width * height <= i32::MAX,
        ensures
            env.wf(),
            env.agent_pos == agent,
            env.initial_agent_pos == agent,
            env.goal_pos == goal,
            env.width == width,
            env.height == height,
            env.walls@ == walls@,
            env.trajectory@.len() == 0,
            env.reward_type == reward_type,
    {
        let w = width as i32;
        let h = height as i32;
        let reward_scale = compute_reward_scale(reward_type, w, h, agent, goal);
        SimpleGridEnvironment {
            agent_pos: agent,
            goal_pos: goal,
            initial_agent_pos: agent,
            width: w,
            height: h,
            reward_scale,
            walls,
            trajectory: Vec::new(),
            reward_type,
        }
    }

    /// Whether a wall blocks the move `action` from `state`, on either side.
    pub fn collides_with_wall(&self, state: GridPos, action: GridActions) -> (r: bool)
        requires
            can_shift(state, action),
        ensures
            r == collides(self.walls@, state, action),
    {
        if self.walls.contains(state, action) {
            return true;
        }
        let next = shift(state, action);
        if self.walls.contains(next, action.opposite()) {
            return true;
        }
        false
    }

    /// Where the goal lies relative to the agent.
    pub fn get_state(&self) -> (s: GridState)
        requires
            self.wf(),
            abs_int(self.goal_pos.x - self.agent_pos.x) <= self.width,
            abs_int(self.goal_pos.y - self.agent_pos.y) <= self.height,
        ensures
            s == observation_at(self.goal_pos, self.agent_pos),
            s.direction_to_goal.x == self.goal_pos.x - self.agent_pos.x,
            s.direction_to_goal.y == self.goal_pos.y - self.agent_pos.y,
            abs_int(s.direction_to_goal.x as int) <= self.width,
            abs_int(s.direction_to_goal.y as int) <= self.height,
    {
        GridState {
            direction_to_goal: GridPos {
                x: self.goal_pos.x - self.agent_pos.x,
                y: self.goal_pos.y - self.agent_pos.y,
            },
        }
    }

    /// Puts the agent back on its start; the trajectory restarts there.
    pub fn reset(&mut self)
        requires
            old(self).wf(),
        ensures
            final(self).wf(),
            final(self).agent_pos == old(self).initial_agent_pos,
            final(self).trajectory@ == seq![old(self).initial_agent_pos],
            final(self).initial_agent_pos == old(self).initial_agent_pos,
            final(self).goal_pos == old(self).goal_pos,
            final(self).width == old(self).width,
            final(self).height == old(self).height,
            final(self).walls@ == old(self).walls@,
            final(self).reward_type == old(self).reward_type,
            final(self).reward_scale == old(self).reward_scale,
    {
        self.agent_pos = self.initial_agent_pos;
        self.trajectory.clear();
        self.trajectory.push(self.initial_agent_pos);
    }

    /// The cell the agent ends on when it tries the move `action`.
    fn target_cell(&self, action: GridActions) -> (t: GridPos)
        requires
            self.wf(),
            1 <= self.width,
            1 <= self.height,
            can_shift(self.agent_pos, action),
        ensures
            t == self.target_of(action),
            in_grid(t, self.width as int, self.height as int) || t == self.agent_pos,
    {
        let agent = self.agent_pos;
        if self.collides_with_wall(agent, action) {
            agent
        } else {
            let t = shift(agent, action);
            GridPos { x: clamp(t.x, 0, self.width - 1), y: clamp(t.y, 0, self.height - 1) }
        }
    }

    proof fn lemma_target_moves_at_most_one(&self, action: GridActions)
        requires
            self.wf(),
            in_grid(self.agent_pos, self.width as int, self.height as int),
        ensures
            manhattan(self.agent_pos, self.target_of(action)) <= 1,
    {
    }

    /// The raw reward of a step that ends on `target`.
    fn reward_for(&self, target: GridPos) -> (r: i128)
        requires
            self.wf(),
        ensures
            r == step_reward(self.reward_type, target, self.goal_pos, self.initial_agent_pos),
    {
        let goal = self.goal_pos;
        let initial = self.initial_agent_pos;
        if target.x == goal.x && target.y == goal.y {
            let d: i128 = abs_i128(goal.x as i128 - initial.x as i128) + abs_i128(
                goal.y as i128 - initial.y as i128,
            );
            match self.reward_type {
                GridRewardType::Flat => d - 1,
                GridRewardType::Gradient => {
                    assert(0 <= d * (d - 1) <= 0x10_0000_0000_0000_0000) by (nonlinear_arith)
                        requires
                            0 <= d <= 0x2_0000_0000,
                    ;
                    d * (d - 1) / 2
                },
            }
        } else {
            match self.reward_type {
                GridRewardType::Flat => -1,
                GridRewardType::Gradient => {
                    let m: i128 = abs_i128(target.x as i128 - goal.x as i128) + abs_i128(
                        target.y as i128 - goal.y as i128,
                    );
                    -m
                },
            }
        }
    }

    /// Tries to move the agent by `action`. A wall on either side of the move
    /// keeps it in place, and the grid's border stops it: the agent ends on
    /// the grid unless a wall keeps it on a start that lies off the grid.
    /// Returns the raw reward of the step (see [`step_reward`]) and whether
    /// the agent stands on the goal.
    pub fn step(&mut self, action: GridActions) -> (r: (i128, bool))
        requires
            old(self).wf(),
            1 <= old(self).width,
            1 <= old(self).height,
            can_shift(old(self).agent_pos, action),
        ensures
            final(self).wf(),
            final(self).agent_pos == old(self).target_of(action),
            old(self).walls@.contains((old(self).agent_pos, action)) ==> final(self).agent_pos == old(
                self,
            ).agent_pos,
            old(self).walls@.contains((shifted(old(self).agent_pos, action), opposite_of(action)))
                ==> final(self).agent_pos == old(self).agent_pos,
            in_grid(final(self).agent_pos, old(self).width as int, old(self).height as int)
                || final(self).agent_pos == old(self).agent_pos,
            in_grid(old(self).agent_pos, old(self).width as int, old(self).height as int)
                ==> manhattan(old(self).agent_pos, final(self).agent_pos) <= 1,
            final(self).trajectory@ == old(self).trajectory@.push(final(self).agent_pos),
            r.0 == step_reward(
                old(self).reward_type,
                final(self).agent_pos,
                old(self).goal_pos,
                old(self).initial_agent_pos,
            ),
            r.1 == (final(self).agent_pos == old(self).goal_pos),
            final(self).initial_agent_pos == old(self).initial_agent_pos,
            final(self).goal_pos == old(self).goal_pos,
            final(self).width == old(self).width,
            final(self).height == old(self).height,
            final(self).walls@ == old(self).walls@,
            final(self).reward_type == old(self).reward_type,
            final(self).reward_scale == old(self).reward_scale,
    {
        let target = self.target_cell(action);
        proof {
            lemma_walls_block_moves(*self, self.agent_pos, action);
            if in_grid(self.agent_pos, self.width as int, self.height as int) {
                self.lemma_target_moves_at_most_one(action);
            }
        }
        let reward = self.reward_for(target);
        let goal = self.goal_pos;
        self.trajectory.push(target);
        self.agent_pos = target;
        (reward, target.x == goal.x && target.y == goal.y)
    }

    /// Each move of `trajectory` up to `steps` is one that `policy` may
    /// choose from the cell it starts in: the cell it ends in is where that
    /// action leads.
    pub open spec fn follows<P: Fn(GridState) -> Option<GridActions>>(
        &self,
        trajectory: Seq<GridPos>,
        steps: int,
        policy: P,
    ) -> bool {
        forall|k: int| 0 <= k < steps ==> #[trigger] self.move_follows(trajectory, k, policy)
    }

    /// The move of `trajectory` from its `k`-th cell to the next is one that
    /// `policy` may choose there.
    pub open spec fn move_follows<P: Fn(GridState) -> Option<GridActions>>(
        &self,
        trajectory: Seq<GridPos>,
        k: int,
        policy: P,
    ) -> bool {
        exists|a: GridActions|
            #[trigger] policy.ensures((observation_at(self.goal_pos, trajectory[k]),), Some(a))
                && trajectory[k + 1] == self.target_from(trajectory[k], a)
    }

    /// Puts the agent back on its start and lets `policy` lead it: it moves
    /// at most `max_steps` times, and stops early once a move ends on the goal
    /// or the policy offers no action. Returns the number of moves.
    ///
    /// Whatever the policy chooses, the agent's view of the goal and its moves
    /// must stay within range: the goal lies on the grid or next to it, no
    /// further from the start than the grid is wide and high, and a move from
    /// the start does not leave the range of `i32`.
    pub fn follow_policy<P: Fn(GridState) -> Option<GridActions>>(
        &mut self,
        max_steps: usize,
        policy: P,
    ) -> (steps: usize)
        requires
            old(self).wf(),
            1 <= old(self).width,
            1 <= old(self).height,
            forall|s: GridState| policy.requires((s,)),
            -1 <= old(self).goal_pos.x <= old(self).width,
            -1 <= old(self).goal_pos.y <= old(self).height,
            abs_int(old(self).goal_pos.x - old(self).initial_agent_pos.x) <= old(self).width,
            abs_int(old(self).goal_pos.y - old(self).initial_agent_pos.y) <= old(self).height,
            forall|a: GridActions| can_shift(old(self).initial_agent_pos, a),
        ensures
            final(self).wf(),
            final(self).initial_agent_pos == old(self).initial_agent_pos,
            final(self).goal_pos == old(self).goal_pos,
            final(self).width == old(self).width,
            final(self).height == old(self).height,
            final(self).walls@ == old(self).walls@,
            final(self).reward_type == old(self).reward_type,
            final(self).reward_scale == old(self).reward_scale,
            steps <= max_steps,
            final(self).trajectory@.len() == steps + 1,
            final(self).trajectory@[0] == old(self).initial_agent_pos,
            final(self).agent_pos == final(self).trajectory@.last(),
            final(self).follows(final(self).trajectory@, steps as int, policy),
            forall|k: int| 1 <= k < steps ==> final(self).trajectory@[k] != old(self).goal_pos,
            steps < max_steps ==> (steps > 0 && final(self).agent_pos == old(self).goal_pos)
                || policy.ensures(
                (observation_at(old(self).goal_pos, final(self).agent_pos),),
                None,
            ),
    {
        self.reset();
        let mut steps: usize = 0;
        let mut done = false;
        while steps < max_steps && !done
            invariant
                self.wf(),
                self.initial_agent_pos == old(self).initial_agent_pos,
                self.goal_pos == old(self).goal_pos,
                self.width == old(self).width,
                self.height == old(self).height,
                self.walls@ == old(self).walls@,
                self.reward_type == old(self).reward_type,
                self.reward_scale == old(self).reward_scale,
                forall|s: GridState| policy.requires((s,)),
                1 <= self.width,
                1 <= self.height,
                -1 <= self.goal_pos.x <= self.width,
                -1 <= self.goal_pos.y <= self.height,
                abs_int(self.goal_pos.x - self.initial_agent_pos.x) <= self.width,
                abs_int(self.goal_pos.y - self.initial_agent_pos.y) <= self.height,
                forall|a: GridActions| can_shift(self.initial_agent_pos, a),
                steps <= max_steps,
                self.trajectory@.len() == steps + 1,
                self.trajectory@[0] == old(self).initial_agent_pos,
                self.agent_pos == self.trajectory@.last(),
                self.follows(self.trajectory@, steps as int, policy),
                forall|k: int| 1 <= k < steps ==> self.trajectory@[k] != self.goal_pos,
                !done && steps > 0 ==> self.agent_pos != self.goal_pos,
                done ==> (steps > 0 && self.agent_pos == self.goal_pos) || policy.ensures(
                    (observation_at(self.goal_pos, self.agent_pos),),
                    None,
                ),
            decreases max_steps - steps + (if done { 0int } else { 1int }),
        {
            let state = self.get_state();
            match policy(state) {
                Some(action) => {
                    let ghost before = self.trajectory@;
                    let ghost from = self.agent_pos;
                    let ghost old_env = *self;
                    let (_, terminated) = self.step(action);
                    steps = steps + 1;
                    done = terminated;
                    proof {
                        assert(self.trajectory@[steps - 1] == from);
                        assert forall|k: int| 0 <= k < steps implies #[trigger] self.move_follows(
                            self.trajectory@,
                            k,
                            policy,
                        ) by {
                            if k < steps - 1 {
                                assert(self.trajectory@[k] == before[k]);
                                assert(self.trajectory@[k + 1] == before[k + 1]);
                                assert(old_env.move_follows(before, k, policy));
                            } else {
                                assert(policy.ensures(
                                    (observation_at(self.goal_pos, self.trajectory@[k]),),
                                    Some(action),
                                ));
                            }
                        }
                        assert forall|k: int| 1 <= k < steps implies self.trajectory@[k]
                            != self.goal_pos by {
                            assert(self.trajectory@[k] == before[k]);
                        }
                    }
                },
                None => {
                    done = true;
                },
            }
        }
        steps
    }
}

/// `|v|`
fn abs_i128(v: i128) -> (r: i128)
    requires
        v > i128::MIN,
    ensures
        r == abs_int(v as int),
{
    if v < 0 {
        -v
    } else {
        v
    }
}

/// `v` brought into `lo..=hi`, as `Ord::clamp` does.
pub fn clamp(v: i32, lo: i32, hi: i32) -> (r: i32)
    requires
        lo <= hi,
    ensures
        r == clamp_int(v as int, lo as int, hi as int),
{
    if v < lo {
        lo
    } else if v > hi {
        hi
    } else {
        v
    }
}

/// The divisor of the reward weight of an environment (see [`reward_scale_of`]).
fn compute_reward_scale(
    reward_type: GridRewardType,
    width: i32,
    height: i32,
    initial: GridPos,
    goal: GridPos,
) -> (s: i128)
    requires
        0 <= width,
        0 <= height,
        width * height <= i32::MAX,
    ensures
        s == reward_scale_of(reward_type, width as int, height as int, initial, goal),
{
    match reward_type {
        GridRewardType::Flat => {
            assert(0 <= width * height) by (nonlinear_arith)
                requires
                    0 <= width,
                    0 <= height,
            ;
            width as i128 * height as i128 - 1
        },
        GridRewardType::Gradient => {
            let mut total: i128 = 0;
            let mut x: i32 = 0;
            while x < width
                invariant
                    0 <= x <= width,
                    0 <= height,
                    width * height <= i32::MAX,
                    total == gradient_total(x as int, height as int, initial, goal),
                decreases width - x,
            {
                proof {
                    lemma_total_bound(x + 1, width as int, height as int, initial, goal);
                    assert((x + 1) * height * 0x2_0000_0000 <= 0x7fff_ffff * 0x2_0000_0000)
                        by (nonlinear_arith)
                        requires
                            x + 1 <= width,
                            0 <= height,
                            width * height <= 0x7fff_ffff,
                    ;
                }
                let mut column: i128 = 0;
                let mut y: i32 = 0;
                while y < height
                    invariant
                        0 <= x < width,
                        0 <= y <= height,
                        column == gradient_column(x as int, y as int, initial, goal),
                        total == gradient_total(x as int, height as int, initial, goal),
                        total + gradient_column(x as int, height as int, initial, goal)
                            <= 0x7fff_ffff * 0x2_0000_0000,
                    decreases height - y,
                {
                    proof {
                        lemma_column_bound(x as int, y + 1, height as int, initial, goal);
                        lemma_column_monotone(x as int, y + 1, height as int, initial, goal);
                    }
                    if !(x == initial.x && y == initial.y) {
                        let dx: i64 = if x as i64 >= goal.x as i64 {
                            x as i64 - goal.x as i64
                        } else {
                            goal.x as i64 - x as i64
                        };
                        let dy: i64 = if y as i64 >= goal.y as i64 {
                            y as i64 - goal.y as i64
                        } else {
                            goal.y as i64 - y as i64
                        };
                        column = column + dx as i128 + dy as i128;
                    }
                    y = y + 1;
                }
                total = total + column;
                x = x + 1;
            }
            total
        },
    }
}

proof fn lemma_column_monotone(x: int, n_y: int, height: int, initial: GridPos, goal: GridPos)
    requires
        0 <= n_y <= height,
    ensures
        gradient_column(x, n_y, initial, goal) <= gradient_column(x, height, initial, goal),
    decreases height - n_y,
{
    if n_y < height {
        lemma_column_monotone(x, n_y + 1, height, initial, goal);
    }
}

/// A blocked move is blocked from both sides: `(p, a)` collides exactly when
/// the reverse move from the neighbouring cell does.
pub proof fn lemma_collision_symmetric(walls: Set<(GridPos, GridActions)>, p: GridPos, a: GridActions)
    requires
        can_shift(p, a),
    ensures
        can_shift(shifted(p, a), opposite_of(a)),
        collides(walls, p, a) == collides(walls, shifted(p, a), opposite_of(a)),
{
    lemma_shift_back(p, a);
    lemma_opposite_involution(a);
}

/// Every step that does not end on the goal is penalised, whatever the
/// reward type: the agent is pushed towards short routes.
pub proof fn lemma_step_penalty(
    reward_type: GridRewardType,
    target: GridPos,
    goal: GridPos,
    initial: GridPos,
)
    requires
        target != goal,
    ensures
        step_reward(reward_type, target, goal, initial) < 0,
{
}

/// The sum of the raw rewards of the steps that end on the cells of `route`.
pub open spec fn route_reward(
    reward_type: GridRewardType,
    route: Seq<GridPos>,
    goal: GridPos,
    initial: GridPos,
) -> int
    decreases route.len(),
{
    if route.len() == 0 {
        0
    } else {
        route_reward(reward_type, route.drop_last(), goal, initial) + step_reward(
            reward_type,
            route.last(),
            goal,
            initial,
        )
    }
}

/// `route` is the cells a shortest walk from a cell `d` moves away from the
/// goal steps on: each step brings it one move closer, the last ends on the
/// goal.
pub open spec fn is_shortest_route(route: Seq<GridPos>, goal: GridPos, d: int) -> bool {
    &&& route.len() == d
    &&& forall|k: int| 0 <= k < d ==> manhattan(#[trigger] route[k], goal) == d - 1 - k
}

proof fn lemma_route_prefix(
    reward_type: GridRewardType,
    route: Seq<GridPos>,
    goal: GridPos,
    initial: GridPos,
    d: int,
    j: int,
)
    requires
        is_shortest_route(route, goal, d),
        0 <= j < d,
    ensures
        2 * route_reward(reward_type, route.subrange(0, j), goal, initial) == match reward_type {
            GridRewardType::Flat => -2 * j,
            GridRewardType::Gradient => -(2 * j * (d - 1) - j * (j - 1)),
        },
    decreases j,
{
    if j > 0 {
        let prefix = route.subrange(0, j);
        assert(prefix.drop_last() == route.subrange(0, j - 1));
        lemma_route_prefix(reward_type, route, goal, initial, d, j - 1);
        assert(prefix.last() == route[j - 1]);
        assert(manhattan(route[j - 1], goal) == d - j);
        assert(manhattan(goal, goal) == 0);
        assert(2 * j * (d - 1) - j * (j - 1) == 2 * (j - 1) * (d - 1) - (j - 1) * (j - 2) + 2 * (d
            - j)) by (nonlinear_arith);
    } else {
        assert(route.subrange(0, j).len() == 0);
        assert(2 * j * (d - 1) - j * (j - 1) == 0) by (nonlinear_arith)
            requires
                j == 0,
        ;
    }
}

/// A shortest route to the goal scores zero under either reward type: the
/// reward for reaching the goal pays back exactly the penalties of the steps
/// on the way. Longer routes score less (see [`lemma_step_penalty`]).
pub proof fn lemma_shortest_route_scores_zero(
    reward_type: GridRewardType,
    route: Seq<GridPos>,
    goal: GridPos,
    initial: GridPos,
)
    requires
        manhattan(initial, goal) >= 1,
        is_shortest_route(route, goal, manhattan(initial, goal)),
    ensures
        route_reward(reward_type, route, goal, initial) == 0,
{
    let d = manhattan(initial, goal);
    lemma_route_prefix(reward_type, route, goal, initial, d, d - 1);
    assert(route.drop_last() == route.subrange(0, d - 1));
    assert(manhattan(route.last(), goal) == 0);
    assert(route.last() == goal);
    assert(manhattan(goal, initial) == d);
    match reward_type {
        GridRewardType::Flat => {},
        GridRewardType::Gradient => {
            let s = route_reward(reward_type, route.drop_last(), goal, initial);
            assert(2 * s == -(2 * (d - 1) * (d - 1) - (d - 1) * (d - 2)));
            assert(2 * (d - 1) * (d - 1) - (d - 1) * (d - 2) == d * (d - 1)) by (nonlinear_arith);
            let q = d / 2;
            vstd::arithmetic::div_mod::lemma_fundamental_div_mod(d, 2);
            let m = if d % 2 == 0 {
                q * (d - 1)
            } else {
                q * d
            };
            assert(d * (d - 1) == 2 * m) by (nonlinear_arith)
                requires
                    d == 2 * q + d % 2,
                    0 <= d % 2 < 2,
                    m == if d % 2 == 0 {
                        q * (d - 1)
                    } else {
                        q * d
                    },
            ;
            lemma_fundamental_div_mod_converse(d * (d - 1), 2, m, 0);
        },
    }
}

/// What a move does on the grid: a wall on the agent's side of the move or
/// on the far side keeps the agent where it is; without either, a move to a
/// cell of the grid gets there, and a move off the grid from a cell of the
/// grid keeps the agent where it is.
pub proof fn lemma_walls_block_moves(env: SimpleGridEnvironment, p: GridPos, a: GridActions)
    requires
        can_shift(p, a),
    ensures
        env.walls@.contains((p, a)) ==> env.target_from(p, a) == p,
        env.walls@.contains((shifted(p, a), opposite_of(a))) ==> env.target_from(p, a) == p,
        !env.walls@.contains((p, a)) && !env.walls@.contains((shifted(p, a), opposite_of(a)))
            && in_grid(shifted(p, a), env.width as int, env.height as int) ==> env.target_from(p, a)
            == shifted(p, a),
        !env.walls@.contains((p, a)) && !env.walls@.contains((shifted(p, a), opposite_of(a)))
            && in_grid(p, env.width as int, env.height as int) && !in_grid(
            shifted(p, a),
            env.width as int,
            env.height as int,
        ) ==> env.target_from(p, a) == p,
{
}

/// The sum, over the cells `(x, y)` with `y` in `0..n_y`, of their number of
/// moves to `goal` on an empty grid.
pub open spec fn distance_column(x: int, n_y: int, goal: GridPos) -> int
    decreases n_y,
{
    if n_y <= 0 {
        0
    } else {
        distance_column(x, n_y - 1, goal) + abs_int(x - goal.x) + abs_int((n_y - 1) - goal.y)
    }
}

/// The sum, over all the cells of the first `n_x` columns of a grid of
/// height `height`, of their number of moves to `goal` on an empty grid.
pub open spec fn distance_total(n_x: int, height: int, goal: GridPos) -> int
    decreases n_x,
{
    if n_x <= 0 {
        0
    } else {
        distance_total(n_x - 1, height, goal) + distance_column(n_x - 1, height, goal)
    }
}

proof fn lemma_gradient_column_skips_start(x: int, n_y: int, initial: GridPos, goal: GridPos)
    requires
        0 <= n_y,
    ensures
        gradient_column(x, n_y, initial, goal) == distance_column(x, n_y, goal) - if x == initial.x
            && 0 <= initial.y < n_y {
            manhattan(initial, goal)
        } else {
            0
        },
    decreases n_y,
{
    if n_y > 0 {
        lemma_gradient_column_skips_start(x, n_y - 1, initial, goal);
    }
}

proof fn lemma_gradient_total_skips_start(n_x: int, height: int, initial: GridPos, goal: GridPos)
    requires
        0 <= n_x,
        0 <= height,
    ensures
        gradient_total(n_x, height, initial, goal) == distance_total(n_x, height, goal) - if 0
            <= initial.x < n_x && 0 <= initial.y < height {
            manhattan(initial, goal)
        } else {
            0
        },
    decreases n_x,
{
    if n_x > 0 {
        lemma_gradient_total_skips_start(n_x - 1, height, initial, goal);
        lemma_gradient_column_skips_start(n_x - 1, height, initial, goal);
    }
}

/// Under `Gradient`, the reward scale is the sum over all the cells of the
/// grid of their distance to the goal, less that of the start, where no
/// step ends (nothing is taken off when the start lies off the grid).
pub proof fn lemma_gradient_scale_skips_only_the_start(
    width: int,
    height: int,
    initial: GridPos,
    goal: GridPos,
)
    requires
        0 <= width,
        0 <= height,
    ensures
        reward_scale_of(GridRewardType::Gradient, width, height, initial, goal) == distance_total(
            width,
            height,
            goal,
        ) - if in_grid(initial, width, height) {
            manhattan(initial, goal)
        } else {
            0
        },
{
    lemma_gradient_total_skips_start(width, height, initial, goal);
}

} // verus!
