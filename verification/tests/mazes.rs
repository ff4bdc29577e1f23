use std::collections::HashSet;
use std::collections::VecDeque;

use rl2d::rl::environments::discrete_2d::EdgeSet;
use rl2d::rl::environments::discrete_2d::GridActions;
use rl2d::rl::environments::discrete_2d::GridPos;
use rl2d::rl::environments::discrete_2d::GridRewardType;
use rl2d::rl::environments::maze::choose_neighbor;
use rl2d::rl::environments::maze::find_furthest_cell;
use rl2d::rl::environments::maze::generate_environment;
use rl2d::rl::environments::maze::generate_maze;

fn moved(p: GridPos, a: GridActions) -> GridPos {
    let d = a.to_vec();
    GridPos::new(p.x + d.x, p.y + d.y)
}

fn on_grid(p: GridPos, w: i32, h: i32) -> bool {
    p.x >= 0 && p.x < w && p.y >= 0 && p.y < h
}

/// Cells reached from `start` through moves not walled on their starting side.
fn reached(walls: &EdgeSet, w: i32, h: i32, start: GridPos) -> HashSet<GridPos> {
    let mut seen = HashSet::new();
    let mut frontier = VecDeque::new();
    seen.insert(start);
    frontier.push_back(start);
    while let Some(c) = frontier.pop_front() {
        for a in GridActions::get_all_actions() {
            let n = moved(c, a);
            if !walls.contains(c, a) && on_grid(n, w, h) && seen.insert(n) {
                frontier.push_back(n);
            }
        }
    }
    seen
}

fn check_maze(walls: &EdgeSet, w: i32, h: i32, start: GridPos) {
    for (p, _) in walls.to_vec() {
        assert!(on_grid(p, w, h));
    }
    for x in 0..w {
        for y in 0..h {
            let p = GridPos::new(x, y);
            for a in GridActions::get_all_actions() {
                let n = moved(p, a);
                if on_grid(n, w, h) {
                    assert_eq!(walls.contains(p, a), walls.contains(n, a.opposite()));
                } else {
                    assert!(walls.contains(p, a));
                }
            }
        }
    }
    assert_eq!(reached(walls, w, h, start).len(), (w * h) as usize);
}

fn open_moves(walls: &EdgeSet, w: i32, h: i32) -> usize {
    let mut n = 0;
    for x in 0..w {
        for y in 0..h {
            for a in GridActions::get_all_actions() {
                if !walls.contains(GridPos::new(x, y), a) {
                    n += 1;
                }
            }
        }
    }
    n
}

#[test]
fn maze_is_closed_symmetric_and_connected() {
    for _ in 0..5 {
        let walls = generate_maze(7, 5, 1, 2, GridPos::new(3, 2));
        check_maze(&walls, 7, 5, GridPos::new(3, 2));
    }
}

#[test]
fn hardest_maze_is_a_spanning_tree() {
    for _ in 0..5 {
        let walls = generate_maze(6, 6, 1, 1, GridPos::new(0, 0));
        check_maze(&walls, 6, 6, GridPos::new(0, 0));
        // every open passage is counted from both of its cells
        assert_eq!(open_moves(&walls, 6, 6), 2 * (36 - 1));
    }
}

#[test]
fn easiest_maze_can_have_loops_but_stays_valid() {
    for _ in 0..5 {
        let walls = generate_maze(10, 10, 0, 1, GridPos::new(9, 9));
        check_maze(&walls, 10, 10, GridPos::new(9, 9));
        assert!(open_moves(&walls, 10, 10) >= 2 * (100 - 1));
    }
}

#[test]
fn single_cell_maze_is_walled_in() {
    let walls = generate_maze(1, 1, 1, 3, GridPos::new(0, 0));
    assert_eq!(walls.len(), 4);
}

#[test]
fn empty_grid_has_no_walls() {
    let walls = generate_maze(0, 4, 1, 3, GridPos::new(0, 0));
    assert_eq!(walls.len(), 0);
}

#[test]
fn furthest_cell_on_open_grid_is_the_opposite_corner() {
    let walls = EdgeSet::new();
    assert_eq!(find_furthest_cell(GridPos::new(0, 0), 3, 3, &walls), GridPos::new(2, 2));
    assert_eq!(find_furthest_cell(GridPos::new(2, 0), 3, 3, &walls), GridPos::new(0, 2));
}

#[test]
fn furthest_cell_follows_the_corridor() {
    // A 3 x 2 grid with a wall in the middle of the bottom row side:
    // from (0, 0) the only way to (1, 0) is around through the top row.
    let mut walls = EdgeSet::new();
    walls.insert(GridPos::new(0, 0), GridActions::Right);
    walls.insert(GridPos::new(1, 0), GridActions::Left);
    walls.insert(GridPos::new(1, 0), GridActions::Up);
    walls.insert(GridPos::new(1, 1), GridActions::Down);
    // path: (0,0) (0,1) (1,1) (2,1) (2,0) (1,0): (1,0) is 5 moves away
    assert_eq!(find_furthest_cell(GridPos::new(0, 0), 3, 2, &walls), GridPos::new(1, 0));
}

#[test]
fn furthest_cell_of_walled_in_start_is_the_start() {
    let mut walls = EdgeSet::new();
    for a in GridActions::get_all_actions() {
        walls.insert(GridPos::new(1, 1), a);
    }
    assert_eq!(find_furthest_cell(GridPos::new(1, 1), 3, 3, &walls), GridPos::new(1, 1));
}

#[test]
fn environment_without_maze_uses_given_goal() {
    let env = generate_environment(4, 3, GridPos::new(0, 0), GridPos::new(3, 1), None, GridRewardType::Gradient);
    assert_eq!(env.goal_pos, GridPos::new(3, 1));
    assert_eq!(env.walls.len(), 0);
    assert_eq!(env.agent_pos, GridPos::new(0, 0));
}

#[test]
fn environment_with_maze_puts_goal_furthest() {
    let env = generate_environment(5, 5, GridPos::new(0, 0), GridPos::new(0, 0), Some((1, 2)), GridRewardType::Flat);
    check_maze(&env.walls, 5, 5, GridPos::new(0, 0));
    assert_eq!(find_furthest_cell(GridPos::new(0, 0), 5, 5, &env.walls), env.goal_pos);
    assert!(on_grid(env.goal_pos, 5, 5));
    assert_ne!(env.goal_pos, GridPos::new(0, 0));
}

#[test]
fn mazes_differ_between_calls() {
    let walls_of = || -> HashSet<(GridPos, GridActions)> {
        generate_maze(8, 8, 1, 1, GridPos::new(0, 0)).to_vec().into_iter().collect()
    };
    let first = walls_of();
    assert!((0..10).any(|_| walls_of() != first));
}

#[test]
fn easier_mazes_have_a_bounded_number_of_loops() {
    // 10 x 10 cells at difficulty 1/2: at most 100 * 1/2 * 15 / 100 = 7 extra passages
    for _ in 0..5 {
        let walls = generate_maze(10, 10, 1, 2, GridPos::new(0, 0));
        check_maze(&walls, 10, 10, GridPos::new(0, 0));
        let open = open_moves(&walls, 10, 10);
        assert!(open >= 2 * 99 && open <= 2 * 99 + 2 * 7);
    }
    // difficulty 0: at most 15 extra passages
    for _ in 0..5 {
        let walls = generate_maze(10, 10, 0, 1, GridPos::new(5, 5));
        let open = open_moves(&walls, 10, 10);
        assert!(open <= 2 * 99 + 2 * 15);
    }
}

#[test]
fn maze_environment_follows_its_difficulty() {
    let env = generate_environment(6, 5, GridPos::new(0, 0), GridPos::new(0, 0), Some((1, 1)), GridRewardType::Flat);
    check_maze(&env.walls, 6, 5, GridPos::new(0, 0));
    assert_eq!(open_moves(&env.walls, 6, 5), 2 * (30 - 1));
}

#[test]
fn furthest_cell_ties_go_to_the_first_in_search_order() {
    // moves are tried Up, Right, Down, Left
    assert_eq!(find_furthest_cell(GridPos::new(1, 0), 3, 1, &EdgeSet::new()), GridPos::new(2, 0));
    assert_eq!(find_furthest_cell(GridPos::new(1, 1), 3, 3, &EdgeSet::new()), GridPos::new(2, 2));
    let mut walls = EdgeSet::new();
    walls.insert(GridPos::new(1, 0), GridActions::Right);
    assert_eq!(find_furthest_cell(GridPos::new(1, 0), 3, 1, &walls), GridPos::new(0, 0));
}

#[test]
fn furthest_cell_on_a_huge_grid_with_a_small_region() {
    let mut walls = EdgeSet::new();
    walls.insert(GridPos::new(0, 1), GridActions::Up);
    walls.insert(GridPos::new(0, 1), GridActions::Right);
    walls.insert(GridPos::new(0, 0), GridActions::Right);
    let far = find_furthest_cell(GridPos::new(0, 0), 100_000, 100_000, &walls);
    assert_eq!(far, GridPos::new(0, 1));
}

#[test]
fn difficulty_above_one_counts_as_one() {
    for _ in 0..3 {
        let walls = generate_maze(5, 4, 3, 2, GridPos::new(1, 1));
        check_maze(&walls, 5, 4, GridPos::new(1, 1));
        assert_eq!(open_moves(&walls, 5, 4), 2 * (20 - 1));
    }
}

#[test]
fn maze_environment_from_a_start_off_the_grid() {
    let env = generate_environment(4, 4, GridPos::new(-1, 0), GridPos::new(0, 0), Some((1, 1)), GridRewardType::Flat);
    assert_eq!(env.initial_agent_pos, GridPos::new(-1, 0));
    for (p, _) in env.walls.to_vec() {
        assert!(on_grid(p, 4, 4));
    }
}

#[test]
fn carving_goes_on_straight_when_drawn() {
    let ns = vec![
        (GridActions::Up, GridPos::new(1, 2)),
        (GridActions::Right, GridPos::new(2, 1)),
        (GridActions::Left, GridPos::new(0, 1)),
    ];
    // straight and the corridor can go on to the right
    assert_eq!(choose_neighbor(&ns, Some(GridActions::Right), true, 2), ns[1]);
    // not straight: the drawn position
    assert_eq!(choose_neighbor(&ns, Some(GridActions::Right), false, 2), ns[2]);
    // straight but the corridor cannot go on down
    assert_eq!(choose_neighbor(&ns, Some(GridActions::Down), true, 0), ns[0]);
    // no previous direction: the drawn position
    assert_eq!(choose_neighbor(&ns, None, true, 1), ns[1]);
}

#[test]
fn hardest_maze_corridors_go_on_straight_on_an_open_strip() {
    // on a 1-cell-high strip carved from its left end, the corridor can only go right
    let walls = generate_maze(6, 1, 1, 1, GridPos::new(0, 0));
    check_maze(&walls, 6, 1, GridPos::new(0, 0));
    assert_eq!(open_moves(&walls, 6, 1), 10);
}
