use rl2d::rl::environments::discrete_2d::EdgeSet;
use rl2d::rl::environments::discrete_2d::GridActions;
use rl2d::rl::environments::discrete_2d::GridPos;
use rl2d::rl::environments::discrete_2d::GridRewardType;
use rl2d::rl::environments::discrete_2d::GridState;
use rl2d::rl::environments::discrete_2d::SimpleGridEnvironment;
use rl2d::rl::environments::discrete_2d::clamp;
use rl2d::rl::environments::discrete_2d::shift;
use rl2d::rl::environments::maze::generate_environment;
use rl2d::rl::Action;

fn open_grid(reward_type: GridRewardType) -> SimpleGridEnvironment {
    SimpleGridEnvironment::new(3, 3, GridPos::new(0, 0), GridPos::new(2, 2), EdgeSet::new(), reward_type)
}

#[test]
fn actions_move_by_one_cell() {
    assert_eq!(GridActions::Up.to_vec(), GridPos::new(0, 1));
    assert_eq!(GridActions::Right.to_vec(), GridPos::new(1, 0));
    assert_eq!(GridActions::Down.to_vec(), GridPos::new(0, -1));
    assert_eq!(GridActions::Left.to_vec(), GridPos::new(-1, 0));
}

#[test]
fn opposite_is_an_involution() {
    for a in <GridActions as Action>::get_all_actions() {
        assert_ne!(a.opposite(), a);
        assert_eq!(a.opposite().opposite(), a);
        let p = GridPos::new(5, 7);
        assert_eq!(shift(shift(p, a), a.opposite()), p);
    }
    assert_eq!(GridActions::Up.opposite(), GridActions::Down);
    assert_eq!(GridActions::Left.opposite(), GridActions::Right);
}

#[test]
fn action_indices_and_lengths() {
    let indices: Vec<u8> = GridActions::get_all_actions().iter().map(|a| a.to_index()).collect();
    assert_eq!(indices, vec![0, 1, 2, 3]);
    assert_eq!(GridActions::Up.len(), 1);
    assert_eq!(GridState::default().len(), 2);
    assert_eq!(GridActions::default(), GridActions::Up);
}

#[test]
fn clamp_brings_values_into_range() {
    assert_eq!(clamp(-3, 0, 4), 0);
    assert_eq!(clamp(7, 0, 4), 4);
    assert_eq!(clamp(2, 0, 4), 2);
}

#[test]
fn edge_set_reads_back_what_was_inserted() {
    let mut s = EdgeSet::new();
    assert_eq!(s.len(), 0);
    assert!(s.insert(GridPos::new(1, 2), GridActions::Up));
    assert!(!s.insert(GridPos::new(1, 2), GridActions::Up));
    assert!(s.insert(GridPos::new(1, 2), GridActions::Down));
    assert!(s.insert(GridPos::new(-4, i32::MAX), GridActions::Left));
    assert!(s.contains(GridPos::new(1, 2), GridActions::Up));
    assert!(s.contains(GridPos::new(-4, i32::MAX), GridActions::Left));
    assert!(!s.contains(GridPos::new(2, 1), GridActions::Up));
    assert!(!s.contains(GridPos::new(1, 2), GridActions::Right));
    assert_eq!(s.len(), 3);
    let v = s.to_vec();
    assert_eq!(v.len(), 3);
    assert!(v.contains(&(GridPos::new(1, 2), GridActions::Down)));
}

#[test]
fn new_environment_starts_at_the_start() {
    let env = open_grid(GridRewardType::Flat);
    assert_eq!(env.agent_pos, GridPos::new(0, 0));
    assert_eq!(env.initial_agent_pos, GridPos::new(0, 0));
    assert_eq!(env.goal_pos, GridPos::new(2, 2));
    assert_eq!(env.width, 3);
    assert_eq!(env.height, 3);
    assert!(env.trajectory.is_empty());
}

#[test]
fn flat_reward_scale_counts_the_cells_left() {
    assert_eq!(open_grid(GridRewardType::Flat).reward_scale, 8);
}

#[test]
fn gradient_reward_scale_sums_distances_to_goal() {
    // cells other than the start (0, 0), distance to (2, 2):
    // 3 + 2 + 3 + 2 + 1 + 2 + 1 + 0
    assert_eq!(open_grid(GridRewardType::Gradient).reward_scale, 14);
}

#[test]
fn get_state_points_to_goal() {
    let env = open_grid(GridRewardType::Flat);
    assert_eq!(env.get_state().direction_to_goal, GridPos::new(2, 2));
}

#[test]
fn flat_steps_cost_one_and_goal_pays_distance_minus_one() {
    let mut env = open_grid(GridRewardType::Flat);
    env.reset();
    assert_eq!(env.step(GridActions::Up), (-1, false));
    assert_eq!(env.step(GridActions::Up), (-1, false));
    assert_eq!(env.step(GridActions::Right), (-1, false));
    assert_eq!(env.step(GridActions::Right), (3, true));
    assert_eq!(env.agent_pos, GridPos::new(2, 2));
    assert_eq!(
        env.trajectory,
        vec![
            GridPos::new(0, 0),
            GridPos::new(0, 1),
            GridPos::new(0, 2),
            GridPos::new(1, 2),
            GridPos::new(2, 2)
        ]
    );
}

#[test]
fn gradient_steps_cost_distance_to_goal() {
    let mut env = open_grid(GridRewardType::Gradient);
    env.reset();
    assert_eq!(env.step(GridActions::Up), (-3, false));
    assert_eq!(env.step(GridActions::Right), (-2, false));
    assert_eq!(env.step(GridActions::Right), (-1, false));
    // initial distance 4: 4 * 3 / 2
    assert_eq!(env.step(GridActions::Up), (6, true));
}

#[test]
fn border_keeps_agent_on_grid() {
    let mut env = open_grid(GridRewardType::Flat);
    env.reset();
    assert_eq!(env.step(GridActions::Left), (-1, false));
    assert_eq!(env.agent_pos, GridPos::new(0, 0));
    assert_eq!(env.step(GridActions::Down), (-1, false));
    assert_eq!(env.agent_pos, GridPos::new(0, 0));
    assert_eq!(env.trajectory.len(), 3);
}

#[test]
fn walls_block_from_both_sides() {
    let mut walls = EdgeSet::new();
    walls.insert(GridPos::new(0, 1), GridActions::Down);
    let mut env = SimpleGridEnvironment::new(3, 3, GridPos::new(0, 0), GridPos::new(2, 2), walls, GridRewardType::Flat);
    assert!(env.collides_with_wall(GridPos::new(0, 0), GridActions::Up));
    assert!(env.collides_with_wall(GridPos::new(0, 1), GridActions::Down));
    assert!(!env.collides_with_wall(GridPos::new(0, 0), GridActions::Right));
    env.reset();
    env.step(GridActions::Up);
    assert_eq!(env.agent_pos, GridPos::new(0, 0));
    env.step(GridActions::Right);
    assert_eq!(env.agent_pos, GridPos::new(1, 0));
}

#[test]
fn reset_returns_to_start() {
    let mut env = open_grid(GridRewardType::Flat);
    env.reset();
    env.step(GridActions::Right);
    env.step(GridActions::Up);
    env.reset();
    assert_eq!(env.agent_pos, GridPos::new(0, 0));
    assert_eq!(env.trajectory, vec![GridPos::new(0, 0)]);
    assert_eq!(env.get_state().direction_to_goal, GridPos::new(2, 2));
}

#[test]
fn start_on_goal_still_terminates() {
    let mut env = SimpleGridEnvironment::new(1, 1, GridPos::new(0, 0), GridPos::new(0, 0), EdgeSet::new(), GridRewardType::Flat);
    assert_eq!(env.reward_scale, 0);
    env.reset();
    assert_eq!(env.step(GridActions::Up), (-1, true));
}

fn greedy(state: GridState) -> Option<GridActions> {
    let d = state.direction_to_goal;
    if d.x > 0 {
        Some(GridActions::Right)
    } else if d.x < 0 {
        Some(GridActions::Left)
    } else if d.y > 0 {
        Some(GridActions::Up)
    } else if d.y < 0 {
        Some(GridActions::Down)
    } else {
        None
    }
}

#[test]
fn following_a_policy_stops_on_the_goal() {
    let mut env = open_grid(GridRewardType::Flat);
    env.step(GridActions::Up);
    let steps = env.follow_policy(250, greedy);
    assert_eq!(steps, 4);
    assert_eq!(
        env.trajectory,
        vec![GridPos::new(0, 0), GridPos::new(1, 0), GridPos::new(2, 0), GridPos::new(2, 1), GridPos::new(2, 2)]
    );
    assert_eq!(env.agent_pos, env.goal_pos);
}

#[test]
fn following_a_policy_stops_at_the_step_limit() {
    let mut env = open_grid(GridRewardType::Flat);
    let steps = env.follow_policy(3, |_| Some(GridActions::Right));
    assert_eq!(steps, 3);
    assert_eq!(
        env.trajectory,
        vec![GridPos::new(0, 0), GridPos::new(1, 0), GridPos::new(2, 0), GridPos::new(2, 0)]
    );
}

#[test]
fn following_a_policy_stops_when_it_has_no_action() {
    let mut env = open_grid(GridRewardType::Gradient);
    let steps = env.follow_policy(10, |_| None);
    assert_eq!(steps, 0);
    assert_eq!(env.trajectory, vec![GridPos::new(0, 0)]);
}

#[test]
fn following_a_policy_from_the_goal_still_moves() {
    let mut env =
        SimpleGridEnvironment::new(2, 1, GridPos::new(0, 0), GridPos::new(0, 0), EdgeSet::new(), GridRewardType::Flat);
    let steps = env.follow_policy(5, |_| Some(GridActions::Right));
    assert_eq!(steps, 5);
    assert_eq!(env.agent_pos, GridPos::new(1, 0));
}

#[test]
fn following_a_policy_respects_walls() {
    let mut walls = EdgeSet::new();
    walls.insert(GridPos::new(1, 0), GridActions::Left);
    let mut env = SimpleGridEnvironment::new(3, 3, GridPos::new(0, 0), GridPos::new(2, 2), walls, GridRewardType::Flat);
    let steps = env.follow_policy(2, greedy);
    assert_eq!(steps, 2);
    assert_eq!(env.trajectory, vec![GridPos::new(0, 0), GridPos::new(0, 0), GridPos::new(0, 0)]);
}

#[test]
fn a_shortest_route_scores_zero() {
    for reward_type in [GridRewardType::Flat, GridRewardType::Gradient] {
        let mut env = SimpleGridEnvironment::new(4, 3, GridPos::new(0, 0), GridPos::new(3, 2), EdgeSet::new(), reward_type);
        env.reset();
        let route = [GridActions::Right, GridActions::Up, GridActions::Right, GridActions::Up, GridActions::Right];
        let total: i128 = route.iter().map(|a| env.step(*a).0).sum();
        assert_eq!(total, 0);
        assert_eq!(env.agent_pos, env.goal_pos);
        // a detour costs more
        env.reset();
        let detour = [GridActions::Left, GridActions::Right, GridActions::Up, GridActions::Up, GridActions::Right, GridActions::Right];
        let total: i128 = detour.iter().map(|a| env.step(*a).0).sum();
        assert!(total < 0);
    }
}

#[test]
fn a_start_off_the_grid_is_clamped_onto_it() {
    let mut env =
        SimpleGridEnvironment::new(3, 3, GridPos::new(-1, 1), GridPos::new(2, 1), EdgeSet::new(), GridRewardType::Flat);
    env.reset();
    assert_eq!(env.get_state().direction_to_goal, GridPos::new(3, 0));
    assert_eq!(env.step(GridActions::Right), (-1, false));
    assert_eq!(env.agent_pos, GridPos::new(0, 1));
    assert_eq!(env.step(GridActions::Right), (-1, false));
    // the goal reward pays back the distance from the start, 3 moves
    assert_eq!(env.step(GridActions::Right), (2, true));
}

#[test]
fn a_goal_off_the_grid_is_never_reached() {
    let mut env =
        SimpleGridEnvironment::new(2, 2, GridPos::new(0, 0), GridPos::new(2, 0), EdgeSet::new(), GridRewardType::Gradient);
    // distances to (2, 0) of the cells (0,1), (1,0), (1,1)
    assert_eq!(env.reward_scale, 3 + 1 + 2);
    env.reset();
    assert_eq!(env.step(GridActions::Right), (-1, false));
    assert_eq!(env.step(GridActions::Right), (-1, false));
    assert_eq!(env.agent_pos, GridPos::new(1, 0));
}

#[test]
fn far_away_positions_give_exact_rewards() {
    let far = GridPos::new(i32::MIN, i32::MIN);
    let mut env =
        SimpleGridEnvironment::new(2, 2, far, GridPos::new(i32::MAX, i32::MAX), EdgeSet::new(), GridRewardType::Gradient);
    // each cell x, y is (MAX - x) + (MAX - y) away from the goal
    let m = i32::MAX as i128;
    assert_eq!(env.reward_scale, 4 * 2 * m - 4);
    env.reset();
    assert_eq!(env.step(GridActions::Right), (-2 * i32::MAX as i128, false));
}

#[test]
fn following_a_policy_from_off_the_grid() {
    let mut env =
        SimpleGridEnvironment::new(3, 1, GridPos::new(-1, 0), GridPos::new(2, 0), EdgeSet::new(), GridRewardType::Flat);
    let steps = env.follow_policy(10, |_| Some(GridActions::Right));
    assert_eq!(steps, 3);
    assert_eq!(env.trajectory, vec![GridPos::new(-1, 0), GridPos::new(0, 0), GridPos::new(1, 0), GridPos::new(2, 0)]);
}

#[test]
fn an_empty_grid_can_be_built() {
    let env = SimpleGridEnvironment::new(0, 3, GridPos::new(0, 0), GridPos::new(0, 0), EdgeSet::new(), GridRewardType::Flat);
    assert_eq!(env.width, 0);
    assert_eq!(env.reward_scale, -1);
    let env = SimpleGridEnvironment::new(4, 0, GridPos::new(1, 1), GridPos::new(2, 2), EdgeSet::new(), GridRewardType::Gradient);
    assert_eq!(env.reward_scale, 0);
    let env = generate_environment(0, 0, GridPos::new(0, 0), GridPos::new(0, 0), Some((1, 2)), GridRewardType::Flat);
    assert_eq!(env.walls.len(), 0);
    assert_eq!(env.goal_pos, GridPos::new(0, 0));
}
