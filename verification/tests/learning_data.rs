use rand::SeedableRng;
use rand::rngs::StdRng;

use rl2d::rl::algorithms::deep_q_learning::ReplayMemory;
use rl2d::rl::algorithms::simple_nn::Activation;
use rl2d::rl::algorithms::simple_nn::expand_row_major;
use rl2d::rl::algorithms::tch_wrapper::DeviceDef;
use rl2d::rl::algorithms::tch_wrapper::SerializableNetwork;
use rl2d::rl::environments::continuous_2d::Environment2dActions;
use rl2d::rl::environments::continuous_2d::PlaneRewardType;
use rl2d::rl::environments::discrete_2d::GridActions;
use rl2d::rl::environments::discrete_2d::GridPos;
use rl2d::rl::environments::discrete_2d::GridState;
use rl2d::rl::Action;
use rl2d::rl::AlgoHeader;
use rl2d::rl::RlAlgoType;

fn state(x: i32) -> GridState {
    GridState { direction_to_goal: GridPos::new(x, -x) }
}

#[test]
fn replay_memory_starts_empty() {
    let m: ReplayMemory<GridState, GridActions, i64> = ReplayMemory::new(4, DeviceDef::Cpu);
    assert_eq!(m.len(), 0);
    assert_eq!(m.capacity(), 4);
    assert_eq!(m.device(), DeviceDef::Cpu);
}

#[test]
fn replay_memory_grows_then_overwrites_oldest() {
    let mut m: ReplayMemory<GridState, GridActions, i64> = ReplayMemory::new(3, DeviceDef::Cuda(1));
    for i in 0..3 {
        m.push(state(i), GridActions::Up, state(i + 1), i as i64, false, false);
        assert_eq!(m.len(), (i + 1) as usize);
    }
    m.push(state(10), GridActions::Left, state(11), 10, true, false);
    assert_eq!(m.len(), 3);
    let mut rng = StdRng::seed_from_u64(7);
    let (states, actions, next_states, rewards, terminated, truncated) = m.sample(3, &mut rng);
    let mut seen: Vec<i64> = rewards.clone();
    seen.sort();
    // the first transition (reward 0) was overwritten by the fourth
    assert_eq!(seen, vec![1, 2, 10]);
    for k in 0..3 {
        if rewards[k] == 10 {
            assert_eq!(states[k], state(10));
            assert_eq!(next_states[k], state(11));
            assert_eq!(actions[k], GridActions::Left);
            assert!(terminated[k]);
        } else {
            assert_eq!(states[k], state(rewards[k] as i32));
            assert!(!terminated[k]);
        }
        assert!(!truncated[k]);
    }
}

#[test]
fn replay_memory_samples_distinct_filled_slots() {
    let mut m: ReplayMemory<GridState, GridActions, i64> = ReplayMemory::new(10, DeviceDef::Mps);
    for i in 0..6 {
        m.push(state(i), GridActions::Down, state(i), 100 + i as i64, false, i == 5);
    }
    let mut rng = StdRng::seed_from_u64(3);
    for batch in 0..=6 {
        let (_, _, _, rewards, _, _) = m.sample(batch, &mut rng);
        assert_eq!(rewards.len(), batch);
        let mut sorted = rewards.clone();
        sorted.sort();
        sorted.dedup();
        assert_eq!(sorted.len(), batch);
        assert!(rewards.iter().all(|r| (100..106).contains(r)));
    }
}

#[test]
fn expand_keeps_weights_in_place() {
    // 2 outputs x 3 inputs, row-major
    let w = vec![1, 2, 3, 4, 5, 6];
    let e = expand_row_major(&w, 3, 2, 4, 3, 0);
    assert_eq!(e, vec![1, 2, 3, 0, 4, 5, 6, 0, 0, 0, 0, 0]);
    let masks = vec![false; 6];
    let m = expand_row_major(&masks, 3, 2, 4, 3, true);
    assert_eq!(m, vec![false, false, false, true, false, false, false, true, true, true, true, true]);
}

#[test]
fn expand_biases_as_a_column() {
    let b = vec![7, 8];
    assert_eq!(expand_row_major(&b, 1, 2, 1, 4, 0), vec![7, 8, 0, 0]);
    assert_eq!(expand_row_major(&b, 1, 2, 1, 2, 0), vec![7, 8]);
}

#[test]
fn continuous_actions() {
    let all = <Environment2dActions as Action>::get_all_actions();
    assert_eq!(all, vec![Environment2dActions::Forward, Environment2dActions::TurnLeft, Environment2dActions::TurnRight]);
    let idx: Vec<u8> = all.iter().map(|a| a.to_index()).collect();
    assert_eq!(idx, vec![0, 1, 2]);
    assert_eq!(Environment2dActions::TurnLeft.len(), 1);
    assert_eq!(Environment2dActions::default(), Environment2dActions::Forward);
    assert_eq!(PlaneRewardType::default(), PlaneRewardType::Flat);
}

#[test]
fn plain_descriptions() {
    let h = AlgoHeader { algo_type: RlAlgoType::DeepQ };
    assert_eq!(h.algo_type, RlAlgoType::DeepQ);
    let n = SerializableNetwork { layers: vec![4, 8, 2], end_with_softmax: true, file: "net.ot".to_string() };
    assert_eq!(n.layers.len(), 3);
    assert_ne!(Activation::Identity, Activation::Relu);
}

#[test]
fn replay_memory_samples_depend_on_the_generator() {
    let mut m: ReplayMemory<GridState, GridActions, i64> = ReplayMemory::new(20, DeviceDef::Cpu);
    for i in 0..20 {
        m.push(state(i), GridActions::Up, state(i), i as i64, false, false);
    }
    let draw = |seed: u64| {
        let mut rng = StdRng::seed_from_u64(seed);
        m.sample(5, &mut rng).3
    };
    let first = draw(0);
    assert!((1..20).any(|seed| draw(seed) != first));
    assert_eq!(draw(7), draw(7));
}

#[test]
fn replay_memory_gathers_chosen_slots_in_order() {
    let mut m: ReplayMemory<GridState, GridActions, i64> = ReplayMemory::new(5, DeviceDef::Cpu);
    for i in 0..5 {
        let action = if i % 2 == 0 { GridActions::Up } else { GridActions::Left };
        m.push(state(i), action, state(i + 10), 100 + i as i64, i == 3, i == 4);
    }
    let (states, actions, next_states, rewards, terminated, truncated) = m.gather(&vec![3, 0, 3, 4]);
    assert_eq!(states, vec![state(3), state(0), state(3), state(4)]);
    assert_eq!(actions, vec![GridActions::Left, GridActions::Up, GridActions::Left, GridActions::Up]);
    assert_eq!(next_states, vec![state(13), state(10), state(13), state(14)]);
    assert_eq!(rewards, vec![103, 100, 103, 104]);
    assert_eq!(terminated, vec![true, false, true, false]);
    assert_eq!(truncated, vec![false, false, false, true]);
    let (empty, ..) = m.gather(&Vec::new());
    assert!(empty.is_empty());
}
