use rl2d::rl::environments::continuous_2d::downsample_indices;
use rl2d::rl::environments::discrete_2d::GridActions;
use rl2d::rl::environments::discrete_2d::GridPos;
use rl2d::rl::environments::grid_drawing::frames_until;
use rl2d::rl::environments::grid_drawing::interpolate_trajectory;
use rl2d::rl::environments::grid_drawing::video_frame_plan;
use rl2d::rl::environments::grid_drawing::wall_segment;

fn p(x: i32, y: i32) -> GridPos {
    GridPos::new(x, y)
}

#[test]
fn walls_are_drawn_on_the_cell_sides() {
    assert_eq!(wall_segment(p(2, 3), GridActions::Up), (p(2, 4), p(3, 4)));
    assert_eq!(wall_segment(p(2, 3), GridActions::Right), (p(3, 3), p(3, 4)));
    assert_eq!(wall_segment(p(2, 3), GridActions::Down), (p(2, 3), p(3, 3)));
    assert_eq!(wall_segment(p(2, 3), GridActions::Left), (p(2, 3), p(2, 4)));
}

#[test]
fn a_wall_seen_from_both_sides_is_one_segment() {
    assert_eq!(wall_segment(p(1, 1), GridActions::Up), wall_segment(p(1, 2), GridActions::Down));
    assert_eq!(wall_segment(p(1, 1), GridActions::Right), wall_segment(p(2, 1), GridActions::Left));
}

#[test]
fn interpolation_spreads_frames_over_each_move() {
    let trajectory = vec![p(0, 0), p(1, 0), p(1, 1)];
    let frames = interpolate_trajectory(&trajectory, 4);
    // numerators over 4
    assert_eq!(
        frames,
        vec![(0, 0), (1, 0), (2, 0), (3, 0), (4, 0), (4, 1), (4, 2), (4, 3), (4, 4)]
    );
}

#[test]
fn interpolation_with_one_step_per_cell_is_the_trajectory() {
    let trajectory = vec![p(2, 2), p(2, 3), p(3, 3), p(3, 3)];
    let frames = interpolate_trajectory(&trajectory, 1);
    assert_eq!(frames, vec![(2, 2), (2, 3), (3, 3), (3, 3)]);
}

#[test]
fn interpolation_edge_cases() {
    assert!(interpolate_trajectory(&Vec::new(), 5).is_empty());
    assert_eq!(interpolate_trajectory(&vec![p(4, 5)], 3), vec![(12, 15)]);
    // no frames along the moves: only the last cell, over 1
    assert_eq!(interpolate_trajectory(&vec![p(0, 0), p(7, -2)], 0), vec![(7, -2)]);
}

#[test]
fn video_has_about_600_frames() {
    assert_eq!(video_frame_plan(1), (601, 0));
    assert_eq!(video_frame_plan(2), (301, 301));
    assert_eq!(video_frame_plan(11), (55, 550));
    assert_eq!(video_frame_plan(601), (1, 600));
    assert_eq!(video_frame_plan(1000), (1, 999));
}

#[test]
fn short_trajectories_are_drawn_whole() {
    assert_eq!(downsample_indices(5, 10), vec![0, 1, 2, 3, 4]);
    assert_eq!(downsample_indices(5, 5), vec![0, 1, 2, 3, 4]);
    assert_eq!(downsample_indices(4, 1), vec![0, 1, 2, 3]);
    assert_eq!(downsample_indices(0, 3), Vec::<usize>::new());
}

#[test]
fn long_trajectories_are_spread_evenly() {
    assert_eq!(downsample_indices(11, 3), vec![0, 5, 10]);
    assert_eq!(downsample_indices(10, 4), vec![0, 3, 6, 9]);
    // 1 * 4 / 3 = 1.33 -> 1, 2 * 4 / 3 = 2.67 -> 3
    assert_eq!(downsample_indices(5, 4), vec![0, 1, 3, 4]);
    // halves round up: 1 * 3 / 2 = 1.5 -> 2
    assert_eq!(downsample_indices(4, 3), vec![0, 2, 3]);
}

#[test]
fn downsampling_keeps_both_ends_in_order() {
    for len in 3..40usize {
        for max_points in 2..len {
            let indices = downsample_indices(len, max_points);
            assert_eq!(indices.len(), max_points);
            assert_eq!(indices[0], 0);
            assert_eq!(*indices.last().unwrap(), len - 1);
            assert!(indices.windows(2).all(|w| w[0] <= w[1]));
        }
    }
}

#[test]
fn a_frame_shows_the_trajectory_up_to_it() {
    let frames = vec![(0, 0), (1, 0), (2, 0), (2, 1)];
    assert_eq!(frames_until(&frames, Some(0)), vec![(0, 0)]);
    assert_eq!(frames_until(&frames, Some(2)), vec![(0, 0), (1, 0), (2, 0)]);
    assert_eq!(frames_until(&frames, Some(3)), frames);
    assert_eq!(frames_until(&frames, None), frames);
}
