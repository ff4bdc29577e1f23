use rl2d::rl::utils::statistics::StatPoint;
use rl2d::rl::utils::statistics::Statistics;
use rl2d::rl::utils::statistics::bucket_ranges;
use rl2d::rl::utils::statistics::common_length;
use rl2d::rl::utils::statistics::metric_values;
use rl2d::rl::utils::statistics::mostly_completed;

fn metrics(pairs: &[(&str, f32)]) -> Vec<(String, f32)> {
    pairs.iter().map(|(k, v)| (k.to_string(), *v)).collect()
}

#[test]
fn stat_point_finds_first_metric() {
    let p = StatPoint::new(3, true, metrics(&[("Reward", 1.5), ("Epsilon", 0.25), ("Reward", 9.0)]));
    assert_eq!(p.get("Reward"), Some(1.5));
    assert_eq!(p.get("Epsilon"), Some(0.25));
    assert_eq!(p.get("Loss"), None);
    assert_eq!(p.episode, 3);
}

#[test]
fn push_numbers_episodes() {
    let mut s: Statistics<f32> = Statistics::default();
    assert_eq!(s.last_value("Reward"), None);
    assert_eq!(s.last_completed(), None);
    s.push(false, metrics(&[("Reward", -3.0)]));
    s.push(true, metrics(&[("Reward", 2.0)]));
    assert_eq!(s.history.len(), 2);
    assert_eq!(s.history[0].episode, 0);
    assert_eq!(s.history[1].episode, 1);
    assert_eq!(s.last_value("Reward"), Some(2.0));
    assert_eq!(s.last_value("Epsilon"), None);
    assert_eq!(s.last_completed(), Some(true));
}

#[test]
fn add_metric_fills_back_to_last_recorded() {
    let mut s: Statistics<f32> = Statistics::default();
    s.push(false, metrics(&[("Reward", 1.0)]));
    s.push(false, metrics(&[("Reward", 2.0), ("Loss", 0.5)]));
    s.push(false, metrics(&[("Reward", 3.0)]));
    s.push(true, metrics(&[("Reward", 4.0)]));
    s.add_metric_to_previous("Loss".to_string(), 0.75);
    assert_eq!(s.history[0].get("Loss"), None);
    assert_eq!(s.history[1].get("Loss"), Some(0.5));
    assert_eq!(s.history[2].get("Loss"), Some(0.75));
    assert_eq!(s.history[3].get("Loss"), Some(0.75));
    assert_eq!(s.last_value("Loss"), Some(0.75));
    assert_eq!(s.history[3].values.len(), 2);
    assert_eq!(s.history[1].values.len(), 2);
}

#[test]
fn add_metric_to_fresh_history_reaches_every_episode() {
    let mut s: Statistics<f32> = Statistics::default();
    s.add_metric_to_previous("Loss".to_string(), 1.0);
    assert!(s.history.is_empty());
    s.push(false, Vec::new());
    s.push(false, Vec::new());
    s.add_metric_to_previous("Loss".to_string(), 2.0);
    assert_eq!(s.history[0].get("Loss"), Some(2.0));
    assert_eq!(s.history[1].get("Loss"), Some(2.0));
    s.add_metric_to_previous("Loss".to_string(), 3.0);
    assert_eq!(s.history[1].values.len(), 1);
}

fn run(completed: &[bool]) -> Statistics<f32> {
    let mut s: Statistics<f32> = Statistics::default();
    for &c in completed {
        s.push(c, Vec::new());
    }
    s
}

#[test]
fn buckets_cover_the_run_in_order() {
    assert_eq!(bucket_ranges(25, 10), vec![(0, 3), (3, 6), (6, 9), (9, 12), (12, 15), (15, 18), (18, 21), (21, 24), (24, 25)]);
    assert_eq!(bucket_ranges(20, 10), (0..10).map(|k| (2 * k, 2 * k + 2)).collect::<Vec<_>>());
    assert_eq!(bucket_ranges(3, 10), vec![(0, 1), (1, 2), (2, 3)]);
    assert_eq!(bucket_ranges(0, 10), Vec::<(usize, usize)>::new());
    assert_eq!(bucket_ranges(7, 1), vec![(0, 7)]);
}

#[test]
fn common_length_is_the_shortest_run() {
    let runs = vec![run(&[true, true, false]), run(&[false, true]), run(&[true, false, true, true])];
    assert_eq!(common_length(&runs), 2);
    assert_eq!(common_length::<f32>(&Vec::new()), 0);
    assert_eq!(common_length(&vec![run(&[]), run(&[true])]), 0);
}

#[test]
fn an_episode_is_completed_when_half_the_runs_complete_it() {
    let runs = vec![run(&[true, true, false]), run(&[false, true, false]), run(&[true, false, true])];
    assert!(mostly_completed(&runs, 0));
    assert!(mostly_completed(&runs, 1));
    assert!(!mostly_completed(&runs, 2));
    let pair = vec![run(&[true]), run(&[false])];
    assert!(mostly_completed(&pair, 0));
}

#[test]
fn metric_values_gather_each_record_that_has_the_metric() {
    let points = vec![
        StatPoint::new(0, true, metrics(&[("Reward", 1.0), ("Reward", 7.0)])),
        StatPoint::new(1, false, metrics(&[("Epsilon", 0.5)])),
        StatPoint::new(2, true, metrics(&[("Epsilon", 0.25), ("Reward", 3.0)])),
    ];
    assert_eq!(metric_values(&points, "Reward"), vec![1.0, 3.0]);
    assert_eq!(metric_values(&points, "Epsilon"), vec![0.5, 0.25]);
    assert!(metric_values(&points, "Loss").is_empty());
}
