//! The parts of the configuration file that hold no real numbers.
use vstd::prelude::*;

verus! {

/// The command line: the path of the configuration file.
pub struct Cli {
    pub config: String,
}

/// How long to train.
#[derive(Clone, Copy, Debug, PartialEq, Eq, Structural)]
pub struct TrainingConfig {
    pub epochs: usize,
    pub max_steps_per_epoch: usize,
}

/// Where and how to save the solution found.
pub struct OutputConfig {
    pub saving_path: String,
    pub show_info_in_plot: bool,
    pub create_video: bool,
}

/// Where to save the comparison of the reward types, and how many runs to
/// average.
pub struct CompareEnvironmentRewardTypeConfig {
    pub saving_path: String,
    pub n_iterations: usize,
}

/// How many training runs to measure.
#[derive(Clone, Copy, Debug, PartialEq, Eq, Structural)]
pub struct ResourceUsageStatisticsConfig {
    pub tries: usize,
}

} // verus!
