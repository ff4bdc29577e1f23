//! A small reinforcement-learning framework for 2D navigation problems:
//! a discrete grid environment with maze generation, the data structures
//! shared by the learning algorithms, and their configuration types.
pub mod rl;
