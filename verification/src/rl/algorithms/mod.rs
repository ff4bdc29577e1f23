//! Data structures used by the learning algorithms.
pub mod deep_q_learning;
pub mod simple_nn;
pub mod tch_wrapper;
