//! Environments, algorithms and utilities of the framework, and the
//! notions they share.
pub mod algorithms;
pub mod environments;
pub mod utils;

use vstd::prelude::*;

verus! {

/// What every state of an environment must offer.
pub trait State: Default + Clone {

}

/// What every action of an environment must offer.
pub trait Action: Default + Clone + Sized {
    /// Every action an agent can take.
    fn get_all_actions() -> Vec<Self>;
}

/// The learning algorithms of the framework.
#[derive(Clone, Copy, Debug, PartialEq, Eq, Structural)]
pub enum RlAlgoType {
    TabularQTable,
    DeepQ,
    PPO,
    Evolutionary,
}

/// The part of a saved algorithm that says which algorithm it is.
#[derive(Clone, Copy, Debug, PartialEq, Eq, Structural)]
pub struct AlgoHeader {
    pub algo_type: RlAlgoType,
}

} // verus!
