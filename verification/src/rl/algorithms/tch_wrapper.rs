//! The plain data that describes a neural network of the learning algorithms.
use vstd::prelude::*;

verus! {

/// The device a network runs on.
#[derive(Clone, Copy, Debug, PartialEq, Eq, Structural)]
pub enum DeviceDef {
    Cpu,
    Cuda(usize),
    Mps,
    Vulkan,
}

/// What is kept of a network when it is saved: the sizes of its layers,
/// whether it ends with a softmax, and the file that holds its weights.
pub struct SerializableNetwork {
    pub layers: Vec<i64>,
    pub end_with_softmax: bool,
    pub file: String,
}

} // verus!
