//! The environments an agent can be trained on.
pub mod discrete_2d;
pub mod maze;
pub mod grid_drawing;
pub mod continuous_2d;
