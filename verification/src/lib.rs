//! A minimal feed-forward neural-network training engine over fixed-point
//! scalars: composable layers, forward/backward propagation, and a family of
//! gradient-accumulating optimizers.

pub mod fixed;
pub mod func;
pub mod net;
pub mod optim;

pub use fixed::SCALE;
