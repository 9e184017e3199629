//! Structural core of a one-degree-of-freedom-per-joint inverse kinematics rig:
//! the kinematic tree, its active joints and effectors, the shape of the
//! Jacobian, and the per-tick decisions of the solver strategies.

pub mod tree;
pub mod rig;
pub mod plan;
