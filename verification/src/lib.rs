//! Kinematic core of an articulated arm: a joint tree, the serial chain cut
//! from it, and two inverse-kinematics solvers that move the chain's joints
//! toward a target pose.
//!
//! Every quantity is a fixed-point integer: a length or a vector component
//! counts [`math_utils::UNIT`]-ths of one length unit, an angle counts
//! [`math_utils::UNIT`]-ths of a radian. Trigonometry and linear solves are
//! the host's work; the solvers are written as step functions that say what
//! the host has to evaluate next and take the result back as an event.

pub mod math_utils;
pub mod node;
pub mod chain;
pub mod ik;
pub mod physics;
