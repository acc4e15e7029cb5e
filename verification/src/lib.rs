//! A discrete-time rigid-body collision engine on fixed-point coordinates.
//!
//! Bodies carry integer positions, velocities and masses in caller-chosen
//! fixed-point units.  Each simulation tick applies gravity, advances
//! positions, rebuilds an octree over the world bounds (broad phase) and
//! resolves intersecting pairs with impulse-based corrections (narrow phase).

pub mod aabb;
pub mod body;
pub mod broad;
pub mod contact;
pub mod fixed;
pub mod integrate;
pub mod narrow;
pub mod octree;
pub mod pipeline;
pub mod resolve;
pub mod shape;
pub mod vecmath;
