//! Kinematic-chain transform propagation for robot visualization.
//!
//! The crate models a robot as a tree of named rigid links connected by
//! joints that carry a fixed local offset (translation plus roll-pitch-yaw
//! orientation).  It finds the unique root link, walks the tree breadth
//! first, and assigns every reachable link a hierarchical entity path and
//! an accumulated transform, which a scene backend can then consume.
//!
//! Matrix entries are IEEE-754 single-precision values, carried everywhere
//! as their `u32` bit patterns so that layout and composition order can be
//! stated and checked exactly.

pub mod mat;
pub mod scalar;
pub mod lexorder;
pub mod graph;
pub mod bfs;
pub mod anim;
pub mod diag;
