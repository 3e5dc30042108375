//! An evolving ecosystem: agents with evolvable brains live on the nodes
//! of a changing graph, and each tick the world grows, splits and removes
//! nodes, rewires edges, lets every agent perceive, rank and decide, and
//! settles the energy that the decisions move.
//!
//! The world advances in phases (see `world::World`); positions, forces
//! and other floating-point quantities are left to the caller, who passes
//! in plain verdicts such as `world::Reach`.

pub mod arith;
pub mod bot;
pub mod cascade;
pub mod instr;
pub mod node;
pub mod rank;
pub mod rng;
pub mod topology;
pub mod world;
