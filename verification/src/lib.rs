//! An ASA-graph: an order-preserving index over `i32` sensor values that is at
//! once a multiway search tree with duplicate-aggregating counters, a doubly
//! linked chain of the unique keys with range-derived edge weights, and a
//! one-layer sensor of activatable elements.
//!
//! Real-valued activations and weights are represented exactly: activations as
//! integer micro-units (see [`fixed::MICRO`]), weights as rationals.

pub mod element;
pub mod fixed;
pub mod graph;
pub mod node;
pub mod sensor;
pub mod text;
pub mod types;
