//! Resource-constrained scheduling: a domain model, an input validator, a greedy
//! list scheduler, genetic-algorithm encodings and a constraint-programming
//! model builder, with their behaviour stated in contracts and proved.

pub mod collections;
pub mod cp;
pub mod dispatching;
pub mod ga;
pub mod graph;
pub mod models;
pub mod scheduler;
pub mod sorting;
pub mod validation;
