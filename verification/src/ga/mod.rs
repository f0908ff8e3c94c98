//! Genetic-algorithm encoding of schedules: a chromosome of two vectors,
//! the operation sequence and the machine assignment, with its crossover
//! and mutation operators and a decoder.

pub mod chromosome;
pub mod crossover;
pub mod guarantees;
pub mod mutation;
pub mod operators;
pub mod problem;
pub mod random;

pub use chromosome::{Fitness, ProcessTimes, ScheduleChromosome};
pub use crossover::{
    jox_build_child, jox_crossover, lox_build_child, lox_crossover, pox_build_child, pox_crossover,
};
pub use mutation::{insert_mutation, invert_mutation, mav_mutation, swap_mutation};
pub use operators::{CrossoverType, GeneticOperators, MutationType};
pub use problem::{ActivityInfo, SchedulingGaProblem};
