//! The crossover and the mutation of a genetic run, chosen at run time.

use vstd::prelude::*;
use rand::rngs::SmallRng;
use crate::collections::texts;
use crate::ga::chromosome::{mav_feasible, ScheduleChromosome};
use crate::ga::crossover::{
    jox_crossover, lox_crossover, merged_children, pox_crossover, segment_children,
};
use crate::ga::mutation::{
    insert_mutated, insert_mutation, invert_mutated, invert_mutation, mav_mutated, mav_mutation,
    swap_mutated, swap_mutation,
};
use crate::ga::problem::{info_views, ActivityInfo};

verus! {

/// Crossover strategy for scheduling chromosomes.
#[derive(Debug, Clone, Copy, PartialEq, Eq, Structural)]
pub enum CrossoverType {
    /// Precedence operation crossover.
    POX,
    /// Linear order crossover.
    LOX,
    /// Job-based order crossover.
    JOX,
}

/// Mutation strategy for the operation sequence.
#[derive(Debug, Clone, Copy, PartialEq, Eq, Structural)]
pub enum MutationType {
    /// Exchange two random positions.
    Swap,
    /// Take an item out and put it in at a random position.
    Insert,
    /// Reverse a random segment.
    Invert,
}

/// The genetic operators of a run.
#[derive(Debug, Clone)]
pub struct GeneticOperators {
    /// Crossover strategy.
    pub crossover_type: CrossoverType,
    /// Mutation strategy for the operation sequence.
    pub mutation_type: MutationType,
}

impl Default for GeneticOperators {
    /// Precedence operation crossover and swap mutation.
    fn default() -> (ops: Self)
        ensures
            ops.crossover_type == CrossoverType::POX,
            ops.mutation_type == MutationType::Swap,
    {
        GeneticOperators { crossover_type: CrossoverType::POX, mutation_type: MutationType::Swap }
    }
}

impl GeneticOperators {
    /// Crosses two parents with the configured strategy. The children hold
    /// the tasks of the parents, each as often as the parents do.
    pub fn crossover(
        &self,
        p1: &ScheduleChromosome,
        p2: &ScheduleChromosome,
        activities: &[ActivityInfo],
        rng: &mut SmallRng,
    ) -> (children: (ScheduleChromosome, ScheduleChromosome))
        requires
            self.crossover_type == CrossoverType::LOX && p1.osv@.len() >= 2 ==> p1.osv@.len()
                == p2.osv@.len(),
        ensures
            match self.crossover_type {
                CrossoverType::LOX => segment_children(p1@, p2@, children.0@, children.1@),
                _ => merged_children(p1@, p2@, info_views(activities@), children.0@, children.1@),
            },
            p1@.osv.to_multiset() == p2@.osv.to_multiset() ==> children.0@.osv.to_multiset()
                == p1@.osv.to_multiset() && children.1@.osv.to_multiset() == p2@.osv.to_multiset(),
    {
        match self.crossover_type {
            CrossoverType::POX => pox_crossover(p1, p2, activities, rng),
            CrossoverType::LOX => lox_crossover(p1, p2, activities, rng),
            CrossoverType::JOX => jox_crossover(p1, p2, activities, rng),
        }
    }

    /// Mutates the operation sequence with the configured strategy, and
    /// then the machine assignment. The operation sequence holds the same
    /// tasks afterwards, and a feasible machine assignment stays feasible.
    pub fn mutate(&self, chromosome: &mut ScheduleChromosome, activities: &[ActivityInfo], rng: &mut SmallRng)
        ensures
            match self.mutation_type {
                MutationType::Swap => swap_mutated(
                    texts(old(chromosome).osv@),
                    texts(final(chromosome).osv@),
                ),
                MutationType::Insert => insert_mutated(
                    texts(old(chromosome).osv@),
                    texts(final(chromosome).osv@),
                ),
                MutationType::Invert => invert_mutated(
                    texts(old(chromosome).osv@),
                    texts(final(chromosome).osv@),
                ),
            },
            mav_mutated(
                texts(old(chromosome).mav@),
                texts(final(chromosome).mav@),
                info_views(activities@),
            ),
            texts(final(chromosome).osv@).to_multiset() == texts(old(chromosome).osv@).to_multiset(),
            final(chromosome).activity_index == old(chromosome).activity_index,
            final(chromosome).fitness == old(chromosome).fitness,
            mav_feasible(texts(old(chromosome).mav@), info_views(activities@)) ==> mav_feasible(
                texts(final(chromosome).mav@),
                info_views(activities@),
            ),
    {
        match self.mutation_type {
            MutationType::Swap => swap_mutation(chromosome, rng),
            MutationType::Insert => insert_mutation(chromosome, rng),
            MutationType::Invert => invert_mutation(chromosome, rng),
        }
        mav_mutation(chromosome, activities, rng);
    }
}

} // verus!
