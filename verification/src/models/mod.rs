//! The scheduling domain model: tasks, activities, resources, calendars,
//! constraints, transition matrices and schedules.
//!
//! All times are integer milliseconds relative to an epoch that the caller defines.

pub mod activity;
pub mod calendar;
pub mod constraint;
pub mod resource;
pub mod schedule;
pub mod task;
pub mod time_constraints;

pub use activity::{Activity, ActivityDuration, ResourceRequirement};
pub use calendar::{Calendar, TimeWindow};
pub use constraint::{Constraint, TransitionMatrix, TransitionMatrixCollection, TransitionTable};
pub use resource::{Resource, ResourceType};
pub use schedule::{Assignment, AssignmentView, Ratio, Schedule, Violation, ViolationType};
pub use task::Task;
