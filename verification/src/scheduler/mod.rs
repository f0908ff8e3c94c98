//! The greedy list scheduler and schedule quality metrics.

pub mod guarantees;
pub mod kpi;
pub mod model;
pub mod simple;

pub use kpi::ScheduleKpi;
pub use simple::{
    priority_order, schedule_in_order, try_schedule_in_order, ScheduleRequest, SimpleScheduler,
};
