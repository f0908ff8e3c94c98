//! Time constraints of activities and three-point duration estimates.

use vstd::prelude::*;

verus! {

/// Whether a time constraint must or should be met.
#[derive(Debug, Clone, Copy, PartialEq, Eq, Structural)]
pub enum ConstraintType {
    /// Must be met: a schedule that violates it is invalid.
    Hard,
    /// Should be met: a violation is penalized.
    Soft,
}

impl Default for ConstraintType {
    /// Soft.
    fn default() -> (t: Self)
        ensures
            t == ConstraintType::Soft,
    {
        ConstraintType::Soft
    }
}

/// Severity of a constraint violation, from the least to the most severe.
#[derive(Debug, Clone, Copy, PartialEq, Eq, PartialOrd, Ord, Structural)]
pub enum ViolationSeverity {
    /// Informational: no impact.
    Info,
    /// Minor: small penalty.
    Minor,
    /// Major: significant penalty.
    Major,
    /// Critical: the schedule may be invalid.
    Critical,
}

/// Kinds of constraint violations.
#[derive(Debug, Clone, PartialEq, Eq)]
pub enum ConstraintViolationType {
    /// A time constraint is violated.
    TimeWindow,
    /// The capacity of a resource is exceeded.
    CapacityExceeded,
    /// A precedence constraint is violated.
    PrecedenceViolated,
    /// A resource is unavailable.
    ResourceUnavailable,
    /// A skill requirement is not met.
    SkillMismatch,
    /// Another violation, named by a tag.
    Custom(String),
}

/// How far a scheduled activity lies outside its time constraint.
#[derive(Debug, Clone, Copy, PartialEq, Eq, Structural)]
pub struct TimeWindowViolation {
    /// Milliseconds too early.
    pub early_ms: i64,
    /// Milliseconds too late.
    pub late_ms: i64,
    /// Severity: critical for a hard constraint, minor for a soft one.
    pub severity: ViolationSeverity,
}

impl TimeWindowViolation {
    /// Total violation: the sum of the absolute values of both parts.
    pub fn total_violation_ms(&self) -> (total: i64)
        requires
            vstd::math::abs(self.early_ms as int) + vstd::math::abs(self.late_ms as int) <= i64::MAX,
        ensures
            total == vstd::math::abs(self.early_ms as int) + vstd::math::abs(self.late_ms as int),
    {
        let early: i128 = if self.early_ms < 0 { -(self.early_ms as i128) } else { self.early_ms as i128 };
        let late: i128 = if self.late_ms < 0 { -(self.late_ms as i128) } else { self.late_ms as i128 };
        (early + late) as i64
    }

    /// Whether the activity is late.
    pub fn is_tardy(&self) -> (b: bool)
        ensures
            b == (self.late_ms > 0),
    {
        self.late_ms > 0
    }

    /// Whether the activity is early.
    pub fn is_early(&self) -> (b: bool)
        ensures
            b == (self.early_ms > 0),
    {
        self.early_ms > 0
    }
}

/// How far `value` lies below `bound`; 0 when it does not or there is no bound.
pub open spec fn shortfall(bound: Option<i64>, value: int) -> int {
    match bound {
        Some(b) => if value < b { b - value } else { 0 },
        None => 0,
    }
}

/// How far `value` lies above `bound`; 0 when it does not or there is no bound.
pub open spec fn excess(bound: Option<i64>, value: int) -> int {
    match bound {
        Some(b) => if value > b { value - b } else { 0 },
        None => 0,
    }
}

/// Time constraint of an activity: bounds on its start and its end.
#[derive(Debug, Clone, Copy, PartialEq, Eq, Structural)]
pub struct ActivityTimeConstraint {
    /// Earliest allowed start.
    pub earliest_start_ms: Option<i64>,
    /// Latest allowed start.
    pub latest_start_ms: Option<i64>,
    /// Earliest allowed end.
    pub earliest_end_ms: Option<i64>,
    /// Latest allowed end: the due date.
    pub latest_end_ms: Option<i64>,
    /// Whether the constraint is hard or soft.
    pub constraint_type: ConstraintType,
}

impl ActivityTimeConstraint {
    /// Milliseconds by which an activity scheduled at `start..end` is too early.
    pub open spec fn spec_early_ms(&self, start_ms: int, end_ms: int) -> int {
        shortfall(self.earliest_start_ms, start_ms) + shortfall(self.earliest_end_ms, end_ms)
    }

    /// Milliseconds by which an activity scheduled at `start..end` is too late.
    pub open spec fn spec_late_ms(&self, start_ms: int, end_ms: int) -> int {
        excess(self.latest_start_ms, start_ms) + excess(self.latest_end_ms, end_ms)
    }

    /// A soft constraint without bounds.
    pub fn new() -> (c: Self)
        ensures
            c == (ActivityTimeConstraint {
                earliest_start_ms: None,
                latest_start_ms: None,
                earliest_end_ms: None,
                latest_end_ms: None,
                constraint_type: ConstraintType::Soft,
            }),
    {
        ActivityTimeConstraint {
            earliest_start_ms: None,
            latest_start_ms: None,
            earliest_end_ms: None,
            latest_end_ms: None,
            constraint_type: ConstraintType::Soft,
        }
    }

    /// A soft constraint with an earliest start and a latest end.
    pub fn bounded(start_ms: i64, end_ms: i64) -> (c: Self)
        ensures
            c == (ActivityTimeConstraint {
                earliest_start_ms: Some(start_ms),
                latest_start_ms: None,
                earliest_end_ms: None,
                latest_end_ms: Some(end_ms),
                constraint_type: ConstraintType::Soft,
            }),
    {
        ActivityTimeConstraint {
            earliest_start_ms: Some(start_ms),
            latest_start_ms: None,
            earliest_end_ms: None,
            latest_end_ms: Some(end_ms),
            constraint_type: ConstraintType::Soft,
        }
    }

    /// A hard deadline.
    pub fn deadline(deadline_ms: i64) -> (c: Self)
        ensures
            c == (ActivityTimeConstraint {
                earliest_start_ms: None,
                latest_start_ms: None,
                earliest_end_ms: None,
                latest_end_ms: Some(deadline_ms),
                constraint_type: ConstraintType::Hard,
            }),
    {
        ActivityTimeConstraint {
            earliest_start_ms: None,
            latest_start_ms: None,
            earliest_end_ms: None,
            latest_end_ms: Some(deadline_ms),
            constraint_type: ConstraintType::Hard,
        }
    }

    /// A hard release time.
    pub fn release(release_ms: i64) -> (c: Self)
        ensures
            c == (ActivityTimeConstraint {
                earliest_start_ms: Some(release_ms),
                latest_start_ms: None,
                earliest_end_ms: None,
                latest_end_ms: None,
                constraint_type: ConstraintType::Hard,
            }),
    {
        ActivityTimeConstraint {
            earliest_start_ms: Some(release_ms),
            latest_start_ms: None,
            earliest_end_ms: None,
            latest_end_ms: None,
            constraint_type: ConstraintType::Hard,
        }
    }

    /// Makes the constraint hard.
    pub fn hard(self) -> (c: Self)
        ensures
            c == (ActivityTimeConstraint { constraint_type: ConstraintType::Hard, ..self }),
    {
        ActivityTimeConstraint { constraint_type: ConstraintType::Hard, ..self }
    }

    /// Makes the constraint soft.
    pub fn soft(self) -> (c: Self)
        ensures
            c == (ActivityTimeConstraint { constraint_type: ConstraintType::Soft, ..self }),
    {
        ActivityTimeConstraint { constraint_type: ConstraintType::Soft, ..self }
    }

    /// Sets the earliest start.
    pub fn with_earliest_start(self, ms: i64) -> (c: Self)
        ensures
            c == (ActivityTimeConstraint { earliest_start_ms: Some(ms), ..self }),
    {
        ActivityTimeConstraint { earliest_start_ms: Some(ms), ..self }
    }

    /// Sets the latest start.
    pub fn with_latest_start(self, ms: i64) -> (c: Self)
        ensures
            c == (ActivityTimeConstraint { latest_start_ms: Some(ms), ..self }),
    {
        ActivityTimeConstraint { latest_start_ms: Some(ms), ..self }
    }

    /// Sets the latest end.
    pub fn with_due_date(self, ms: i64) -> (c: Self)
        ensures
            c == (ActivityTimeConstraint { latest_end_ms: Some(ms), ..self }),
    {
        ActivityTimeConstraint { latest_end_ms: Some(ms), ..self }
    }

    /// What checking an activity scheduled at `start_ms..end_ms` gives:
    /// nothing when no bound is violated, else by how much the activity is
    /// early and late.
    pub open spec fn spec_check_violation(&self, start_ms: int, end_ms: int) -> Option<
        TimeWindowViolation,
    > {
        let early = self.spec_early_ms(start_ms, end_ms);
        let late = self.spec_late_ms(start_ms, end_ms);
        if early == 0 && late == 0 {
            None
        } else {
            Some(
                TimeWindowViolation {
                    early_ms: early as i64,
                    late_ms: late as i64,
                    severity: if self.constraint_type == ConstraintType::Hard {
                        ViolationSeverity::Critical
                    } else {
                        ViolationSeverity::Minor
                    },
                },
            )
        }
    }

    /// Whether the early and the late time of an activity scheduled at
    /// `start_ms..end_ms` fit in 64 bits.
    pub open spec fn violation_fits(&self, start_ms: int, end_ms: int) -> bool {
        self.spec_early_ms(start_ms, end_ms) <= i64::MAX && self.spec_late_ms(start_ms, end_ms)
            <= i64::MAX
    }

    /// Checks an activity scheduled at `start_ms..end_ms` against the
    /// constraint, or returns `None` when the early or the late time does
    /// not fit in 64 bits. The inner value is `None` when no bound is
    /// violated, else by how much the activity is early and late.
    pub fn try_check_violation(&self, start_ms: i64, end_ms: i64) -> (r: Option<
        Option<TimeWindowViolation>,
    >)
        ensures
            r.is_some() == self.violation_fits(start_ms as int, end_ms as int),
            r.is_some() ==> r.unwrap() == self.spec_check_violation(start_ms as int, end_ms as int),
    {
        let mut early: i128 = 0;
        let mut late: i128 = 0;
        match self.earliest_start_ms {
            Some(b) => if start_ms < b {
                early = early + (b as i128 - start_ms as i128);
            },
            None => {},
        }
        match self.latest_start_ms {
            Some(b) => if start_ms > b {
                late = late + (start_ms as i128 - b as i128);
            },
            None => {},
        }
        match self.earliest_end_ms {
            Some(b) => if end_ms < b {
                early = early + (b as i128 - end_ms as i128);
            },
            None => {},
        }
        match self.latest_end_ms {
            Some(b) => if end_ms > b {
                late = late + (end_ms as i128 - b as i128);
            },
            None => {},
        }
        if early > i64::MAX as i128 || late > i64::MAX as i128 {
            return None;
        }
        if early == 0 && late == 0 {
            return Some(None);
        }
        let severity = match self.constraint_type {
            ConstraintType::Hard => ViolationSeverity::Critical,
            ConstraintType::Soft => ViolationSeverity::Minor,
        };
        Some(Some(TimeWindowViolation { early_ms: early as i64, late_ms: late as i64, severity }))
    }

    /// Checks an activity scheduled at `start_ms..end_ms` against the
    /// constraint. Returns `None` when no bound is violated, else by how
    /// much the activity is early and late.
    pub fn check_violation(&self, start_ms: i64, end_ms: i64) -> (r: Option<TimeWindowViolation>)
        requires
            self.violation_fits(start_ms as int, end_ms as int),
        ensures
            r == self.spec_check_violation(start_ms as int, end_ms as int),
            r.is_none() == (self.spec_early_ms(start_ms as int, end_ms as int) == 0
                && self.spec_late_ms(start_ms as int, end_ms as int) == 0),
    {
        match self.try_check_violation(start_ms, end_ms) {
            Some(r) => r,
            None => unreached(),
        }
    }
}

impl Default for ActivityTimeConstraint {
    /// A soft constraint without bounds.
    fn default() -> (c: Self)
        ensures
            c.earliest_start_ms.is_none(),
            c.latest_start_ms.is_none(),
            c.earliest_end_ms.is_none(),
            c.latest_end_ms.is_none(),
            c.constraint_type == ConstraintType::Soft,
    {
        ActivityTimeConstraint::new()
    }
}

/// Three-point estimate of a duration: optimistic, most likely, pessimistic.
#[derive(Debug, Clone, Copy, PartialEq, Eq, Structural)]
pub struct PertEstimate {
    /// Duration in the best case.
    pub optimistic_ms: i64,
    /// Duration under normal conditions.
    pub most_likely_ms: i64,
    /// Duration in the worst case.
    pub pessimistic_ms: i64,
}

impl PertEstimate {
    /// An estimate from its three points.
    pub fn new(optimistic_ms: i64, most_likely_ms: i64, pessimistic_ms: i64) -> (e: Self)
        ensures
            e == (PertEstimate { optimistic_ms, most_likely_ms, pessimistic_ms }),
    {
        PertEstimate { optimistic_ms, most_likely_ms, pessimistic_ms }
    }

    /// An estimate that spreads equally to both sides of the most likely duration.
    pub fn symmetric(most_likely_ms: i64, spread_ms: i64) -> (e: Self)
        requires
            i64::MIN <= most_likely_ms - spread_ms <= i64::MAX,
            i64::MIN <= most_likely_ms + spread_ms <= i64::MAX,
        ensures
            e == (PertEstimate {
                optimistic_ms: (most_likely_ms - spread_ms) as i64,
                most_likely_ms,
                pessimistic_ms: (most_likely_ms + spread_ms) as i64,
            }),
    {
        PertEstimate {
            optimistic_ms: most_likely_ms - spread_ms,
            most_likely_ms,
            pessimistic_ms: most_likely_ms + spread_ms,
        }
    }
}

impl Default for PertEstimate {
    /// The estimate of a duration of 0.
    fn default() -> (e: Self)
        ensures
            e == (PertEstimate { optimistic_ms: 0, most_likely_ms: 0, pessimistic_ms: 0 }),
    {
        PertEstimate { optimistic_ms: 0, most_likely_ms: 0, pessimistic_ms: 0 }
    }
}

} // verus!
