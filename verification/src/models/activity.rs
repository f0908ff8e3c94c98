//! Activities: the smallest schedulable unit of work.
//!
//! An activity belongs to a task, has a duration triple (setup, process,
//! teardown) and lists the resources that may carry it out.

use vstd::prelude::*;
use crate::collections::{slice_texts, texts, StringMap};

verus! {

/// Time components of an activity, in milliseconds.
#[derive(Debug, Clone)]
pub struct ActivityDuration {
    /// Preparation time before processing.
    pub setup_ms: i64,
    /// Core processing time.
    pub process_ms: i64,
    /// Clean-up time after processing.
    pub teardown_ms: i64,
}

impl ActivityDuration {
    /// Sum of the three components as a mathematical integer.
    pub open spec fn spec_total_ms(&self) -> int {
        self.setup_ms + self.process_ms + self.teardown_ms
    }

    /// A duration with all three components.
    pub fn new(setup_ms: i64, process_ms: i64, teardown_ms: i64) -> (d: Self)
        ensures
            d == (ActivityDuration { setup_ms, process_ms, teardown_ms }),
    {
        ActivityDuration { setup_ms, process_ms, teardown_ms }
    }

    /// A duration that is all processing: no setup, no teardown.
    pub fn fixed(process_ms: i64) -> (d: Self)
        ensures
            d == (ActivityDuration { setup_ms: 0, process_ms, teardown_ms: 0 }),
    {
        ActivityDuration { setup_ms: 0, process_ms, teardown_ms: 0 }
    }

    /// Setup plus processing plus teardown.
    pub fn total_ms(&self) -> (total: i64)
        requires
            i64::MIN <= self.spec_total_ms() <= i64::MAX,
        ensures
            total == self.spec_total_ms(),
    {
        let wide: i128 = self.setup_ms as i128 + self.process_ms as i128 + self.teardown_ms as i128;
        wide as i64
    }
}

impl Default for ActivityDuration {
    /// The zero duration.
    fn default() -> (d: Self)
        ensures
            d == (ActivityDuration { setup_ms: 0, process_ms: 0, teardown_ms: 0 }),
    {
        ActivityDuration { setup_ms: 0, process_ms: 0, teardown_ms: 0 }
    }
}

/// What an activity needs from the resource pool.
#[derive(Debug, Clone)]
pub struct ResourceRequirement {
    /// Required resource type (for example "Machine" or "Operator").
    pub resource_type: String,
    /// Number of units needed at the same time.
    pub quantity: i32,
    /// Identifiers of the resources that may fulfil the requirement.
    /// Empty means any resource of the type.
    pub candidates: Vec<String>,
    /// Skills the resource must have.
    pub required_skills: Vec<String>,
}

impl ResourceRequirement {
    /// A requirement for one unit of `resource_type`, with no candidates and no skills.
    pub fn new(resource_type: &str) -> (r: Self)
        ensures
            r.resource_type@ == resource_type@,
            r.quantity == 1,
            r.candidates@ == Seq::<String>::empty(),
            r.required_skills@ == Seq::<String>::empty(),
    {
        ResourceRequirement {
            resource_type: resource_type.to_owned(),
            quantity: 1,
            candidates: Vec::new(),
            required_skills: Vec::new(),
        }
    }

    /// Sets the required quantity.
    pub fn with_quantity(self, quantity: i32) -> (r: Self)
        ensures
            r == (ResourceRequirement { quantity, ..self }),
    {
        let mut r = self;
        r.quantity = quantity;
        r
    }

    /// Replaces the candidate list.
    pub fn with_candidates(self, candidates: Vec<String>) -> (r: Self)
        ensures
            r == (ResourceRequirement { candidates, ..self }),
    {
        let mut r = self;
        r.candidates = candidates;
        r
    }

    /// Appends a required skill.
    pub fn with_skill(self, skill: &str) -> (r: Self)
        ensures
            texts(r.required_skills@) == texts(self.required_skills@).push(skill@),
            r == (ResourceRequirement { required_skills: r.required_skills, ..self }),
    {
        let mut r = self;
        r.required_skills.push(skill.to_owned());
        assert(texts(r.required_skills@) =~= texts(self.required_skills@).push(skill@));
        r
    }
}

/// The candidate identifiers of a list of requirements, one list after the other.
pub open spec fn candidate_texts(reqs: Seq<ResourceRequirement>) -> Seq<Seq<char>>
    decreases reqs.len(),
{
    if reqs.len() == 0 {
        Seq::empty()
    } else {
        candidate_texts(reqs.drop_last()) + texts(reqs.last().candidates@)
    }
}

/// An activity (operation) to be scheduled.
#[derive(Debug, Clone)]
pub struct Activity {
    /// Unique activity identifier.
    pub id: String,
    /// Identifier of the task the activity belongs to.
    pub task_id: String,
    /// Position within the task, counted from 0.
    pub sequence: i32,
    /// Time needed to carry the activity out.
    pub duration: ActivityDuration,
    /// Resources needed.
    pub resource_requirements: Vec<ResourceRequirement>,
    /// Identifiers of the activities that must be complete before this one starts.
    pub predecessors: Vec<String>,
    /// Whether the activity may be interrupted and resumed.
    pub splittable: bool,
    /// Smallest duration of a split segment, in milliseconds.
    pub min_split_ms: i64,
    /// Free-form metadata.
    pub attributes: StringMap<String>,
}

impl Activity {
    /// The candidate resource identifiers of the activity, over all its requirements.
    pub open spec fn spec_candidates(&self) -> Seq<Seq<char>> {
        candidate_texts(self.resource_requirements@)
    }

    /// A new activity with zero duration, no requirements and no predecessors.
    pub fn new(id: &str, task_id: &str, sequence: i32) -> (a: Self)
        ensures
            a.id@ == id@,
            a.task_id@ == task_id@,
            a.sequence == sequence,
            a.duration == (ActivityDuration { setup_ms: 0, process_ms: 0, teardown_ms: 0 }),
            a.resource_requirements@ == Seq::<ResourceRequirement>::empty(),
            a.predecessors@ == Seq::<String>::empty(),
            !a.splittable,
            a.min_split_ms == 0,
            a.attributes@ == Map::<Seq<char>, String>::empty(),
    {
        Activity {
            id: id.to_owned(),
            task_id: task_id.to_owned(),
            sequence,
            duration: ActivityDuration::fixed(0),
            resource_requirements: Vec::new(),
            predecessors: Vec::new(),
            splittable: false,
            min_split_ms: 0,
            attributes: StringMap::new(),
        }
    }

    /// Sets the duration.
    pub fn with_duration(self, duration: ActivityDuration) -> (a: Self)
        ensures
            a == (Activity { duration, ..self }),
    {
        let mut a = self;
        a.duration = duration;
        a
    }

    /// Sets the processing time; setup and teardown become 0.
    pub fn with_process_time(self, process_ms: i64) -> (a: Self)
        ensures
            a == (Activity {
                duration: ActivityDuration { setup_ms: 0, process_ms, teardown_ms: 0 },
                ..self
            }),
    {
        let mut a = self;
        a.duration = ActivityDuration::fixed(process_ms);
        a
    }

    /// Appends a resource requirement.
    pub fn with_requirement(self, req: ResourceRequirement) -> (a: Self)
        ensures
            a == (Activity { resource_requirements: a.resource_requirements, ..self }),
            a.resource_requirements@ == self.resource_requirements@.push(req),
            a.spec_candidates() == self.spec_candidates() + texts(req.candidates@),
    {
        let mut a = self;
        a.resource_requirements.push(req);
        assert(a.resource_requirements@.drop_last() =~= self.resource_requirements@);
        a
    }

    /// Appends a predecessor identifier.
    pub fn with_predecessor(self, predecessor_id: &str) -> (a: Self)
        ensures
            a == (Activity { predecessors: a.predecessors, ..self }),
            texts(a.predecessors@) == texts(self.predecessors@).push(predecessor_id@),
    {
        let mut a = self;
        a.predecessors.push(predecessor_id.to_owned());
        assert(texts(a.predecessors@) =~= texts(self.predecessors@).push(predecessor_id@));
        a
    }

    /// Marks the activity as splittable, with a smallest segment size.
    pub fn with_splitting(self, min_split_ms: i64) -> (a: Self)
        ensures
            a == (Activity { splittable: true, min_split_ms, ..self }),
    {
        let mut a = self;
        a.splittable = true;
        a.min_split_ms = min_split_ms;
        a
    }

    /// All candidate resource identifiers, requirement by requirement, in order.
    pub fn candidate_resources(&self) -> (out: Vec<&str>)
        ensures
            slice_texts(out@) == self.spec_candidates(),
    {
        let mut out: Vec<&str> = Vec::new();
        let mut i: usize = 0;
        assert(self.resource_requirements@.take(0) =~= Seq::<ResourceRequirement>::empty());
        while i < self.resource_requirements.len()
            invariant
                i <= self.resource_requirements@.len(),
                slice_texts(out@) == candidate_texts(self.resource_requirements@.take(i as int)),
            decreases self.resource_requirements@.len() - i,
        {
            let req = &self.resource_requirements[i];
            let ghost base = slice_texts(out@);
            let mut j: usize = 0;
            while j < req.candidates.len()
                invariant
                    j <= req.candidates@.len(),
                    slice_texts(out@) == base + texts(req.candidates@).take(j as int),
                decreases req.candidates@.len() - j,
            {
                let ghost before = slice_texts(out@);
                out.push(req.candidates[j].as_str());
                j += 1;
                proof {
                    let grown = texts(req.candidates@).take(j as int);
                    assert(slice_texts(out@) =~= before.push(req.candidates@[j - 1]@));
                    assert(grown =~= texts(req.candidates@).take(j - 1).push(
                        req.candidates@[j - 1]@,
                    ));
                    assert(slice_texts(out@) =~= base + grown);
                }
            }
            proof {
                let next = self.resource_requirements@.take(i as int + 1);
                assert(next.drop_last() =~= self.resource_requirements@.take(i as int));
                assert(next.last() == *req);
                assert(texts(req.candidates@).take(j as int) =~= texts(req.candidates@));
            }
            i += 1;
        }
        assert(self.resource_requirements@.take(i as int) =~= self.resource_requirements@);
        out
    }
}

} // verus!
