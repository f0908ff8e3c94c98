//! The chromosome: an operation sequence and a machine assignment.
//!
//! The operation sequence lists task identifiers; the k-th occurrence of a
//! task stands for its k-th activity. The machine assignment holds, for
//! every activity of the activity list, the resource it runs on.

use vstd::prelude::*;
use rand::rngs::SmallRng;
use crate::collections::{copy_texts, count_text, texts, StringMap};
use crate::ga::problem::{info_task_ids, info_views, ActivityInfo, ActivityInfoView};
use crate::ga::random::{choose_text, shuffle_texts};

verus! {

/// How good a chromosome is, as far as it is known.
#[derive(Debug, Clone, Copy, PartialEq, Eq, Structural)]
pub enum Fitness {
    /// The chromosome has not been evaluated. Worse than every score.
    Unevaluated,
    /// The makespan and the total tardiness of the decoded schedule. The
    /// fitness is a weighted sum of the two; lower is better.
    Scored { makespan_ms: i64, total_tardiness_ms: i64 },
}

/// A processing time of an activity on a resource.
#[derive(Debug, Clone)]
pub struct ProcessTime {
    /// Identifier of the task.
    pub task_id: String,
    /// Position of the activity within its task, counted from 1.
    pub sequence: i32,
    /// Identifier of the resource.
    pub resource_id: String,
    /// Processing time in milliseconds.
    pub process_ms: i64,
}

impl ProcessTime {
    /// Whether the entry is about the given activity on the given resource.
    pub open spec fn is_for(&self, task_id: Seq<char>, sequence: int, resource_id: Seq<char>) -> bool {
        self.task_id@ == task_id && self.sequence == sequence && self.resource_id@ == resource_id
    }
}

/// The processing time that the last matching entry gives, if any.
pub open spec fn lookup_time(
    entries: Seq<ProcessTime>,
    task_id: Seq<char>,
    sequence: int,
    resource_id: Seq<char>,
) -> Option<i64>
    decreases entries.len(),
{
    if entries.len() == 0 {
        None
    } else if entries.last().is_for(task_id, sequence, resource_id) {
        Some(entries.last().process_ms)
    } else {
        lookup_time(entries.drop_last(), task_id, sequence, resource_id)
    }
}

/// Processing times per activity and resource.
#[derive(Debug, Clone)]
pub struct ProcessTimes {
    /// The entries; of two entries for the same activity and resource the
    /// later one counts.
    pub entries: Vec<ProcessTime>,
}

impl ProcessTimes {
    /// The processing time of an activity on a resource, if one is given.
    pub open spec fn spec_get(&self, task_id: Seq<char>, sequence: int, resource_id: Seq<char>) -> Option<i64> {
        lookup_time(self.entries@, task_id, sequence, resource_id)
    }

    /// No processing times.
    pub fn new() -> (t: Self)
        ensures
            t.entries@ == Seq::<ProcessTime>::empty(),
    {
        ProcessTimes { entries: Vec::new() }
    }

    /// Sets the processing time of an activity on a resource, replacing an
    /// earlier one; the other processing times stay as they are.
    pub fn with_time(self, task_id: &str, sequence: i32, resource_id: &str, process_ms: i64) -> (t: Self)
        ensures
            t.spec_get(task_id@, sequence as int, resource_id@) == Some(process_ms),
            forall|a: Seq<char>, s: int, r: Seq<char>|
                !(a == task_id@ && s == sequence && r == resource_id@) ==> #[trigger] t.spec_get(
                    a,
                    s,
                    r,
                ) == self.spec_get(a, s, r),
            t.entries@.len() == self.entries@.len() + 1,
            t.entries@.drop_last() == self.entries@,
            t.entries@.last().is_for(task_id@, sequence as int, resource_id@),
            t.entries@.last().process_ms == process_ms,
    {
        let mut t = self;
        t.entries.push(
            ProcessTime {
                task_id: task_id.to_owned(),
                sequence,
                resource_id: resource_id.to_owned(),
                process_ms,
            },
        );
        assert(t.entries@.drop_last() =~= self.entries@);
        t
    }

    /// The processing time of an activity on a resource, if one is given.
    pub fn get(&self, task_id: &String, sequence: i32, resource_id: &String) -> (r: Option<i64>)
        ensures
            r == self.spec_get(task_id@, sequence as int, resource_id@),
    {
        let mut i: usize = self.entries.len();
        assert(self.entries@.take(i as int) =~= self.entries@);
        while i > 0
            invariant
                i <= self.entries@.len(),
                self.spec_get(task_id@, sequence as int, resource_id@) == lookup_time(
                    self.entries@.take(i as int),
                    task_id@,
                    sequence as int,
                    resource_id@,
                ),
            decreases i,
        {
            let e = &self.entries[i - 1];
            proof {
                assert(self.entries@.take(i as int).drop_last() =~= self.entries@.take(i as int - 1));
                assert(self.entries@.take(i as int).last() == *e);
            }
            if e.task_id == *task_id && e.sequence == sequence && e.resource_id == *resource_id {
                return Some(e.process_ms);
            }
            i -= 1;
        }
        None
    }
}

/// Position `i` holds the smallest value, and no earlier position does.
pub open spec fn is_first_minimum(values: Seq<int>, i: int) -> bool {
    &&& 0 <= i < values.len()
    &&& forall|j: int| 0 <= j < values.len() ==> values[i] <= #[trigger] values[j]
    &&& forall|j: int| 0 <= j < i ==> values[i] < #[trigger] values[j]
}

/// The first position that holds the smallest value.
pub open spec fn first_minimum(values: Seq<int>) -> int {
    choose|i: int| is_first_minimum(values, i)
}

/// The first position of the smallest value is unique.
pub proof fn lemma_first_minimum(values: Seq<int>, i: int)
    requires
        is_first_minimum(values, i),
    ensures
        first_minimum(values) == i,
{
    let c = first_minimum(values);
    assert(is_first_minimum(values, c));
    if c < i {
        assert(values[i] < values[c]);
        assert(values[c] <= values[i]);
    } else if i < c {
        assert(values[c] < values[i]);
        assert(values[i] <= values[c]);
    }
}

/// The values as mathematical integers.
pub open spec fn as_ints(values: Seq<i64>) -> Seq<int> {
    Seq::new(values.len(), |i: int| values[i] as int)
}

/// The first position that holds the smallest value.
fn first_minimum_of(values: &Vec<i64>) -> (best: usize)
    requires
        values@.len() > 0,
    ensures
        is_first_minimum(as_ints(values@), best as int),
        best == first_minimum(as_ints(values@)),
{
    let mut best: usize = 0;
    let mut i: usize = 1;
    while i < values.len()
        invariant
            1 <= i <= values@.len(),
            best < i,
            forall|j: int| 0 <= j < i ==> values@[best as int] <= #[trigger] values@[j],
            forall|j: int| 0 <= j < best ==> values@[best as int] < #[trigger] values@[j],
        decreases values@.len() - i,
    {
        if values[i] < values[best] {
            best = i;
        }
        i += 1;
    }
    proof {
        let ints = as_ints(values@);
        assert forall|j: int| 0 <= j < ints.len() implies ints[best as int] <= #[trigger] ints[j] by {
            assert(values@[best as int] <= values@[j]);
        }
        assert forall|j: int| 0 <= j < best implies ints[best as int] < #[trigger] ints[j] by {
            assert(values@[best as int] < values@[j]);
        }
        lemma_first_minimum(ints, best as int);
    }
    best
}

/// Every entry of the machine assignment whose activity has candidates is
/// one of them.
pub open spec fn mav_feasible(mav: Seq<Seq<char>>, activities: Seq<ActivityInfoView>) -> bool {
    &&& mav.len() == activities.len()
    &&& forall|i: int|
        0 <= i < mav.len() && activities[i].candidates.len() > 0 ==> activities[i].candidates.contains(
            #[trigger] mav[i],
        )
}

/// The operation sequence holds every task identifier as often as the task
/// has activities.
pub open spec fn osv_complete(osv: Seq<Seq<char>>, activities: Seq<ActivityInfoView>) -> bool {
    osv.to_multiset() == info_task_ids(activities).to_multiset()
}

/// The load of every candidate: what the map says, 0 for a candidate it
/// does not know.
pub open spec fn candidate_loads(load: Map<Seq<char>, int>, candidates: Seq<Seq<char>>) -> Seq<int> {
    Seq::new(
        candidates.len(),
        |i: int| if load.contains_key(candidates[i]) { load[candidates[i]] } else { 0 },
    )
}

/// Machine assignment and load while balancing.
pub struct Balance {
    /// The resources assigned so far.
    pub mav: Seq<Seq<char>>,
    /// The processing time assigned to every resource so far.
    pub load: Map<Seq<char>, int>,
}

/// The balance after one more activity: the activity goes to its candidate
/// with the smallest load, the first of them on a tie, and adds its
/// processing time to that load. An activity without candidates gets the
/// empty identifier.
pub open spec fn balance_step(b: Balance, a: ActivityInfoView) -> Balance {
    if a.candidates.len() == 0 {
        Balance { mav: b.mav.push(Seq::empty()), load: b.load }
    } else {
        let c = a.candidates[first_minimum(candidate_loads(b.load, a.candidates))];
        let before = if b.load.contains_key(c) { b.load[c] } else { 0 };
        Balance { mav: b.mav.push(c), load: b.load.insert(c, before + a.process_ms) }
    }
}

/// The balance after the first `n` activities.
pub open spec fn balanced(activities: Seq<ActivityInfoView>, n: int) -> Balance
    decreases n,
{
    if n <= 0 {
        Balance { mav: Seq::empty(), load: Map::empty() }
    } else {
        balance_step(balanced(activities, n - 1), activities[n - 1])
    }
}

/// Every load that balancing computes fits in 64 bits.
pub open spec fn loads_fit(activities: Seq<ActivityInfoView>) -> bool {
    forall|n: int, r: Seq<char>|
        0 <= n <= activities.len() && (#[trigger] balanced(activities, n)).load.contains_key(r)
            ==> i64::MIN <= #[trigger] balanced(activities, n).load[r] <= i64::MAX
}

/// The processing time of every candidate of an activity: what the table
/// gives, else the processing time of the activity.
pub open spec fn candidate_times(times: ProcessTimes, a: ActivityInfoView) -> Seq<int> {
    Seq::new(
        a.candidates.len(),
        |i: int|
            match times.spec_get(a.task_id, a.sequence, a.candidates[i]) {
                Some(ms) => ms as int,
                None => a.process_ms,
            },
    )
}

/// The resource on which an activity runs shortest, the first of them on a
/// tie; the empty identifier for an activity without candidates.
pub open spec fn shortest_choice(times: ProcessTimes, a: ActivityInfoView) -> Seq<char> {
    if a.candidates.len() == 0 {
        Seq::empty()
    } else {
        a.candidates[first_minimum(candidate_times(times, a))]
    }
}

/// The key of every activity: its task identifier and its sequence number.
pub open spec fn info_keys(activities: Seq<ActivityInfoView>) -> Seq<(Seq<char>, int)> {
    Seq::new(activities.len(), |i: int| (activities[i].task_id, activities[i].sequence))
}

/// The keys of an activity index.
pub open spec fn key_views(keys: Seq<(String, i32)>) -> Seq<(Seq<char>, int)> {
    Seq::new(keys.len(), |i: int| (keys[i].0@, keys[i].1 as int))
}

/// The last position of `keys` that holds `key`.
pub open spec fn is_last_index(keys: Seq<(Seq<char>, int)>, key: (Seq<char>, int), i: int) -> bool {
    &&& 0 <= i < keys.len()
    &&& keys[i] == key
    &&& forall|j: int| i < j < keys.len() ==> keys[j] != key
}

/// What a chromosome holds.
pub struct ChromosomeView {
    pub osv: Seq<Seq<char>>,
    pub mav: Seq<Seq<char>>,
    pub activity_index: Seq<(Seq<char>, int)>,
    pub fitness: Fitness,
}

/// A chromosome of the scheduling genetic algorithm.
#[derive(Debug)]
pub struct ScheduleChromosome {
    /// Operation sequence: task identifiers in execution order.
    pub osv: Vec<String>,
    /// Machine assignment: one resource identifier per activity.
    pub mav: Vec<String>,
    /// The key of every activity; the position of a key is the position of
    /// the activity in the machine assignment. Of two equal keys the last
    /// counts.
    pub activity_index: Vec<(String, i32)>,
    /// How good the chromosome is.
    pub fitness: Fitness,
}

impl View for ScheduleChromosome {
    type V = ChromosomeView;

    /// What the chromosome holds.
    open spec fn view(&self) -> ChromosomeView {
        ChromosomeView {
            osv: texts(self.osv@),
            mav: texts(self.mav@),
            activity_index: key_views(self.activity_index@),
            fitness: self.fitness,
        }
    }
}

/// A copy of an activity index.
pub fn copy_keys(keys: &Vec<(String, i32)>) -> (out: Vec<(String, i32)>)
    ensures
        key_views(out@) == key_views(keys@),
{
    let mut out: Vec<(String, i32)> = Vec::new();
    let mut i: usize = 0;
    while i < keys.len()
        invariant
            i <= keys@.len(),
            out@.len() == i,
            forall|j: int|
                0 <= j < i ==> (#[trigger] out@[j]).0@ == keys@[j].0@ && out@[j].1 == keys@[j].1,
        decreases keys@.len() - i,
    {
        out.push((keys[i].0.clone(), keys[i].1));
        i += 1;
    }
    assert(key_views(out@) =~= key_views(keys@));
    out
}

impl Clone for ScheduleChromosome {
    /// A copy that holds the same values.
    fn clone(&self) -> (c: Self)
        ensures
            c@ == self@,
    {
        ScheduleChromosome {
            osv: copy_texts(&self.osv),
            mav: copy_texts(&self.mav),
            activity_index: copy_keys(&self.activity_index),
            fitness: self.fitness,
        }
    }
}

/// The key of every activity.
fn index_activities(activities: &[ActivityInfo]) -> (keys: Vec<(String, i32)>)
    ensures
        key_views(keys@) == info_keys(info_views(activities@)),
{
    let mut keys: Vec<(String, i32)> = Vec::new();
    let mut i: usize = 0;
    while i < activities.len()
        invariant
            i <= activities@.len(),
            keys@.len() == i,
            forall|j: int|
                0 <= j < i ==> (#[trigger] keys@[j]).0@ == activities@[j].task_id@ && keys@[j].1
                    == activities@[j].sequence,
        decreases activities@.len() - i,
    {
        keys.push((activities[i].task_id.clone(), activities[i].sequence));
        i += 1;
    }
    assert(key_views(keys@) =~= info_keys(info_views(activities@)));
    keys
}

impl ScheduleChromosome {
    /// The chromosome is valid for the activities: both vectors have one
    /// entry per activity, the operation sequence holds every task as often
    /// as it has activities, and every resource is a candidate of its
    /// activity.
    pub open spec fn spec_is_valid(&self, activities: Seq<ActivityInfoView>) -> bool {
        &&& self.osv@.len() == activities.len()
        &&& osv_complete(texts(self.osv@), activities)
        &&& mav_feasible(texts(self.mav@), activities)
    }

    /// The activity that every entry of the operation sequence stands for:
    /// its task and the number of the occurrence, counted from 1.
    pub open spec fn spec_decode_osv(&self) -> Seq<(Seq<char>, int)> {
        Seq::new(
            self.osv@.len(),
            |i: int|
                (
                    self.osv@[i]@,
                    texts(self.osv@).take(i + 1).to_multiset().count(self.osv@[i]@) as int,
                ),
        )
    }

    /// The resource assigned to an activity: the entry of the machine
    /// assignment at the last position at which the index holds the key.
    pub open spec fn spec_resource_for(&self, task_id: Seq<char>, sequence: int) -> Option<Seq<char>> {
        let keys = key_views(self.activity_index@);
        if exists|i: int| is_last_index(keys, (task_id, sequence), i) {
            let i = choose|i: int| is_last_index(keys, (task_id, sequence), i);
            if i < self.mav@.len() {
                Some(self.mav@[i]@)
            } else {
                None
            }
        } else {
            None
        }
    }

    /// A random operation sequence for the activities, with the index of
    /// their keys.
    fn create_random_osv(activities: &[ActivityInfo], rng: &mut SmallRng) -> (r: (
        Vec<String>,
        Vec<(String, i32)>,
    ))
        ensures
            r.0@.len() == activities@.len(),
            osv_complete(texts(r.0@), info_views(activities@)),
            key_views(r.1@) == info_keys(info_views(activities@)),
    {
        let mut osv: Vec<String> = Vec::new();
        let mut i: usize = 0;
        while i < activities.len()
            invariant
                i <= activities@.len(),
                osv@.len() == i,
                forall|j: int| 0 <= j < i ==> (#[trigger] osv@[j])@ == activities@[j].task_id@,
            decreases activities@.len() - i,
        {
            osv.push(activities[i].task_id.clone());
            i += 1;
        }
        assert(texts(osv@) =~= info_task_ids(info_views(activities@)));
        shuffle_texts(&mut osv, rng);
        (osv, index_activities(activities))
    }

    /// A random machine assignment: for every activity one of its
    /// candidates, the empty identifier when it has none.
    fn create_random_mav(activities: &[ActivityInfo], rng: &mut SmallRng) -> (mav: Vec<String>)
        ensures
            mav_feasible(texts(mav@), info_views(activities@)),
            forall|i: int|
                0 <= i < activities@.len() && activities@[i].candidates@.len() == 0 ==> (
                #[trigger] mav@[i])@ == Seq::<char>::empty(),
    {
        let mut mav: Vec<String> = Vec::new();
        let mut i: usize = 0;
        while i < activities.len()
            invariant
                i <= activities@.len(),
                mav@.len() == i,
                forall|j: int|
                    0 <= j < i && activities@[j].candidates@.len() > 0 ==> texts(
                        activities@[j].candidates@,
                    ).contains((#[trigger] mav@[j])@),
                forall|j: int|
                    0 <= j < i && activities@[j].candidates@.len() == 0 ==> (#[trigger] mav@[j])@
                        == Seq::<char>::empty(),
            decreases activities@.len() - i,
        {
            if activities[i].candidates.len() == 0 {
                mav.push(String::new());
            } else {
                mav.push(choose_text(&activities[i].candidates, rng));
            }
            i += 1;
        }
        proof {
            let views = info_views(activities@);
            assert forall|j: int|
                0 <= j < texts(mav@).len() && views[j].candidates.len()
                    > 0 implies views[j].candidates.contains(#[trigger] texts(mav@)[j]) by {
                assert(texts(activities@[j].candidates@).contains(mav@[j]@));
            }
        }
        mav
    }

    /// The machine assignment that gives every activity the resource on
    /// which it runs shortest.
    fn create_shortest_time_mav(activities: &[ActivityInfo], process_times: &ProcessTimes) -> (mav:
        Vec<String>)
        ensures
            mav@.len() == activities@.len(),
            forall|i: int|
                0 <= i < activities@.len() ==> (#[trigger] mav@[i])@ == shortest_choice(
                    *process_times,
                    activities@[i]@,
                ),
            mav_feasible(texts(mav@), info_views(activities@)),
    {
        let mut mav: Vec<String> = Vec::new();
        let mut i: usize = 0;
        while i < activities.len()
            invariant
                i <= activities@.len(),
                mav@.len() == i,
                forall|j: int|
                    0 <= j < i ==> (#[trigger] mav@[j])@ == shortest_choice(
                        *process_times,
                        activities@[j]@,
                    ),
            decreases activities@.len() - i,
        {
            let act = &activities[i];
            if act.candidates.len() == 0 {
                mav.push(String::new());
            } else {
                let mut values: Vec<i64> = Vec::new();
                let mut c: usize = 0;
                while c < act.candidates.len()
                    invariant
                        c <= act.candidates@.len(),
                        values@.len() == c,
                        forall|j: int|
                            0 <= j < c ==> (#[trigger] values@[j]) as int == candidate_times(
                                *process_times,
                                act@,
                            )[j],
                    decreases act.candidates@.len() - c,
                {
                    let ms = match process_times.get(&act.task_id, act.sequence, &act.candidates[c]) {
                        Some(ms) => ms,
                        None => act.process_ms,
                    };
                    values.push(ms);
                    c += 1;
                }
                assert(as_ints(values@) =~= candidate_times(*process_times, act@));
                let best = first_minimum_of(&values);
                mav.push(act.candidates[best].clone());
            }
            i += 1;
        }
        proof {
            let views = info_views(activities@);
            assert forall|j: int|
                0 <= j < texts(mav@).len() && views[j].candidates.len()
                    > 0 implies views[j].candidates.contains(#[trigger] texts(mav@)[j]) by {
                let a = activities@[j]@;
                let values = candidate_times(*process_times, a);
                let b = first_minimum(values);
                assert(mav@[j]@ == shortest_choice(*process_times, a));
                lemma_first_minimum_exists(values);
                assert(a.candidates[b] == mav@[j]@);
            }
        }
        mav
    }

    /// A random chromosome: a random operation sequence and, for every
    /// activity, a random candidate.
    pub fn random(activities: &[ActivityInfo], rng: &mut SmallRng) -> (c: Self)
        ensures
            c.spec_is_valid(info_views(activities@)),
            forall|i: int|
                0 <= i < activities@.len() && activities@[i].candidates@.len() == 0 ==> (
                #[trigger] c.mav@[i])@ == Seq::<char>::empty(),
            key_views(c.activity_index@) == info_keys(info_views(activities@)),
            c.fitness == Fitness::Unevaluated,
    {
        let (osv, activity_index) = Self::create_random_osv(activities, rng);
        let mav = Self::create_random_mav(activities, rng);
        ScheduleChromosome { osv, mav, activity_index, fitness: Fitness::Unevaluated }
    }

    /// A load-balanced chromosome, or `None` when a load does not fit in
    /// 64 bits: a random operation sequence, and a machine assignment that
    /// gives every activity, in list order, its least loaded candidate. The
    /// capacities of the resources are not taken into account.
    pub fn try_with_load_balancing(
        activities: &[ActivityInfo],
        resource_capacity: &StringMap<i64>,
        rng: &mut SmallRng,
    ) -> (r: Option<Self>)
        ensures
            r.is_some() == loads_fit(info_views(activities@)),
            r.is_some() ==> {
                let c = r.unwrap();
                &&& c.spec_is_valid(info_views(activities@))
                &&& texts(c.mav@) == balanced(info_views(activities@), activities@.len() as int).mav
                &&& key_views(c.activity_index@) == info_keys(info_views(activities@))
                &&& c.fitness == Fitness::Unevaluated
            },
    {
        let ghost views = info_views(activities@);
        let (osv, activity_index) = Self::create_random_osv(activities, rng);
        let mut load: StringMap<i64> = StringMap::new();
        let mut mav: Vec<String> = Vec::new();
        let mut i: usize = 0;
        while i < activities.len()
            invariant
                i <= activities@.len(),
                views == info_views(activities@),
                forall|n: int, r: Seq<char>|
                    0 <= n <= i && (#[trigger] balanced(views, n)).load.contains_key(r) ==> i64::MIN
                        <= #[trigger] balanced(views, n).load[r] <= i64::MAX,
                mav@.len() == i,
                texts(mav@) == balanced(views, i as int).mav,
                load@.dom() == balanced(views, i as int).load.dom(),
                forall|r: Seq<char>| #[trigger]
                    load@.contains_key(r) ==> load@[r] == balanced(views, i as int).load[r],
                forall|j: int|
                    0 <= j < i && views[j].candidates.len() > 0 ==> views[j].candidates.contains(
                        (#[trigger] mav@[j])@,
                    ),
            decreases activities@.len() - i,
        {
            let act = &activities[i];
            let ghost before = balanced(views, i as int);
            let ghost after = balanced(views, i as int + 1);
            assert(views[i as int] == act@);
            assert(after == balance_step(before, act@));
            let ghost old_texts = texts(mav@);
            if act.candidates.len() == 0 {
                mav.push(String::new());
                assert(texts(mav@) =~= old_texts.push(Seq::<char>::empty()));
            } else {
                let mut values: Vec<i64> = Vec::new();
                let mut c: usize = 0;
                while c < act.candidates.len()
                    invariant
                        c <= act.candidates@.len(),
                        values@.len() == c,
                        load@.dom() == before.load.dom(),
                        forall|r: Seq<char>| #[trigger]
                            load@.contains_key(r) ==> load@[r] == before.load[r],
                        forall|j: int|
                            0 <= j < c ==> (#[trigger] values@[j]) as int == candidate_loads(
                                before.load,
                                act@.candidates,
                            )[j],
                    decreases act.candidates@.len() - c,
                {
                    let so_far: i64 = match load.get(act.candidates[c].as_str()) {
                        Some(ms) => *ms,
                        None => 0,
                    };
                    values.push(so_far);
                    c += 1;
                }
                assert(as_ints(values@) =~= candidate_loads(before.load, act@.candidates));
                let best = first_minimum_of(&values);
                let chosen = act.candidates[best].clone();
                assert(chosen@ == act@.candidates[best as int]);
                let so_far: i64 = values[best];
                proof {
                    assert(after.load.contains_key(chosen@));
                    assert(after.load[chosen@] == so_far + act.process_ms);
                }
                let wide: i128 = so_far as i128 + act.process_ms as i128;
                if wide < i64::MIN as i128 || wide > i64::MAX as i128 {
                    return None;
                }
                let total = wide as i64;
                load.insert(chosen.clone(), total);
                mav.push(chosen);
                proof {
                    assert(texts(mav@) =~= old_texts.push(act@.candidates[best as int]));
                    assert(load@.dom() =~= after.load.dom());
                    assert(act@.candidates.contains(act@.candidates[best as int]));
                }
            }
            proof {
                assert forall|n: int, r: Seq<char>|
                    0 <= n <= i + 1 && (#[trigger] balanced(views, n)).load.contains_key(
                        r,
                    ) implies i64::MIN <= #[trigger] balanced(views, n).load[r] <= i64::MAX by {
                    if n == i + 1 {
                        if before.load.contains_key(r) && after.load[r] == before.load[r] {
                            assert(balanced(views, i as int).load.contains_key(r));
                        }
                    }
                }
            }
            i += 1;
        }
        proof {
            assert forall|j: int|
                0 <= j < texts(mav@).len() && views[j].candidates.len()
                    > 0 implies views[j].candidates.contains(#[trigger] texts(mav@)[j]) by {
                assert(views[j].candidates.contains(mav@[j]@));
            }
        }
        Some(ScheduleChromosome { osv, mav, activity_index, fitness: Fitness::Unevaluated })
    }

    /// A load-balanced chromosome: a random operation sequence, and a
    /// machine assignment that gives every activity, in list order, its
    /// least loaded candidate. The capacities of the resources are not
    /// taken into account.
    pub fn with_load_balancing(
        activities: &[ActivityInfo],
        resource_capacity: &StringMap<i64>,
        rng: &mut SmallRng,
    ) -> (c: Self)
        requires
            loads_fit(info_views(activities@)),
        ensures
            c.spec_is_valid(info_views(activities@)),
            texts(c.mav@) == balanced(info_views(activities@), activities@.len() as int).mav,
            key_views(c.activity_index@) == info_keys(info_views(activities@)),
            c.fitness == Fitness::Unevaluated,
    {
        match Self::try_with_load_balancing(activities, resource_capacity, rng) {
            Some(c) => c,
            None => unreached(),
        }
    }

    /// A chromosome with a random operation sequence and a machine
    /// assignment that gives every activity the candidate on which it runs
    /// shortest, the first of them on a tie.
    pub fn with_shortest_time(
        activities: &[ActivityInfo],
        process_times: &ProcessTimes,
        rng: &mut SmallRng,
    ) -> (c: Self)
        ensures
            c.spec_is_valid(info_views(activities@)),
            forall|i: int|
                0 <= i < activities@.len() ==> (#[trigger] c.mav@[i])@ == shortest_choice(
                    *process_times,
                    activities@[i]@,
                ),
            key_views(c.activity_index@) == info_keys(info_views(activities@)),
            c.fitness == Fitness::Unevaluated,
    {
        let (osv, activity_index) = Self::create_random_osv(activities, rng);
        let mav = Self::create_shortest_time_mav(activities, process_times);
        ScheduleChromosome { osv, mav, activity_index, fitness: Fitness::Unevaluated }
    }

    /// The activity that every entry of the operation sequence stands for.
    pub fn decode_osv(&self) -> (out: Vec<(String, i32)>)
        requires
            self.osv@.len() <= i32::MAX,
        ensures
            key_views(out@) == self.spec_decode_osv(),
    {
        let mut out: Vec<(String, i32)> = Vec::new();
        let mut i: usize = 0;
        while i < self.osv.len()
            invariant
                i <= self.osv@.len(),
                self.osv@.len() <= i32::MAX,
                out@.len() == i,
                forall|j: int|
                    0 <= j < i ==> (#[trigger] out@[j]).0@ == self.osv@[j]@ && out@[j].1
                        == texts(self.osv@).take(j + 1).to_multiset().count(self.osv@[j]@),
            decreases self.osv@.len() - i,
        {
            let k = count_text(&self.osv, i + 1, &self.osv[i]);
            out.push((self.osv[i].clone(), k as i32));
            i += 1;
        }
        assert(key_views(out@) =~= self.spec_decode_osv());
        out
    }

    /// The last position at which the index holds the key.
    fn position_of(&self, task_id: &String, sequence: i32) -> (r: Option<usize>)
        ensures
            match r {
                Some(i) => is_last_index(
                    key_views(self.activity_index@),
                    (task_id@, sequence as int),
                    i as int,
                ),
                None => forall|i: int|
                    !is_last_index(key_views(self.activity_index@), (task_id@, sequence as int), i),
            },
    {
        let ghost keys = key_views(self.activity_index@);
        let ghost key = (task_id@, sequence as int);
        let mut found: Option<usize> = None;
        let mut i: usize = 0;
        while i < self.activity_index.len()
            invariant
                i <= self.activity_index@.len(),
                keys == key_views(self.activity_index@),
                key == (task_id@, sequence as int),
                match found {
                    Some(f) => f < i && keys[f as int] == key && forall|j: int|
                        f < j < i ==> keys[j] != key,
                    None => forall|j: int| 0 <= j < i ==> keys[j] != key,
                },
            decreases self.activity_index@.len() - i,
        {
            assert(keys[i as int] == (self.activity_index@[i as int].0@, self.activity_index@[i as int].1 as int));
            if self.activity_index[i].0 == *task_id && self.activity_index[i].1 == sequence {
                found = Some(i);
            }
            i += 1;
        }
        found
    }

    /// The resource assigned to an activity, if the index knows the activity.
    pub fn resource_for(&self, task_id: &str, sequence: i32) -> (r: Option<&str>)
        ensures
            match r {
                Some(s) => self.spec_resource_for(task_id@, sequence as int) == Some(s@),
                None => self.spec_resource_for(task_id@, sequence as int).is_none(),
            },
    {
        let owned = task_id.to_owned();
        let ghost keys = key_views(self.activity_index@);
        let ghost key = (task_id@, sequence as int);
        match self.position_of(&owned, sequence) {
            Some(i) => {
                proof {
                    let c = choose|c: int| is_last_index(keys, key, c);
                    assert(is_last_index(keys, key, i as int));
                    if c < i {
                        assert(keys[i as int] != key);
                    } else if i < c {
                        assert(keys[c] != key);
                    }
                }
                if i < self.mav.len() {
                    Some(self.mav[i].as_str())
                } else {
                    None
                }
            },
            None => None,
        }
    }

    /// Assigns a resource to an activity. Nothing changes when the index
    /// does not know the activity.
    pub fn set_resource(&mut self, task_id: &str, sequence: i32, resource_id: String)
        ensures
            final(self).osv == old(self).osv,
            final(self).activity_index == old(self).activity_index,
            final(self).fitness == old(self).fitness,
            final(self).mav@.len() == old(self).mav@.len(),
            old(self).spec_resource_for(task_id@, sequence as int).is_none() ==> final(self).mav
                == old(self).mav,
            old(self).spec_resource_for(task_id@, sequence as int).is_some() ==> {
                &&& final(self).spec_resource_for(task_id@, sequence as int) == Some(resource_id@)
                &&& exists|i: int|
                    is_last_index(
                        key_views(old(self).activity_index@),
                        (task_id@, sequence as int),
                        i,
                    ) && final(self).mav@ == old(self).mav@.update(i, resource_id)
            },
    {
        let owned = task_id.to_owned();
        let ghost keys = key_views(self.activity_index@);
        let ghost key = (task_id@, sequence as int);
        match self.position_of(&owned, sequence) {
            Some(i) => {
                proof {
                    let c = choose|c: int| is_last_index(keys, key, c);
                    if c < i {
                        assert(keys[i as int] != key);
                    } else if i < c {
                        assert(keys[c] != key);
                    }
                }
                if i < self.mav.len() {
                    self.mav.set(i, resource_id);
                    proof {
                        let c2 = choose|c2: int|
                            is_last_index(key_views(self.activity_index@), key, c2);
                        assert(is_last_index(key_views(self.activity_index@), key, i as int));
                        if c2 < i {
                            assert(keys[i as int] != key);
                        } else if i < c2 {
                            assert(keys[c2] != key);
                        }
                    }
                }
            },
            None => {},
        }
    }

    /// Whether the chromosome is valid for the activities.
    pub fn is_valid(&self, activities: &[ActivityInfo]) -> (b: bool)
        ensures
            b == (self.spec_is_valid(info_views(activities@)) && self.mav@.len()
                == activities@.len()),
    {
        let ghost views = info_views(activities@);
        let n = activities.len();
        if self.osv.len() != n || self.mav.len() != n {
            return false;
        }
        let mut ids: Vec<String> = Vec::new();
        let mut i: usize = 0;
        while i < n
            invariant
                i <= n,
                n == activities@.len(),
                ids@.len() == i,
                forall|j: int| 0 <= j < i ==> (#[trigger] ids@[j])@ == activities@[j].task_id@,
            decreases n - i,
        {
            ids.push(activities[i].task_id.clone());
            i += 1;
        }
        let ghost wanted = info_task_ids(views);
        let ghost have = texts(self.osv@);
        assert(texts(ids@) =~= wanted);
        assert(have.take(n as int) =~= have);
        assert(wanted.take(n as int) =~= wanted);
        let mut k: usize = 0;
        while k < n
            invariant
                k <= n,
                n == activities@.len(),
                self.osv@.len() == n,
                ids@.len() == n,
                have == texts(self.osv@),
                wanted == texts(ids@),
                wanted == info_task_ids(info_views(activities@)),
                have.take(n as int) == have,
                wanted.take(n as int) == wanted,
                forall|j: int|
                    0 <= j < k ==> have.to_multiset().count(#[trigger] have[j])
                        == wanted.to_multiset().count(have[j]),
                forall|j: int|
                    0 <= j < k ==> have.to_multiset().count(#[trigger] wanted[j])
                        == wanted.to_multiset().count(wanted[j]),
            decreases n - k,
        {
            let a = count_text(&self.osv, n, &self.osv[k]);
            let b = count_text(&ids, n, &self.osv[k]);
            let c = count_text(&self.osv, n, &ids[k]);
            let d = count_text(&ids, n, &ids[k]);
            assert(have[k as int] == self.osv@[k as int]@);
            assert(wanted[k as int] == ids@[k as int]@);
            assert(a == have.to_multiset().count(have[k as int]));
            assert(b == wanted.to_multiset().count(have[k as int]));
            assert(c == have.to_multiset().count(wanted[k as int]));
            assert(d == wanted.to_multiset().count(wanted[k as int]));
            if a != b || c != d {
                assert(have.to_multiset() != wanted.to_multiset());
                assert(!osv_complete(texts(self.osv@), info_views(activities@)));
                return false;
            }
            k += 1;
        }
        proof {
            assert forall|x: Seq<char>| have.to_multiset().count(x) == wanted.to_multiset().count(
                x,
            ) by {
                vstd::seq_lib::to_multiset_contains(have, x);
                vstd::seq_lib::to_multiset_contains(wanted, x);
                if have.contains(x) {
                    let j = choose|j: int| 0 <= j < have.len() && have[j] == x;
                    assert(have.to_multiset().count(have[j]) == wanted.to_multiset().count(have[j]));
                } else if wanted.contains(x) {
                    let j = choose|j: int| 0 <= j < wanted.len() && wanted[j] == x;
                    assert(have.to_multiset().count(wanted[j]) == wanted.to_multiset().count(
                        wanted[j],
                    ));
                } else {
                    assert(have.to_multiset().count(x) == 0);
                    assert(wanted.to_multiset().count(x) == 0);
                }
            }
            assert(have.to_multiset() =~= wanted.to_multiset());
        }
        let mut m: usize = 0;
        while m < n
            invariant
                m <= n,
                n == activities@.len(),
                self.mav@.len() == n,
                views == info_views(activities@),
                forall|j: int|
                    0 <= j < m && views[j].candidates.len() > 0 ==> views[j].candidates.contains(
                        #[trigger] texts(self.mav@)[j],
                    ),
            decreases n - m,
        {
            let act = &activities[m];
            assert(views[m as int] == act@);
            if act.candidates.len() > 0 {
                if crate::collections::find_text(&act.candidates, &self.mav[m]).is_none() {
                    assert(!views[m as int].candidates.contains(texts(self.mav@)[m as int]));
                    return false;
                }
            }
            m += 1;
        }
        true
    }
}

/// A sequence that is not empty has a first position of its smallest value.
pub proof fn lemma_first_minimum_exists(values: Seq<int>)
    requires
        values.len() > 0,
    ensures
        is_first_minimum(values, first_minimum(values)),
{
    lemma_first_minimum_among(values, values.len() as int);
    let i = choose|i: int| is_first_minimum(values.take(values.len() as int), i);
    assert(values.take(values.len() as int) =~= values);
}

/// The first `n` values have a first position of their smallest value.
proof fn lemma_first_minimum_among(values: Seq<int>, n: int)
    requires
        0 < n <= values.len(),
    ensures
        exists|i: int| is_first_minimum(values.take(n), i),
    decreases n,
{
    let now = values.take(n);
    if n == 1 {
        assert(is_first_minimum(now, 0));
    } else {
        lemma_first_minimum_among(values, n - 1);
        let front = values.take(n - 1);
        let b = choose|i: int| is_first_minimum(front, i);
        assert forall|j: int| 0 <= j < n - 1 implies now[j] == front[j] by {}
        if values[n - 1] < front[b] {
            assert forall|j: int| 0 <= j < now.len() implies now[n - 1] <= #[trigger] now[j] by {
                if j < n - 1 {
                    assert(front[b] <= front[j]);
                }
            }
            assert forall|j: int| 0 <= j < n - 1 implies now[n - 1] < #[trigger] now[j] by {
                assert(front[b] <= front[j]);
            }
            assert(is_first_minimum(now, n - 1));
        } else {
            assert forall|j: int| 0 <= j < now.len() implies now[b] <= #[trigger] now[j] by {
                if j < n - 1 {
                    assert(front[b] <= front[j]);
                }
            }
            assert forall|j: int| 0 <= j < b implies now[b] < #[trigger] now[j] by {
                assert(front[b] < front[j]);
            }
            assert(is_first_minimum(now, b));
        }
    }
}

} // verus!
