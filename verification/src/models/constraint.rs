//! Scheduling constraints and sequence-dependent setup times.

use vstd::prelude::*;
use crate::collections::StringMap;

verus! {

/// A constraint that a valid schedule must satisfy.
#[derive(Debug, Clone)]
pub enum Constraint {
    /// `after` cannot start until `before` has finished and `min_delay_ms` have passed.
    Precedence { before: String, after: String, min_delay_ms: i64 },
    /// At most `max_capacity` activities may use `resource_id` at the same time.
    Capacity { resource_id: String, max_capacity: i32 },
    /// The activity must be scheduled within `[start_ms, end_ms)`.
    TimeWindow { activity_id: String, start_ms: i64, end_ms: i64 },
    /// The listed activities cannot overlap on the resource.
    NoOverlap { resource_id: String, activity_ids: Vec<String> },
    /// Moving from `from_category` to `to_category` costs `cost_ms` of setup.
    TransitionCost { from_category: String, to_category: String, cost_ms: i64 },
    /// The listed activities must start at the same time.
    Synchronize { activity_ids: Vec<String> },
}

impl Constraint {
    /// A precedence constraint without delay.
    pub fn precedence(before: &str, after: &str) -> (c: Self)
        ensures
            c matches Constraint::Precedence { before: b, after: a, min_delay_ms: d } && b@
                == before@ && a@ == after@ && d == 0,
    {
        Constraint::Precedence {
            before: before.to_owned(),
            after: after.to_owned(),
            min_delay_ms: 0,
        }
    }

    /// A precedence constraint with a minimum delay.
    pub fn precedence_with_delay(before: &str, after: &str, delay_ms: i64) -> (c: Self)
        ensures
            c matches Constraint::Precedence { before: b, after: a, min_delay_ms: d } && b@
                == before@ && a@ == after@ && d == delay_ms,
    {
        Constraint::Precedence {
            before: before.to_owned(),
            after: after.to_owned(),
            min_delay_ms: delay_ms,
        }
    }

    /// A capacity constraint.
    pub fn capacity(resource_id: &str, max: i32) -> (c: Self)
        ensures
            c matches Constraint::Capacity { resource_id: r, max_capacity: m } && r@
                == resource_id@ && m == max,
    {
        Constraint::Capacity { resource_id: resource_id.to_owned(), max_capacity: max }
    }

    /// A time-window constraint.
    pub fn time_window(activity_id: &str, start_ms: i64, end_ms: i64) -> (c: Self)
        ensures
            c matches Constraint::TimeWindow { activity_id: a, start_ms: s, end_ms: e } && a@
                == activity_id@ && s == start_ms && e == end_ms,
    {
        Constraint::TimeWindow { activity_id: activity_id.to_owned(), start_ms, end_ms }
    }

    /// A no-overlap (disjunctive) constraint.
    pub fn no_overlap(resource_id: &str, activity_ids: Vec<String>) -> (c: Self)
        ensures
            c matches Constraint::NoOverlap { resource_id: r, activity_ids: ids } && r@
                == resource_id@ && ids == activity_ids,
    {
        Constraint::NoOverlap { resource_id: resource_id.to_owned(), activity_ids }
    }

    /// A synchronization constraint.
    pub fn synchronize(activity_ids: Vec<String>) -> (c: Self)
        ensures
            c == (Constraint::Synchronize { activity_ids }),
    {
        Constraint::Synchronize { activity_ids }
    }
}

/// Explicit transition times, keyed by the pair (from category, to category).
/// No pair occurs twice.
#[derive(Debug)]
pub struct TransitionTable {
    entries: Vec<(String, String, i64)>,
}

impl TransitionTable {
    /// No pair occurs twice.
    #[verifier::type_invariant]
    spec fn distinct_pairs(&self) -> bool {
        forall|i: int, j: int|
            0 <= i < j < self.entries@.len() ==> self.pair_at(i) != self.pair_at(j)
    }

    /// The pair of entry `i`.
    spec fn pair_at(&self, i: int) -> (Seq<char>, Seq<char>) {
        (self.entries@[i].0@, self.entries@[i].1@)
    }

    /// The pairs, in the order in which they were first set.
    pub closed spec fn pairs(&self) -> Seq<(Seq<char>, Seq<char>)> {
        Seq::new(self.entries@.len(), |i: int| self.pair_at(i))
    }

    /// The table as a map from (from, to) to milliseconds.
    pub closed spec fn view(&self) -> Map<(Seq<char>, Seq<char>), i64> {
        Map::new(
            |p: (Seq<char>, Seq<char>)| self.pairs().contains(p),
            |p: (Seq<char>, Seq<char>)| self.entries@[self.pairs().index_of(p)].2,
        )
    }

    /// An empty table.
    pub fn new() -> (t: Self)
        ensures
            t@ == Map::<(Seq<char>, Seq<char>), i64>::empty(),
    {
        let t = TransitionTable { entries: Vec::new() };
        assert(t@ =~= Map::<(Seq<char>, Seq<char>), i64>::empty());
        t
    }

    /// The position of the entry for the pair, if there is one.
    fn position(&self, from: &String, to: &String) -> (r: Option<usize>)
        ensures
            match r {
                Some(i) => i < self.pairs().len() && self.pairs()[i as int] == (from@, to@),
                None => !self.pairs().contains((from@, to@)),
            },
    {
        let mut i: usize = 0;
        while i < self.entries.len()
            invariant
                i <= self.entries@.len(),
                forall|j: int| 0 <= j < i ==> self.pairs()[j] != (from@, to@),
            decreases self.entries@.len() - i,
        {
            if self.entries[i].0 == *from && self.entries[i].1 == *to {
                return Some(i);
            }
            i += 1;
        }
        None
    }

    /// The time set for the pair, if any.
    pub fn get(&self, from: &str, to: &str) -> (r: Option<i64>)
        ensures
            r == if self@.contains_key((from@, to@)) {
                Some(self@[(from@, to@)])
            } else {
                None
            },
    {
        proof {
            use_type_invariant(self);
        }
        let f = from.to_owned();
        let t = to.to_owned();
        match self.position(&f, &t) {
            Some(i) => {
                assert(self.pairs().contains((from@, to@)));
                assert(self.pairs().index_of((from@, to@)) == i as int);
                Some(self.entries[i].2)
            },
            None => None,
        }
    }

    /// Sets the time for the pair, replacing an earlier one.
    pub fn set(&mut self, from: String, to: String, time_ms: i64)
        ensures
            final(self)@ == old(self)@.insert((from@, to@), time_ms),
    {
        proof {
            use_type_invariant(&*self);
        }
        let ghost before = *self;
        let ghost p = (from@, to@);
        let found = self.position(&from, &to);
        let mut entries: Vec<(String, String, i64)> = Vec::new();
        std::mem::swap(&mut entries, &mut self.entries);
        match found {
            Some(i) => {
                entries.set(i, (from, to, time_ms));
                proof {
                    assert forall|a: int, b: int| 0 <= a < b < entries@.len() implies (
                        entries@[a].0@,
                        entries@[a].1@,
                    ) != (entries@[b].0@, entries@[b].1@) by {
                        assert(before.pair_at(a) != before.pair_at(b));
                    }
                }
                self.entries = entries;
                proof {
                    assert(self.pairs() =~= before.pairs());
                    assert forall|q: (Seq<char>, Seq<char>)|
                        self.pairs().contains(q) implies #[trigger] self@[q] == before@.insert(
                        p,
                        time_ms,
                    )[q] by {
                        let j = self.pairs().index_of(q);
                        assert(before.pairs()[j] == q);
                    }
                    assert(self@ =~= before@.insert(p, time_ms));
                }
            },
            None => {
                entries.push((from, to, time_ms));
                proof {
                    assert forall|a: int, b: int| 0 <= a < b < entries@.len() implies (
                        entries@[a].0@,
                        entries@[a].1@,
                    ) != (entries@[b].0@, entries@[b].1@) by {
                        if b == entries@.len() - 1 {
                            assert(before.pairs()[a] == before.pair_at(a));
                            assert(before.pairs().contains(before.pair_at(a)));
                        } else {
                            assert(before.pair_at(a) != before.pair_at(b));
                        }
                    }
                }
                self.entries = entries;
                proof {
                    assert(self.pairs() =~= before.pairs().push(p));
                    assert(self.pairs()[before.pairs().len() as int] == p);
                    assert forall|q: (Seq<char>, Seq<char>)| #[trigger]
                        self.pairs().contains(q) == (q == p || before.pairs().contains(q)) by {
                        if before.pairs().contains(q) {
                            let j = before.pairs().index_of(q);
                            assert(self.pairs()[j] == q);
                        }
                    }
                    assert forall|q: (Seq<char>, Seq<char>)|
                        self.pairs().contains(q) implies #[trigger] self@[q] == before@.insert(
                        p,
                        time_ms,
                    )[q] by {
                        let j = self.pairs().index_of(q);
                        if q != p {
                            assert(before.pairs()[j] == q);
                            assert(before.pairs().index_of(q) == j);
                        }
                    }
                    assert(self@ =~= before@.insert(p, time_ms));
                }
            },
        }
    }

    /// Number of pairs with a time set.
    pub fn len(&self) -> (n: usize)
        ensures
            n == self@.dom().len(),
            self@.dom().finite(),
    {
        proof {
            use_type_invariant(self);
            let ps = self.pairs();
            assert forall|i: int, j: int| 0 <= i < j < ps.len() implies ps[i] != ps[j] by {
                assert(self.pair_at(i) != self.pair_at(j));
            }
            assert(ps.no_duplicates());
            assert(self@.dom() =~= ps.to_set());
            ps.unique_seq_to_set();
            vstd::seq_lib::seq_to_set_is_finite(ps);
        }
        self.entries.len()
    }
}

impl Clone for TransitionTable {
    /// A copy with the same times for the same pairs.
    fn clone(&self) -> (t: Self)
        ensures
            t@ == self@,
    {
        proof {
            use_type_invariant(self);
        }
        let mut entries: Vec<(String, String, i64)> = Vec::new();
        let mut i: usize = 0;
        while i < self.entries.len()
            invariant
                i <= self.entries@.len(),
                entries@.len() == i,
                forall|j: int|
                    0 <= j < i ==> (#[trigger] entries@[j]).0@ == self.entries@[j].0@
                        && entries@[j].1@ == self.entries@[j].1@ && entries@[j].2
                        == self.entries@[j].2,
            decreases self.entries@.len() - i,
        {
            let from = self.entries[i].0.clone();
            let to = self.entries[i].1.clone();
            entries.push((from, to, self.entries[i].2));
            i += 1;
        }
        proof {
            assert forall|a: int, b: int| 0 <= a < b < entries@.len() implies (
                entries@[a].0@,
                entries@[a].1@,
            ) != (entries@[b].0@, entries@[b].1@) by {
                assert(self.pair_at(a) != self.pair_at(b));
            }
        }
        let t = TransitionTable { entries };
        proof {
            assert(t.pairs() =~= self.pairs());
            assert(t@ =~= self@);
        }
        t
    }
}

/// Sequence-dependent setup times of one resource.
#[derive(Debug, Clone)]
pub struct TransitionMatrix {
    /// Name of the matrix.
    pub name: String,
    /// The resource the matrix applies to.
    pub resource_id: String,
    /// Explicit transition times.
    pub transitions: TransitionTable,
    /// Setup time between two different categories without an explicit time.
    pub default_ms: i64,
}

impl TransitionMatrix {
    /// Setup time from category `from` to category `to`: the explicit time if
    /// one is set; else 0 within one category and the default between two.
    pub open spec fn spec_get_transition(&self, from: Seq<char>, to: Seq<char>) -> i64 {
        if self.transitions@.contains_key((from, to)) {
            self.transitions@[(from, to)]
        } else if from == to {
            0
        } else {
            self.default_ms
        }
    }

    /// An empty matrix for a resource, with default 0.
    pub fn new(name: &str, resource_id: &str) -> (m: Self)
        ensures
            m.name@ == name@,
            m.resource_id@ == resource_id@,
            m.transitions@ == Map::<(Seq<char>, Seq<char>), i64>::empty(),
            m.default_ms == 0,
    {
        TransitionMatrix {
            name: name.to_owned(),
            resource_id: resource_id.to_owned(),
            transitions: TransitionTable::new(),
            default_ms: 0,
        }
    }

    /// Sets the default transition time.
    pub fn with_default(self, default_ms: i64) -> (m: Self)
        ensures
            m == (TransitionMatrix { default_ms, ..self }),
    {
        let mut m = self;
        m.default_ms = default_ms;
        m
    }

    /// Sets the transition time from `from` to `to`.
    pub fn set_transition(&mut self, from: &str, to: &str, time_ms: i64)
        ensures
            final(self).transitions@ == old(self).transitions@.insert((from@, to@), time_ms),
            final(self).name == old(self).name,
            final(self).resource_id == old(self).resource_id,
            final(self).default_ms == old(self).default_ms,
    {
        self.transitions.set(from.to_owned(), to.to_owned(), time_ms);
    }

    /// The transition time from `from` to `to`.
    pub fn get_transition(&self, from: &str, to: &str) -> (ms: i64)
        ensures
            ms == self.spec_get_transition(from@, to@),
    {
        match self.transitions.get(from, to) {
            Some(ms) => ms,
            None => {
                let f = from.to_owned();
                let t = to.to_owned();
                if f == t { 0 } else { self.default_ms }
            },
        }
    }

    /// Number of explicit transition times.
    pub fn transition_count(&self) -> (n: usize)
        ensures
            n == self.transitions@.dom().len(),
            self.transitions@.dom().finite(),
    {
        self.transitions.len()
    }
}

/// Transition matrices, one per resource identifier.
#[derive(Debug, Clone)]
pub struct TransitionMatrixCollection {
    /// The matrices, keyed by the resource they apply to.
    pub matrices: StringMap<TransitionMatrix>,
}

impl TransitionMatrixCollection {
    /// Setup time on `resource_id` from category `from` to category `to`;
    /// 0 when the resource has no matrix.
    pub open spec fn spec_get_transition_time(
        &self,
        resource_id: Seq<char>,
        from: Seq<char>,
        to: Seq<char>,
    ) -> i64 {
        if self.matrices@.contains_key(resource_id) {
            self.matrices@[resource_id].spec_get_transition(from, to)
        } else {
            0
        }
    }

    /// An empty collection.
    pub fn new() -> (c: Self)
        ensures
            c.matrices@ == Map::<Seq<char>, TransitionMatrix>::empty(),
    {
        TransitionMatrixCollection { matrices: StringMap::new() }
    }

    /// Adds a matrix, replacing an earlier one for the same resource.
    pub fn add(&mut self, matrix: TransitionMatrix)
        ensures
            final(self).matrices@ == old(self).matrices@.insert(matrix.resource_id@, matrix),
    {
        let key = matrix.resource_id.clone();
        self.matrices.insert(key, matrix);
    }

    /// Adds a matrix and hands the collection back.
    pub fn with_matrix(self, matrix: TransitionMatrix) -> (c: Self)
        ensures
            c.matrices@ == self.matrices@.insert(matrix.resource_id@, matrix),
    {
        let mut c = self;
        c.add(matrix);
        c
    }

    /// Setup time on a resource between two categories.
    pub fn get_transition_time(&self, resource_id: &str, from: &str, to: &str) -> (ms: i64)
        ensures
            ms == self.spec_get_transition_time(resource_id@, from@, to@),
    {
        match self.matrices.get(resource_id) {
            Some(m) => m.get_transition(from, to),
            None => 0,
        }
    }

    /// Number of matrices.
    pub fn len(&self) -> (n: usize)
        ensures
            n == self.matrices@.dom().len(),
            self.matrices@.dom().finite(),
    {
        self.matrices.len()
    }

    /// Whether the collection holds no matrix.
    pub fn is_empty(&self) -> (b: bool)
        ensures
            b == (self.matrices@.dom() == Set::<Seq<char>>::empty()),
            b == (self.matrices@.dom().len() == 0),
            self.matrices@.dom().finite(),
    {
        let n = self.matrices.len();
        proof {
            if n == 0 {
                self.matrices@.dom().lemma_len0_is_empty();
            }
        }
        self.matrices.is_empty()
    }
}

impl Default for TransitionMatrixCollection {
    /// An empty collection.
    fn default() -> (c: Self)
        ensures
            c.matrices@ == Map::<Seq<char>, TransitionMatrix>::empty(),
    {
        TransitionMatrixCollection::new()
    }
}

} // verus!
