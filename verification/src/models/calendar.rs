//! Calendars: when a resource is available.
//!
//! A calendar lists availability windows and blocked periods, each a half-open
//! interval `[start, end)` of milliseconds. Blocked periods override windows.
//! A calendar without windows is available whenever it is not blocked.

use vstd::prelude::*;

verus! {

/// A half-open time interval `[start_ms, end_ms)`.
#[derive(Debug, Clone, Copy, PartialEq, Eq, Structural)]
pub struct TimeWindow {
    /// First millisecond of the interval.
    pub start_ms: i64,
    /// First millisecond after the interval.
    pub end_ms: i64,
}

impl TimeWindow {
    /// Whether `time_ms` lies in the interval.
    pub open spec fn spec_contains(&self, time_ms: int) -> bool {
        self.start_ms <= time_ms < self.end_ms
    }

    /// Length of the part of `self` that lies inside `other`; 0 when they do not meet.
    pub open spec fn spec_overlap(&self, other: TimeWindow) -> int {
        let start = if self.start_ms >= other.start_ms { self.start_ms } else { other.start_ms };
        let end = if self.end_ms <= other.end_ms { self.end_ms } else { other.end_ms };
        if end > start { end - start } else { 0 }
    }

    /// The interval `[start_ms, end_ms)`.
    pub fn new(start_ms: i64, end_ms: i64) -> (w: Self)
        ensures
            w == (TimeWindow { start_ms, end_ms }),
    {
        TimeWindow { start_ms, end_ms }
    }

    /// Length of the interval: end minus start.
    pub fn duration_ms(&self) -> (d: i64)
        requires
            i64::MIN <= self.end_ms - self.start_ms <= i64::MAX,
        ensures
            d == self.end_ms - self.start_ms,
    {
        self.end_ms - self.start_ms
    }

    /// Whether `time_ms` lies in the interval: start included, end excluded.
    pub fn contains(&self, time_ms: i64) -> (b: bool)
        ensures
            b == self.spec_contains(time_ms as int),
    {
        time_ms >= self.start_ms && time_ms < self.end_ms
    }

    /// Whether the two intervals share a millisecond.
    pub fn overlaps(&self, other: &Self) -> (b: bool)
        ensures
            b == (self.start_ms < other.end_ms && other.start_ms < self.end_ms),
    {
        self.start_ms < other.end_ms && other.start_ms < self.end_ms
    }
}

/// Length of the overlap of two windows, or `None` when they share no millisecond.
pub fn overlap_duration(a: &TimeWindow, b: &TimeWindow) -> (r: Option<i64>)
    requires
        a.spec_overlap(*b) <= i64::MAX,
    ensures
        match r {
            Some(d) => d > 0 && d == a.spec_overlap(*b),
            None => a.spec_overlap(*b) == 0,
        },
{
    let start = if a.start_ms >= b.start_ms { a.start_ms } else { b.start_ms };
    let end = if a.end_ms <= b.end_ms { a.end_ms } else { b.end_ms };
    if end > start {
        Some((end as i128 - start as i128) as i64)
    } else {
        None
    }
}

/// Whether some window of `ws` contains `t`.
pub open spec fn any_contains(ws: Seq<TimeWindow>, t: int) -> bool {
    exists|i: int| 0 <= i < ws.len() && (#[trigger] ws[i]).spec_contains(t)
}

/// Total overlap of `range` with each window of `ws`; windows that overlap
/// each other are counted once each.
pub open spec fn total_overlap(range: TimeWindow, ws: Seq<TimeWindow>) -> int
    decreases ws.len(),
{
    if ws.len() == 0 {
        0
    } else {
        total_overlap(range, ws.drop_last()) + range.spec_overlap(ws.last())
    }
}

/// The total overlap never shrinks when windows are added, and is never negative.
pub proof fn lemma_total_overlap_monotone(range: TimeWindow, ws: Seq<TimeWindow>, k: int)
    requires
        0 <= k <= ws.len(),
    ensures
        0 <= total_overlap(range, ws.take(k)) <= total_overlap(range, ws),
    decreases ws.len() - k,
{
    if k == ws.len() {
        assert(ws.take(k) =~= ws);
        lemma_total_overlap_nonnegative(range, ws);
    } else {
        lemma_total_overlap_monotone(range, ws, k + 1);
        lemma_total_overlap_nonnegative(range, ws.take(k));
        assert(ws.take(k + 1).drop_last() =~= ws.take(k));
        assert(total_overlap(range, ws.take(k + 1)) == total_overlap(range, ws.take(k))
            + range.spec_overlap(ws.take(k + 1).last()));
    }
}

/// The total overlap is never negative.
pub proof fn lemma_total_overlap_nonnegative(range: TimeWindow, ws: Seq<TimeWindow>)
    ensures
        0 <= total_overlap(range, ws),
    decreases ws.len(),
{
    if ws.len() > 0 {
        lemma_total_overlap_nonnegative(range, ws.drop_last());
    }
}

/// Resource availability calendar.
#[derive(Debug)]
pub struct Calendar {
    /// Calendar identifier.
    pub id: String,
    /// Periods in which the resource is available. Empty means always.
    pub time_windows: Vec<TimeWindow>,
    /// Periods in which the resource is unavailable, whatever the windows say.
    pub blocked_periods: Vec<TimeWindow>,
}

impl Clone for Calendar {
    /// A copy with the same identifier, windows and blocked periods.
    fn clone(&self) -> (c: Self)
        ensures
            c.id == self.id,
            c.time_windows@ == self.time_windows@,
            c.blocked_periods@ == self.blocked_periods@,
            forall|t: int| c.spec_is_working_time(t) == self.spec_is_working_time(t),
    {
        Calendar {
            id: self.id.clone(),
            time_windows: copy_windows(&self.time_windows),
            blocked_periods: copy_windows(&self.blocked_periods),
        }
    }
}

impl Calendar {
    /// Whether `t` is working time: not blocked, and inside a window if there are windows.
    pub open spec fn spec_is_working_time(&self, t: int) -> bool {
        &&& !any_contains(self.blocked_periods@, t)
        &&& (self.time_windows@.len() == 0 || any_contains(self.time_windows@, t))
    }

    /// Whether `t` is the next available time at or after `from`: the first
    /// working time from `from` on, among the times that 64 bits hold.
    pub open spec fn is_next_available(&self, from: int, t: int) -> bool {
        &&& from <= t <= i64::MAX
        &&& self.spec_is_working_time(t)
        &&& forall|u: int| from <= u < t ==> !self.spec_is_working_time(u)
    }

    /// Whether no working time lies in `from..before` at which working time
    /// can begin: `from` itself, the start of a window, the end of a blocked
    /// period.
    pub open spec fn no_beginning(&self, from: int, before: int) -> bool {
        &&& from < before ==> !self.spec_is_working_time(from)
        &&& forall|i: int|
            0 <= i < self.time_windows@.len() && from <= (#[trigger] self.time_windows@[i]).start_ms
                < before ==> !self.spec_is_working_time(self.time_windows@[i].start_ms as int)
        &&& forall|k: int|
            0 <= k < self.blocked_periods@.len() && from <= (
            #[trigger] self.blocked_periods@[k]).end_ms < before ==> !self.spec_is_working_time(
                self.blocked_periods@[k].end_ms as int,
            )
    }

    /// Working time begins only at `from`, at the start of a window or at
    /// the end of a blocked period: where none of these is working time
    /// before `before`, no time from `from` on is.
    pub proof fn lemma_working_time_begins(&self, from: int, before: int, u: int)
        requires
            self.no_beginning(from, before),
            from <= u < before,
        ensures
            !self.spec_is_working_time(u),
        decreases u - from,
    {
        if u > from {
            self.lemma_working_time_begins(from, before, u - 1);
            if self.spec_is_working_time(u) {
                if any_contains(self.blocked_periods@, u - 1) {
                    let k = choose|k: int|
                        0 <= k < self.blocked_periods@.len() && (
                        #[trigger] self.blocked_periods@[k]).spec_contains(u - 1);
                    assert(!self.blocked_periods@[k].spec_contains(u));
                    assert(self.blocked_periods@[k].end_ms == u);
                } else {
                    let i = choose|i: int|
                        0 <= i < self.time_windows@.len() && (
                        #[trigger] self.time_windows@[i]).spec_contains(u);
                    assert(!self.time_windows@[i].spec_contains(u - 1));
                    assert(self.time_windows@[i].start_ms == u);
                }
            }
        }
    }

    /// Available time within `[start_ms, end_ms)`.
    ///
    /// Without windows: the length of the range minus its overlap with each
    /// blocked period. With windows: the overlap with each window minus the
    /// overlap with each blocked period, but never less than 0.
    pub open spec fn spec_available_time_in_range(&self, start_ms: i64, end_ms: i64) -> int {
        let range = TimeWindow { start_ms, end_ms };
        if end_ms <= start_ms {
            0
        } else if self.time_windows@.len() == 0 {
            (end_ms - start_ms) - total_overlap(range, self.blocked_periods@)
        } else {
            let net = total_overlap(range, self.time_windows@) - total_overlap(
                range,
                self.blocked_periods@,
            );
            if net > 0 { net } else { 0 }
        }
    }

    /// A calendar without windows or blocked periods: always available.
    pub fn new(id: &str) -> (c: Self)
        ensures
            c.id@ == id@,
            c.time_windows@ == Seq::<TimeWindow>::empty(),
            c.blocked_periods@ == Seq::<TimeWindow>::empty(),
    {
        Calendar { id: id.to_owned(), time_windows: Vec::new(), blocked_periods: Vec::new() }
    }

    /// A calendar that is always available.
    pub fn always_available(id: &str) -> (c: Self)
        ensures
            c.id@ == id@,
            c.time_windows@ == Seq::<TimeWindow>::empty(),
            c.blocked_periods@ == Seq::<TimeWindow>::empty(),
            forall|t: int| c.spec_is_working_time(t),
    {
        Calendar::new(id)
    }

    /// Appends the availability window `[start_ms, end_ms)`.
    pub fn with_window(self, start_ms: i64, end_ms: i64) -> (c: Self)
        ensures
            c.time_windows@ == self.time_windows@.push(TimeWindow { start_ms, end_ms }),
            c == (Calendar { time_windows: c.time_windows, ..self }),
    {
        let mut c = self;
        c.time_windows.push(TimeWindow::new(start_ms, end_ms));
        c
    }

    /// Appends the blocked period `[start_ms, end_ms)`.
    pub fn with_blocked(self, start_ms: i64, end_ms: i64) -> (c: Self)
        ensures
            c.blocked_periods@ == self.blocked_periods@.push(TimeWindow { start_ms, end_ms }),
            c == (Calendar { blocked_periods: c.blocked_periods, ..self }),
    {
        let mut c = self;
        c.blocked_periods.push(TimeWindow::new(start_ms, end_ms));
        c
    }

    /// Whether `time_ms` is working time.
    pub fn is_working_time(&self, time_ms: i64) -> (b: bool)
        ensures
            b == self.spec_is_working_time(time_ms as int),
    {
        if contains_any(&self.blocked_periods, time_ms) {
            return false;
        }
        if self.time_windows.len() == 0 {
            return true;
        }
        contains_any(&self.time_windows, time_ms)
    }

    /// The earlier of `best` and `time_ms`, where `time_ms` is a working
    /// time at or after `from_ms`; else `best`.
    fn earlier_beginning(&self, from_ms: i64, best: Option<i64>, time_ms: i64) -> (r: Option<i64>)
        requires
            best matches Some(b) ==> from_ms <= b && self.spec_is_working_time(b as int),
        ensures
            r matches Some(b) ==> from_ms <= b && self.spec_is_working_time(b as int),
            spec_limit(r) <= spec_limit(best),
            from_ms <= time_ms < spec_limit(r) ==> !self.spec_is_working_time(time_ms as int),
    {
        let ahead = match best {
            Some(b) => time_ms < b,
            None => true,
        };
        if time_ms >= from_ms && ahead && self.is_working_time(time_ms) {
            Some(time_ms)
        } else {
            best
        }
    }

    /// The next available time at or after `from_ms`: the first working
    /// time from `from_ms` on, or `None` when there is none.
    pub fn next_available_time(&self, from_ms: i64) -> (r: Option<i64>)
        ensures
            match r {
                Some(t) => self.is_next_available(from_ms as int, t as int),
                None => forall|t: int| from_ms <= t <= i64::MAX ==> !self.spec_is_working_time(t),
            },
    {
        if self.is_working_time(from_ms) {
            return Some(from_ms);
        }
        let mut best: Option<i64> = None;
        let mut i: usize = 0;
        while i < self.time_windows.len()
            invariant
                i <= self.time_windows@.len(),
                best matches Some(b) ==> from_ms <= b && self.spec_is_working_time(b as int),
                forall|j: int|
                    0 <= j < i && from_ms <= (#[trigger] self.time_windows@[j]).start_ms < spec_limit(
                        best,
                    ) ==> !self.spec_is_working_time(self.time_windows@[j].start_ms as int),
            decreases self.time_windows@.len() - i,
        {
            best = self.earlier_beginning(from_ms, best, self.time_windows[i].start_ms);
            i += 1;
        }
        let mut k: usize = 0;
        while k < self.blocked_periods.len()
            invariant
                k <= self.blocked_periods@.len(),
                best matches Some(b) ==> from_ms <= b && self.spec_is_working_time(b as int),
                forall|j: int|
                    0 <= j < self.time_windows@.len() && from_ms <= (
                    #[trigger] self.time_windows@[j]).start_ms < spec_limit(best)
                        ==> !self.spec_is_working_time(self.time_windows@[j].start_ms as int),
                forall|j: int|
                    0 <= j < k && from_ms <= (#[trigger] self.blocked_periods@[j]).end_ms < spec_limit(
                        best,
                    ) ==> !self.spec_is_working_time(self.blocked_periods@[j].end_ms as int),
            decreases self.blocked_periods@.len() - k,
        {
            best = self.earlier_beginning(from_ms, best, self.blocked_periods[k].end_ms);
            k += 1;
        }
        proof {
            assert(self.no_beginning(from_ms as int, spec_limit(best)));
            assert forall|u: int| from_ms <= u < spec_limit(best) implies !self.spec_is_working_time(
                u,
            ) by {
                self.lemma_working_time_begins(from_ms as int, spec_limit(best), u);
            }
        }
        best
    }

    /// Available time within `[start_ms, end_ms)`, in milliseconds.
    pub fn available_time_in_range(&self, start_ms: i64, end_ms: i64) -> (avail: i64)
        requires
            start_ms < end_ms ==> end_ms - start_ms <= i64::MAX && total_overlap(
                TimeWindow { start_ms, end_ms },
                self.time_windows@,
            ) <= i64::MAX && total_overlap(TimeWindow { start_ms, end_ms }, self.blocked_periods@)
                <= i64::MAX,
        ensures
            avail == self.spec_available_time_in_range(start_ms, end_ms),
    {
        if end_ms <= start_ms {
            return 0;
        }
        let range = TimeWindow::new(start_ms, end_ms);
        let blocked = sum_overlaps(&range, &self.blocked_periods);
        if self.time_windows.len() == 0 {
            return range.duration_ms() - blocked;
        }
        let available = sum_overlaps(&range, &self.time_windows);
        let net = available - blocked;
        if net > 0 { net } else { 0 }
    }
}

/// The time before which a search looks: the time found, or past the last
/// time that 64 bits hold when none was found.
pub open spec fn spec_limit(found: Option<i64>) -> int {
    match found {
        Some(t) => t as int,
        None => i64::MAX + 1,
    }
}

/// The same windows in a list of their own.
fn copy_windows(ws: &Vec<TimeWindow>) -> (out: Vec<TimeWindow>)
    ensures
        out@ == ws@,
{
    let mut out: Vec<TimeWindow> = Vec::new();
    let mut i: usize = 0;
    while i < ws.len()
        invariant
            i <= ws@.len(),
            out@ == ws@.take(i as int),
        decreases ws@.len() - i,
    {
        out.push(ws[i]);
        assert(out@ =~= ws@.take(i as int + 1));
        i += 1;
    }
    assert(ws@.take(i as int) =~= ws@);
    out
}

/// Whether some window of `ws` contains `t`.
fn contains_any(ws: &Vec<TimeWindow>, t: i64) -> (b: bool)
    ensures
        b == any_contains(ws@, t as int),
{
    let mut i: usize = 0;
    while i < ws.len()
        invariant
            i <= ws@.len(),
            forall|j: int| 0 <= j < i ==> !(#[trigger] ws@[j]).spec_contains(t as int),
        decreases ws@.len() - i,
    {
        if ws[i].contains(t) {
            return true;
        }
        i += 1;
    }
    false
}

/// Total overlap of `range` with each window of `ws`.
fn sum_overlaps(range: &TimeWindow, ws: &Vec<TimeWindow>) -> (total: i64)
    requires
        total_overlap(*range, ws@) <= i64::MAX,
    ensures
        total == total_overlap(*range, ws@),
        total >= 0,
{
    let mut total: i64 = 0;
    let mut i: usize = 0;
    assert(ws@.take(0) =~= Seq::<TimeWindow>::empty());
    while i < ws.len()
        invariant
            i <= ws@.len(),
            total == total_overlap(*range, ws@.take(i as int)),
            total >= 0,
            total_overlap(*range, ws@) <= i64::MAX,
        decreases ws@.len() - i,
    {
        proof {
            lemma_total_overlap_monotone(*range, ws@, i as int + 1);
            lemma_total_overlap_monotone(*range, ws@, i as int);
            assert(ws@.take(i as int + 1).drop_last() =~= ws@.take(i as int));
        }
        match overlap_duration(range, &ws[i]) {
            Some(d) => {
                total = total + d;
            },
            None => {},
        }
        i += 1;
    }
    assert(ws@.take(i as int) =~= ws@);
    total
}

} // verus!
