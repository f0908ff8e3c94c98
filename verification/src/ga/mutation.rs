//! Mutation of chromosomes.
//!
//! The three mutations of the operation sequence move items around and
//! never change which items it holds. The mutation of the machine
//! assignment gives one activity another of its candidates.

use vstd::prelude::*;
use rand::rngs::SmallRng;
use crate::collections::texts;
use crate::ga::chromosome::{mav_feasible, ScheduleChromosome};
use crate::ga::problem::{info_views, ActivityInfo, ActivityInfoView};
use crate::ga::random::{choose_text, random_in};

verus! {

/// The sequence with the items at `i` and `j` exchanged.
pub open spec fn swapped(s: Seq<Seq<char>>, i: int, j: int) -> Seq<Seq<char>> {
    s.update(i, s[j]).update(j, s[i])
}

/// The sequence with the item at `from` taken out and put in at `to`.
pub open spec fn moved(s: Seq<Seq<char>>, from: int, to: int) -> Seq<Seq<char>> {
    s.remove(from).insert(to, s[from])
}

/// The sequence with the items `i..=j` in reverse order.
pub open spec fn inverted(s: Seq<Seq<char>>, i: int, j: int) -> Seq<Seq<char>> {
    s.subrange(0, i) + s.subrange(i, j + 1).reverse() + s.subrange(j + 1, s.len() as int)
}

/// `after` comes from `before` by a swap mutation: two positions are
/// exchanged; a sequence of fewer than two items stays as it is.
pub open spec fn swap_mutated(before: Seq<Seq<char>>, after: Seq<Seq<char>>) -> bool {
    if before.len() < 2 {
        after == before
    } else {
        exists|i: int, j: int|
            0 <= i < before.len() && 0 <= j < before.len() && after == #[trigger] swapped(
                before,
                i,
                j,
            )
    }
}

/// `after` comes from `before` by an insert mutation: one item is taken
/// out and put in elsewhere; a sequence of fewer than two items stays as
/// it is.
pub open spec fn insert_mutated(before: Seq<Seq<char>>, after: Seq<Seq<char>>) -> bool {
    if before.len() < 2 {
        after == before
    } else {
        exists|from: int, to: int|
            0 <= from < before.len() && 0 <= to < before.len() && after == #[trigger] moved(
                before,
                from,
                to,
            )
    }
}

/// `after` comes from `before` by an invert mutation: a segment is
/// reversed; a sequence of fewer than two items stays as it is.
pub open spec fn invert_mutated(before: Seq<Seq<char>>, after: Seq<Seq<char>>) -> bool {
    if before.len() < 2 {
        after == before
    } else {
        exists|i: int, j: int|
            0 <= i <= j < before.len() && after == #[trigger] inverted(before, i, j)
    }
}

/// `after` comes from `before` by a mutation of the machine assignment at
/// position `i`, a position of both the assignment and the activity list:
/// the entry becomes one of the candidates of activity `i` and nothing else
/// changes; when the activity has no candidates, nothing changes at all.
pub open spec fn mav_mutated_at(
    before: Seq<Seq<char>>,
    after: Seq<Seq<char>>,
    activities: Seq<ActivityInfoView>,
    i: int,
) -> bool {
    &&& 0 <= i < before.len()
    &&& i < activities.len()
    &&& if activities[i].candidates.len() == 0 {
        after == before
    } else {
        activities[i].candidates.contains(after[i]) && after == before.update(i, after[i])
    }
}

/// `after` comes from `before` by a mutation of the machine assignment: at
/// one position of both the assignment and the activity list, the entry
/// becomes one of the candidates of its activity, or stays when the
/// activity has none. An empty assignment stays as it is, and so does
/// every assignment when there is no activity.
pub open spec fn mav_mutated(
    before: Seq<Seq<char>>,
    after: Seq<Seq<char>>,
    activities: Seq<ActivityInfoView>,
) -> bool {
    if before.len() == 0 || activities.len() == 0 {
        after == before
    } else {
        exists|i: int| #[trigger] mav_mutated_at(before, after, activities, i)
    }
}

/// Exchanging two items changes no count.
pub proof fn swap_conserves_items(s: Seq<Seq<char>>, i: int, j: int)
    requires
        0 <= i < s.len(),
        0 <= j < s.len(),
    ensures
        swapped(s, i, j).to_multiset() == s.to_multiset(),
        swapped(s, i, j).len() == s.len(),
{
    broadcast use vstd::seq_lib::group_to_multiset_ensures;

    let mid = s.update(i, s[j]);
    vstd::seq_lib::to_multiset_update(s, i, s[j]);
    vstd::seq_lib::to_multiset_update(mid, j, s[i]);
    vstd::seq_lib::to_multiset_contains(s, s[i]);
    vstd::seq_lib::to_multiset_contains(s, s[j]);
    assert(s.to_multiset().count(s[i]) > 0);
    assert(s.to_multiset().count(s[j]) > 0);
    assert forall|x: Seq<char>| swapped(s, i, j).to_multiset().count(x) == s.to_multiset().count(
        x,
    ) by {}
    assert(swapped(s, i, j).to_multiset() =~= s.to_multiset());
}

/// Taking an item out and putting it in elsewhere changes no count.
pub proof fn move_conserves_items(s: Seq<Seq<char>>, from: int, to: int)
    requires
        0 <= from < s.len(),
        0 <= to < s.len(),
    ensures
        moved(s, from, to).to_multiset() == s.to_multiset(),
        moved(s, from, to).len() == s.len(),
{
    broadcast use vstd::seq_lib::group_to_multiset_ensures;

    vstd::seq_lib::to_multiset_remove(s, from);
    vstd::seq_lib::to_multiset_insert(s.remove(from), to, s[from]);
    vstd::seq_lib::to_multiset_contains(s, s[from]);
    assert(s.to_multiset().count(s[from]) > 0);
    assert forall|x: Seq<char>| moved(s, from, to).to_multiset().count(x) == s.to_multiset().count(
        x,
    ) by {}
    assert(moved(s, from, to).to_multiset() =~= s.to_multiset());
}

/// Reversing a segment changes no count.
pub proof fn invert_conserves_items(s: Seq<Seq<char>>, i: int, j: int)
    requires
        0 <= i <= j < s.len(),
    ensures
        inverted(s, i, j).to_multiset() == s.to_multiset(),
        inverted(s, i, j).len() == s.len(),
{
    broadcast use vstd::seq_lib::group_to_multiset_ensures;

    let n = s.len() as int;
    let head = s.subrange(0, i);
    let body = s.subrange(i, j + 1);
    let tail = s.subrange(j + 1, n);
    body.lemma_reverse_to_multiset();
    assert(s =~= head + body + tail);
    vstd::seq_lib::lemma_multiset_commutative(head + body, tail);
    vstd::seq_lib::lemma_multiset_commutative(head, body);
    vstd::seq_lib::lemma_multiset_commutative(head + body.reverse(), tail);
    vstd::seq_lib::lemma_multiset_commutative(head, body.reverse());
}

/// Exchanges the items at `i` and `j`.
pub fn swap_positions(osv: &mut Vec<String>, i: usize, j: usize)
    requires
        i < old(osv)@.len(),
        j < old(osv)@.len(),
    ensures
        texts(final(osv)@) == swapped(texts(old(osv)@), i as int, j as int),
        texts(final(osv)@).to_multiset() == texts(old(osv)@).to_multiset(),
{
    let a = osv[i].clone();
    let b = osv[j].clone();
    osv.set(i, b);
    osv.set(j, a);
    proof {
        assert(texts(osv@) =~= swapped(texts(old(osv)@), i as int, j as int));
        swap_conserves_items(texts(old(osv)@), i as int, j as int);
    }
}

/// Takes the item at `from` out and puts it in at `to`.
pub fn move_item(osv: &mut Vec<String>, from: usize, to: usize)
    requires
        from < old(osv)@.len(),
        to < old(osv)@.len(),
    ensures
        texts(final(osv)@) == moved(texts(old(osv)@), from as int, to as int),
        texts(final(osv)@).to_multiset() == texts(old(osv)@).to_multiset(),
{
    let item = osv.remove(from);
    osv.insert(to, item);
    proof {
        assert(texts(osv@) =~= moved(texts(old(osv)@), from as int, to as int));
        move_conserves_items(texts(old(osv)@), from as int, to as int);
    }
}

/// Reverses the items `i..=j`.
pub fn reverse_segment(osv: &mut Vec<String>, i: usize, j: usize)
    requires
        i <= j < old(osv)@.len(),
    ensures
        texts(final(osv)@) == inverted(texts(old(osv)@), i as int, j as int),
        texts(final(osv)@).to_multiset() == texts(old(osv)@).to_multiset(),
{
    let ghost start = texts(osv@);
    let mut lo: usize = i;
    let mut hi: usize = j;
    while lo < hi
        invariant
            i <= lo,
            hi <= j,
            j < osv@.len(),
            osv@.len() == start.len(),
            lo - i == j - hi,
            lo <= hi + 1,
            forall|k: int| 0 <= k < i ==> texts(osv@)[k] == start[k],
            forall|k: int| j < k < osv@.len() ==> texts(osv@)[k] == start[k],
            forall|k: int| lo <= k <= hi ==> texts(osv@)[k] == start[k],
            forall|k: int| i <= k < lo ==> texts(osv@)[k] == start[i + j - k],
            forall|k: int| hi < k <= j ==> texts(osv@)[k] == start[i + j - k],
        decreases hi + 1 - lo,
    {
        let ghost before = texts(osv@);
        swap_positions(osv, lo, hi);
        assert(texts(osv@) == swapped(before, lo as int, hi as int));
        lo += 1;
        hi -= 1;
    }
    proof {
        let want = inverted(start, i as int, j as int);
        let body = start.subrange(i as int, j as int + 1);
        assert forall|k: int| 0 <= k < want.len() implies texts(osv@)[k] == want[k] by {
            if k < i {
            } else if k <= j {
                assert(body.reverse()[k - i] == body[body.len() - 1 - (k - i)]);
                if lo <= k <= hi {
                    assert(lo == hi);
                }
            } else {
            }
        }
        assert(texts(osv@) =~= want);
        invert_conserves_items(start, i as int, j as int);
    }
}

/// Swap mutation: exchanges two random positions of the operation
/// sequence. A sequence of fewer than two items stays as it is.
pub fn swap_mutation(chromosome: &mut ScheduleChromosome, rng: &mut SmallRng)
    ensures
        swap_mutated(texts(old(chromosome).osv@), texts(final(chromosome).osv@)),
        texts(final(chromosome).osv@).to_multiset() == texts(old(chromosome).osv@).to_multiset(),
        final(chromosome).mav == old(chromosome).mav,
        final(chromosome).activity_index == old(chromosome).activity_index,
        final(chromosome).fitness == old(chromosome).fitness,
{
    let len = chromosome.osv.len();
    if len < 2 {
        return;
    }
    let i = random_in(rng, 0, len - 1);
    let j = random_in(rng, 0, len - 1);
    swap_positions(&mut chromosome.osv, i, j);
    assert(texts(chromosome.osv@) == swapped(texts(old(chromosome).osv@), i as int, j as int));
}

/// Insert mutation: takes the item at a random position out and puts it in
/// at a random position. A sequence of fewer than two items stays as it is.
pub fn insert_mutation(chromosome: &mut ScheduleChromosome, rng: &mut SmallRng)
    ensures
        insert_mutated(texts(old(chromosome).osv@), texts(final(chromosome).osv@)),
        texts(final(chromosome).osv@).to_multiset() == texts(old(chromosome).osv@).to_multiset(),
        final(chromosome).mav == old(chromosome).mav,
        final(chromosome).activity_index == old(chromosome).activity_index,
        final(chromosome).fitness == old(chromosome).fitness,
{
    let len = chromosome.osv.len();
    if len < 2 {
        return;
    }
    let from = random_in(rng, 0, len - 1);
    let to = random_in(rng, 0, len - 1);
    move_item(&mut chromosome.osv, from, to);
    assert(texts(chromosome.osv@) == moved(texts(old(chromosome).osv@), from as int, to as int));
}

/// Invert mutation: reverses the items between two random positions. A
/// sequence of fewer than two items stays as it is.
pub fn invert_mutation(chromosome: &mut ScheduleChromosome, rng: &mut SmallRng)
    ensures
        invert_mutated(texts(old(chromosome).osv@), texts(final(chromosome).osv@)),
        texts(final(chromosome).osv@).to_multiset() == texts(old(chromosome).osv@).to_multiset(),
        final(chromosome).mav == old(chromosome).mav,
        final(chromosome).activity_index == old(chromosome).activity_index,
        final(chromosome).fitness == old(chromosome).fitness,
{
    let len = chromosome.osv.len();
    if len < 2 {
        return;
    }
    let a = random_in(rng, 0, len - 1);
    let b = random_in(rng, 0, len - 1);
    let (i, j) = if a <= b { (a, b) } else { (b, a) };
    reverse_segment(&mut chromosome.osv, i, j);
    assert(texts(chromosome.osv@) == inverted(texts(old(chromosome).osv@), i as int, j as int));
}

/// Mutation of the machine assignment: one random activity gets a random
/// one of its candidates. Nothing changes when the activity has none.
pub fn mav_mutation(chromosome: &mut ScheduleChromosome, activities: &[ActivityInfo], rng: &mut SmallRng)
    ensures
        final(chromosome).osv == old(chromosome).osv,
        final(chromosome).activity_index == old(chromosome).activity_index,
        final(chromosome).fitness == old(chromosome).fitness,
        mav_mutated(
            texts(old(chromosome).mav@),
            texts(final(chromosome).mav@),
            info_views(activities@),
        ),
        mav_feasible(texts(old(chromosome).mav@), info_views(activities@)) ==> mav_feasible(
            texts(final(chromosome).mav@),
            info_views(activities@),
        ),
{
    if chromosome.mav.len() == 0 || activities.len() == 0 {
        return;
    }
    let limit = if chromosome.mav.len() <= activities.len() {
        chromosome.mav.len()
    } else {
        activities.len()
    };
    let idx = random_in(rng, 0, limit - 1);
    let ghost before = chromosome.mav@;
    let ghost views = info_views(activities@);
    assert(views[idx as int].candidates.len() == activities@[idx as int].candidates@.len());
    if activities[idx].candidates.len() > 0 {
        let choice = choose_text(&activities[idx].candidates, rng);
        chromosome.mav.set(idx, choice);
        proof {
            let after = texts(chromosome.mav@);
            assert(views[idx as int].candidates.contains(after[idx as int]));
            assert(after =~= texts(before).update(idx as int, after[idx as int]));
            assert(mav_mutated_at(texts(before), after, views, idx as int));
            if mav_feasible(texts(before), views) {
                assert forall|j: int|
                    0 <= j < after.len() && views[j].candidates.len()
                        > 0 implies views[j].candidates.contains(#[trigger] after[j]) by {
                    if j != idx {
                        assert(after[j] == texts(before)[j]);
                    }
                }
            }
        }
    } else {
        assert(mav_mutated_at(texts(before), texts(chromosome.mav@), views, idx as int));
    }
}

} // verus!
