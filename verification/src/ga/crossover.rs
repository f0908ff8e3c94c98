//! Crossover of operation sequences.
//!
//! All crossovers build a child sequence from two parent sequences that
//! hold the same task identifiers, each as often as the task has
//! activities. The child holds them just as often.

use vstd::prelude::*;
use vstd::multiset::Multiset;
use rand::rngs::SmallRng;
use crate::collections::{copy_texts, count_text, find_text, texts};
use crate::ga::chromosome::{copy_keys, ChromosomeView, Fitness, ScheduleChromosome};
use crate::ga::problem::{info_task_ids, info_views, ActivityInfo, ActivityInfoView};
use crate::ga::random::{random_in, sample_texts};

verus! {

/// The test "is not selected".
pub open spec fn outside(selected: Set<Seq<char>>) -> spec_fn(Seq<char>) -> bool {
    |t: Seq<char>| !selected.contains(t)
}

/// The test "is selected".
pub open spec fn inside(selected: Set<Seq<char>>) -> spec_fn(Seq<char>) -> bool {
    |t: Seq<char>| selected.contains(t)
}

/// Number of unselected items among the first `i` of `template`.
pub open spec fn open_slots_before(
    template: Seq<Seq<char>>,
    selected: Set<Seq<char>>,
    i: int,
) -> int {
    template.take(i).filter(outside(selected)).len() as int
}

/// Item `i` of the child: the item of the template if it is selected, else
/// the next unselected item of the donor, or the empty identifier when the
/// donor has run out.
pub open spec fn merged_at(
    template: Seq<Seq<char>>,
    rest: Seq<Seq<char>>,
    selected: Set<Seq<char>>,
    i: int,
) -> Seq<char> {
    if selected.contains(template[i]) {
        template[i]
    } else {
        let k = open_slots_before(template, selected, i);
        if k < rest.len() {
            rest[k]
        } else {
            Seq::empty()
        }
    }
}

/// The child that keeps the selected items of `template` in their
/// positions and fills the other positions, from left to right, with the
/// unselected items of `donor` in the order of `donor`.
pub open spec fn merge_by_selection(
    template: Seq<Seq<char>>,
    donor: Seq<Seq<char>>,
    selected: Set<Seq<char>>,
) -> Seq<Seq<char>> {
    let rest = donor.filter(outside(selected));
    Seq::new(template.len(), |i: int| merged_at(template, rest, selected, i))
}

/// In the items that pass a test, an item that passes occurs as often as
/// before and an item that fails does not occur.
pub proof fn lemma_filter_counts(s: Seq<Seq<char>>, p: spec_fn(Seq<char>) -> bool, x: Seq<char>)
    ensures
        s.filter(p).to_multiset().count(x) == if p(x) {
            s.to_multiset().count(x)
        } else {
            0
        },
    decreases s.len(),
{
    broadcast use vstd::seq_lib::group_to_multiset_ensures;

    if s.len() == 0 {
        assert(s.filter(p).len() <= 0) by {
            s.lemma_filter_len(p);
        }
        assert(s.filter(p) =~= Seq::<Seq<char>>::empty());
        assert(s =~= Seq::<Seq<char>>::empty());
    } else {
        let front = s.drop_last();
        let a = s.last();
        lemma_filter_counts(front, p, x);
        assert(s =~= front.push(a));
        Seq::lemma_filter_push(front, a, p);
        vstd::seq_lib::to_multiset_build(front, a);
        if p(a) {
            vstd::seq_lib::to_multiset_build(front.filter(p), a);
        }
    }
}

/// Two sequences that hold the same items hold the same items that pass a test.
pub proof fn lemma_filter_conserves(a: Seq<Seq<char>>, b: Seq<Seq<char>>, p: spec_fn(Seq<char>) -> bool)
    requires
        a.to_multiset() == b.to_multiset(),
    ensures
        a.filter(p).to_multiset() == b.filter(p).to_multiset(),
        a.filter(p).len() == b.filter(p).len(),
{
    broadcast use vstd::seq_lib::group_to_multiset_ensures;

    assert forall|x: Seq<char>| a.filter(p).to_multiset().count(x) == b.filter(
        p,
    ).to_multiset().count(x) by {
        lemma_filter_counts(a, p, x);
        lemma_filter_counts(b, p, x);
    }
    assert(a.filter(p).to_multiset() =~= b.filter(p).to_multiset());
    vstd::seq_lib::to_multiset_len(a.filter(p));
    vstd::seq_lib::to_multiset_len(b.filter(p));
}

/// Of a longer prefix, no fewer items pass a test.
pub proof fn lemma_filter_prefix(s: Seq<Seq<char>>, p: spec_fn(Seq<char>) -> bool, i: int, j: int)
    requires
        0 <= i <= j <= s.len(),
    ensures
        s.take(i).filter(p).len() <= s.take(j).filter(p).len(),
    decreases j - i,
{
    if i < j {
        lemma_filter_prefix(s, p, i, j - 1);
        assert(s.take(j) =~= s.take(j - 1).push(s[j - 1]));
        Seq::lemma_filter_push(s.take(j - 1), s[j - 1], p);
    }
}

/// What the first `i` items of the child hold: the selected items among the
/// first `i` of the template, and as many unselected items of the donor as
/// the template has open slots before `i`.
proof fn lemma_merge_prefix(
    template: Seq<Seq<char>>,
    donor: Seq<Seq<char>>,
    selected: Set<Seq<char>>,
    i: int,
)
    requires
        0 <= i <= template.len(),
        template.filter(outside(selected)).len() == donor.filter(outside(selected)).len(),
    ensures
        open_slots_before(template, selected, i) <= donor.filter(outside(selected)).len(),
        merge_by_selection(template, donor, selected).take(i).to_multiset()
            == template.take(i).filter(inside(selected)).to_multiset().add(
            donor.filter(outside(selected)).take(
                open_slots_before(template, selected, i),
            ).to_multiset(),
        ),
    decreases i,
{
    broadcast use vstd::seq_lib::group_to_multiset_ensures;

    let rest = donor.filter(outside(selected));
    let child = merge_by_selection(template, donor, selected);
    lemma_filter_prefix(template, outside(selected), i, template.len() as int);
    assert(template.take(template.len() as int) =~= template);
    if i == 0 {
        assert(child.take(0) =~= Seq::<Seq<char>>::empty());
        assert(template.take(0) =~= Seq::<Seq<char>>::empty());
        assert(template.take(0).filter(inside(selected)).len() <= 0) by {
            template.take(0).lemma_filter_len(inside(selected));
        }
        assert(template.take(0).filter(outside(selected)).len() <= 0) by {
            template.take(0).lemma_filter_len(outside(selected));
        }
        assert(template.take(0).filter(inside(selected)) =~= Seq::<Seq<char>>::empty());
        assert(rest.take(0) =~= Seq::<Seq<char>>::empty());
        assert(child.take(0).to_multiset() =~= Seq::<Seq<char>>::empty().to_multiset().add(
            Seq::<Seq<char>>::empty().to_multiset(),
        ));
    } else {
        lemma_merge_prefix(template, donor, selected, i - 1);
        lemma_filter_prefix(template, outside(selected), i - 1, i);
        let front = template.take(i - 1);
        let a = template[i - 1];
        let k = open_slots_before(template, selected, i - 1);
        assert(template.take(i) =~= front.push(a));
        Seq::lemma_filter_push(front, a, inside(selected));
        Seq::lemma_filter_push(front, a, outside(selected));
        assert(child.take(i) =~= child.take(i - 1).push(child[i - 1]));
        vstd::seq_lib::to_multiset_build(child.take(i - 1), child[i - 1]);
        let kept = front.filter(inside(selected));
        if selected.contains(a) {
            assert(child[i - 1] == a);
            vstd::seq_lib::to_multiset_build(kept, a);
            assert(child.take(i).to_multiset() =~= kept.push(a).to_multiset().add(
                rest.take(k).to_multiset(),
            ));
        } else {
            assert(open_slots_before(template, selected, i) == k + 1);
            assert(child[i - 1] == rest[k]);
            assert(rest.take(k + 1) =~= rest.take(k).push(rest[k]));
            vstd::seq_lib::to_multiset_build(rest.take(k), rest[k]);
            assert(child.take(i).to_multiset() =~= kept.to_multiset().add(
                rest.take(k + 1).to_multiset(),
            ));
        }
    }
}

/// A child merged from two parents that hold the same items holds the same
/// items, each as often as the parents do, whatever is selected.
pub proof fn merge_conserves_items(
    template: Seq<Seq<char>>,
    donor: Seq<Seq<char>>,
    selected: Set<Seq<char>>,
)
    requires
        template.to_multiset() == donor.to_multiset(),
    ensures
        merge_by_selection(template, donor, selected).to_multiset() == template.to_multiset(),
        merge_by_selection(template, donor, selected).len() == template.len(),
{
    broadcast use vstd::seq_lib::group_to_multiset_ensures;

    let rest = donor.filter(outside(selected));
    let child = merge_by_selection(template, donor, selected);
    let n = template.len() as int;
    lemma_filter_conserves(template, donor, outside(selected));
    lemma_merge_prefix(template, donor, selected, n);
    assert(child.take(n) =~= child);
    assert(template.take(n) =~= template);
    assert(rest.take(rest.len() as int) =~= rest);
    assert forall|x: Seq<char>| child.to_multiset().count(x) == template.to_multiset().count(x) by {
        lemma_filter_counts(template, inside(selected), x);
        lemma_filter_counts(donor, outside(selected), x);
    }
    assert(child.to_multiset() =~= template.to_multiset());
}

/// Whether `ids` holds the text of `key`.
fn is_selected(selected: &Vec<String>, key: &String) -> (b: bool)
    ensures
        b == texts(selected@).to_set().contains(key@),
{
    find_text(selected, key).is_some()
}

/// The items of `donor` that are not selected, in order.
fn unselected(donor: &Vec<String>, selected: &Vec<String>) -> (rest: Vec<String>)
    ensures
        texts(rest@) == texts(donor@).filter(outside(texts(selected@).to_set())),
{
    let ghost chosen = texts(selected@).to_set();
    let mut rest: Vec<String> = Vec::new();
    let mut j: usize = 0;
    assert(texts(donor@).take(0) =~= Seq::<Seq<char>>::empty());
    assert(texts(donor@).take(0).filter(outside(chosen)).len() <= 0) by {
        texts(donor@).take(0).lemma_filter_len(outside(chosen));
    }
    assert(texts(rest@) =~= texts(donor@).take(0).filter(outside(chosen)));
    while j < donor.len()
        invariant
            j <= donor@.len(),
            chosen == texts(selected@).to_set(),
            texts(rest@) == texts(donor@).take(j as int).filter(outside(chosen)),
        decreases donor@.len() - j,
    {
        proof {
            let front = texts(donor@).take(j as int);
            assert(texts(donor@).take(j as int + 1) =~= front.push(donor@[j as int]@));
            Seq::lemma_filter_push(front, donor@[j as int]@, outside(chosen));
        }
        if !is_selected(selected, &donor[j]) {
            let ghost before = texts(rest@);
            rest.push(donor[j].clone());
            assert(texts(rest@) =~= before.push(donor@[j as int]@));
        }
        j += 1;
    }
    assert(texts(donor@).take(j as int) =~= texts(donor@));
    rest
}

/// Builds the child of a precedence operation crossover: from left to
/// right, a selected item of `template` stays where it is, and every other
/// position takes the next unselected item of `donor`.
pub fn pox_build_child(template: &Vec<String>, donor: &Vec<String>, selected: &Vec<String>) -> (child:
    Vec<String>)
    ensures
        texts(child@) == merge_by_selection(
            texts(template@),
            texts(donor@),
            texts(selected@).to_set(),
        ),
{
    let ghost chosen = texts(selected@).to_set();
    let ghost model = merge_by_selection(texts(template@), texts(donor@), chosen);
    let rest = unselected(donor, selected);
    let mut child: Vec<String> = Vec::new();
    let mut k: usize = 0;
    let mut i: usize = 0;
    assert(texts(template@).take(0) =~= Seq::<Seq<char>>::empty());
    assert(texts(template@).take(0).filter(outside(chosen)).len() <= 0) by {
        texts(template@).take(0).lemma_filter_len(outside(chosen));
    }
    while i < template.len()
        invariant
            i <= template@.len(),
            chosen == texts(selected@).to_set(),
            model == merge_by_selection(texts(template@), texts(donor@), chosen),
            texts(rest@) == texts(donor@).filter(outside(chosen)),
            k == open_slots_before(texts(template@), chosen, i as int),
            child@.len() == i,
            forall|j: int| 0 <= j < i ==> (#[trigger] child@[j])@ == model[j],
        decreases template@.len() - i,
    {
        proof {
            let front = texts(template@).take(i as int);
            assert(texts(template@).take(i as int + 1) =~= front.push(template@[i as int]@));
            Seq::lemma_filter_push(front, template@[i as int]@, outside(chosen));
            front.lemma_filter_len(outside(chosen));
        }
        if is_selected(selected, &template[i]) {
            child.push(template[i].clone());
        } else {
            if k < rest.len() {
                assert(texts(rest@)[k as int] == rest@[k as int]@);
                child.push(rest[k].clone());
            } else {
                child.push(String::new());
            }
            k += 1;
        }
        i += 1;
    }
    assert(texts(child@) =~= model);
    child
}

/// Builds the child of a job-based order crossover: the selected items of
/// `primary` are placed at their positions first; then the open positions
/// are filled, from left to right, with the unselected items of `donor`.
pub fn jox_build_child(primary: &Vec<String>, donor: &Vec<String>, selected: &Vec<String>) -> (child:
    Vec<String>)
    ensures
        texts(child@) == merge_by_selection(
            texts(primary@),
            texts(donor@),
            texts(selected@).to_set(),
        ),
{
    let ghost chosen = texts(selected@).to_set();
    let ghost model = merge_by_selection(texts(primary@), texts(donor@), chosen);
    let mut child: Vec<String> = Vec::new();
    let mut placed: Vec<bool> = Vec::new();
    let mut i: usize = 0;
    while i < primary.len()
        invariant
            i <= primary@.len(),
            chosen == texts(selected@).to_set(),
            child@.len() == i,
            placed@.len() == i,
            forall|j: int| 0 <= j < i ==> #[trigger] placed@[j] == chosen.contains(primary@[j]@),
            forall|j: int| 0 <= j < i && placed@[j] ==> (#[trigger] child@[j])@ == primary@[j]@,
        decreases primary@.len() - i,
    {
        if is_selected(selected, &primary[i]) {
            child.push(primary[i].clone());
            placed.push(true);
        } else {
            child.push(String::new());
            placed.push(false);
        }
        i += 1;
    }
    let rest = unselected(donor, selected);
    let mut k: usize = 0;
    let mut slot: usize = 0;
    assert(texts(primary@).take(0) =~= Seq::<Seq<char>>::empty());
    assert(texts(primary@).take(0).filter(outside(chosen)).len() <= 0) by {
        texts(primary@).take(0).lemma_filter_len(outside(chosen));
    }
    while slot < child.len()
        invariant
            slot <= child@.len(),
            child@.len() == primary@.len(),
            placed@.len() == primary@.len(),
            chosen == texts(selected@).to_set(),
            model == merge_by_selection(texts(primary@), texts(donor@), chosen),
            texts(rest@) == texts(donor@).filter(outside(chosen)),
            k == open_slots_before(texts(primary@), chosen, slot as int),
            forall|j: int| 0 <= j < placed@.len() ==> #[trigger] placed@[j] == chosen.contains(primary@[j]@),
            forall|j: int|
                slot <= j < child@.len() && placed@[j] ==> (#[trigger] child@[j])@ == primary@[j]@,
            forall|j: int| 0 <= j < slot ==> (#[trigger] child@[j])@ == model[j],
        decreases child@.len() - slot,
    {
        proof {
            let front = texts(primary@).take(slot as int);
            assert(texts(primary@).take(slot as int + 1) =~= front.push(primary@[slot as int]@));
            Seq::lemma_filter_push(front, primary@[slot as int]@, outside(chosen));
            front.lemma_filter_len(outside(chosen));
        }
        if !placed[slot] {
            if k < rest.len() {
                assert(texts(rest@)[k as int] == rest@[k as int]@);
                child.set(slot, rest[k].clone());
            } else {
                child.set(slot, String::new());
            }
            k += 1;
        }
        slot += 1;
    }
    assert(texts(child@) =~= model);
    child
}

/// Position `i` of a circular reading of `n` positions that begins at `from`.
pub open spec fn wrap(from: int, i: int, n: int) -> int {
    if from + i < n {
        from + i
    } else {
        from + i - n
    }
}

/// The items of `s`, read circularly from position `from`.
pub open spec fn rotated(s: Seq<Seq<char>>, from: int) -> Seq<Seq<char>> {
    Seq::new(s.len(), |i: int| s[wrap(from, i, s.len() as int)])
}

/// The items that are left of `items` when, for every item, as many of its
/// first occurrences are skipped as `budget` holds of it.
pub open spec fn leftover(items: Seq<Seq<char>>, budget: Multiset<Seq<char>>) -> Seq<Seq<char>>
    decreases items.len(),
{
    if items.len() == 0 {
        Seq::empty()
    } else {
        let front = items.drop_last();
        let x = items.last();
        if front.to_multiset().count(x) < budget.count(x) {
            leftover(front, budget)
        } else {
            leftover(front, budget).push(x)
        }
    }
}

/// The child of a linear order crossover: the segment `start..=end` of
/// `p1` stays where it is; the other positions, read circularly from
/// `end + 1`, take the items of `p2`, read circularly from `end + 1`, that
/// are left when the items of the segment are skipped. A position for which
/// nothing is left holds the empty identifier.
pub open spec fn lox_child(p1: Seq<Seq<char>>, p2: Seq<Seq<char>>, start: int, end: int) -> Seq<
    Seq<char>,
> {
    let n = p1.len() as int;
    let segment = p1.subrange(start, end + 1);
    let rest = leftover(rotated(p2.take(n), wrap(end + 1, 0, n)), segment.to_multiset());
    Seq::new(
        p1.len(),
        |pos: int|
            if start <= pos <= end {
                p1[pos]
            } else {
                let q = if pos > end {
                    pos - end - 1
                } else {
                    pos + n - end - 1
                };
                if q < rest.len() {
                    rest[q]
                } else {
                    Seq::empty()
                }
            },
    )
}

/// How often an item is left: as often as it occurs beyond the budget.
pub proof fn lemma_leftover_counts(items: Seq<Seq<char>>, budget: Multiset<Seq<char>>, y: Seq<char>)
    ensures
        leftover(items, budget).to_multiset().count(y) == if items.to_multiset().count(y)
            >= budget.count(y) {
            items.to_multiset().count(y) - budget.count(y)
        } else {
            0
        },
    decreases items.len(),
{
    broadcast use vstd::seq_lib::group_to_multiset_ensures;

    if items.len() == 0 {
        assert(items =~= Seq::<Seq<char>>::empty());
    } else {
        let front = items.drop_last();
        let x = items.last();
        lemma_leftover_counts(front, budget, y);
        assert(items =~= front.push(x));
        vstd::seq_lib::to_multiset_build(front, x);
        if front.to_multiset().count(x) >= budget.count(x) {
            vstd::seq_lib::to_multiset_build(leftover(front, budget), x);
        }
    }
}

/// A circular reading holds the same items.
pub proof fn lemma_rotated_conserves(s: Seq<Seq<char>>, from: int)
    requires
        0 <= from < s.len() || (from == 0 && s.len() == 0),
    ensures
        rotated(s, from).to_multiset() == s.to_multiset(),
        rotated(s, from).len() == s.len(),
{
    broadcast use vstd::seq_lib::group_to_multiset_ensures;

    let n = s.len() as int;
    let head = s.subrange(0, from);
    let tail = s.subrange(from, n);
    assert(rotated(s, from) =~= tail + head);
    assert(s =~= head + tail);
    vstd::seq_lib::lemma_multiset_commutative(tail, head);
    vstd::seq_lib::lemma_multiset_commutative(head, tail);
    assert(tail.to_multiset().add(head.to_multiset()) =~= head.to_multiset().add(
        tail.to_multiset(),
    ));
}

/// The child of a linear order crossover of two parents that hold the same
/// items holds the same items, each as often as the parents do.
pub proof fn lox_conserves_items(p1: Seq<Seq<char>>, p2: Seq<Seq<char>>, start: int, end: int)
    requires
        p1.to_multiset() == p2.to_multiset(),
        0 <= start <= end < p1.len(),
    ensures
        lox_child(p1, p2, start, end).to_multiset() == p1.to_multiset(),
        lox_child(p1, p2, start, end).len() == p1.len(),
{
    broadcast use vstd::seq_lib::group_to_multiset_ensures;

    let n = p1.len() as int;
    vstd::seq_lib::to_multiset_len(p1);
    vstd::seq_lib::to_multiset_len(p2);
    assert(p2.len() == n);
    assert(p2.take(n) =~= p2);
    let from = wrap(end + 1, 0, n);
    let segment = p1.subrange(start, end + 1);
    let before = p1.subrange(0, start);
    let after = p1.subrange(end + 1, n);
    let rot = rotated(p2, from);
    let rest = leftover(rot, segment.to_multiset());
    let child = lox_child(p1, p2, start, end);
    lemma_rotated_conserves(p2, from);
    assert(p1 =~= before + segment + after);
    vstd::seq_lib::lemma_multiset_commutative(before + segment, after);
    vstd::seq_lib::lemma_multiset_commutative(before, segment);
    assert forall|y: Seq<char>| segment.to_multiset().count(y) <= rot.to_multiset().count(y) by {
        assert(p1.to_multiset().count(y) == before.to_multiset().count(y)
            + segment.to_multiset().count(y) + after.to_multiset().count(y));
    }
    assert(segment.to_multiset().subset_of(rot.to_multiset()));
    assert forall|y: Seq<char>| rest.to_multiset().count(y) == rot.to_multiset().sub(
        segment.to_multiset(),
    ).count(y) by {
        lemma_leftover_counts(rot, segment.to_multiset(), y);
    }
    assert(rest.to_multiset() =~= rot.to_multiset().sub(segment.to_multiset()));
    vstd::seq_lib::to_multiset_len(rest);
    vstd::seq_lib::to_multiset_len(rot);
    vstd::seq_lib::to_multiset_len(segment);
    assert(rest.len() == n - (end - start + 1));
    let a = n - end - 1;
    let low = rest.subrange(0, a);
    let high = rest.subrange(a, rest.len() as int);
    assert(rest =~= low + high);
    assert(child =~= high + segment + low);
    vstd::seq_lib::lemma_multiset_commutative(high + segment, low);
    vstd::seq_lib::lemma_multiset_commutative(high, segment);
    vstd::seq_lib::lemma_multiset_commutative(low, high);
    assert forall|y: Seq<char>| child.to_multiset().count(y) == p1.to_multiset().count(y) by {
        assert(child.to_multiset().count(y) == high.to_multiset().count(y)
            + segment.to_multiset().count(y) + low.to_multiset().count(y));
        assert(rest.to_multiset().count(y) == low.to_multiset().count(y) + high.to_multiset().count(y));
        assert(rest.to_multiset().count(y) == rot.to_multiset().count(y)
            - segment.to_multiset().count(y));
    }
    assert(child.to_multiset() =~= p1.to_multiset());
}

/// Builds the child of a linear order crossover.
pub fn lox_build_child(p1: &Vec<String>, p2: &Vec<String>, start: usize, end: usize) -> (child: Vec<
    String,
>)
    requires
        start <= end < p1@.len(),
        p1@.len() <= p2@.len(),
    ensures
        texts(child@) == lox_child(texts(p1@), texts(p2@), start as int, end as int),
{
    let n = p1.len();
    let ghost model = lox_child(texts(p1@), texts(p2@), start as int, end as int);
    let from: usize = if end + 1 < n { end + 1 } else { 0 };
    let ghost cut = texts(p1@).subrange(start as int, end as int + 1);

    let mut segment: Vec<String> = Vec::new();
    let mut s: usize = start;
    while s <= end
        invariant
            start <= s <= end + 1,
            n == p1@.len(),
            end < n,
            segment@.len() == s - start,
            forall|j: int| 0 <= j < segment@.len() ==> (#[trigger] segment@[j])@ == p1@[start + j]@,
        decreases end + 1 - s,
    {
        segment.push(p1[s].clone());
        s += 1;
    }
    assert(texts(segment@) =~= cut);

    let mut rot: Vec<String> = Vec::new();
    let mut i: usize = 0;
    while i < n
        invariant
            i <= n,
            n == p1@.len(),
            n <= p2@.len(),
            from < n,
            rot@.len() == i,
            forall|j: int|
                0 <= j < i ==> (#[trigger] rot@[j])@ == p2@[wrap(from as int, j, n as int)]@,
        decreases n - i,
    {
        let source = if i < n - from { from + i } else { i - (n - from) };
        rot.push(p2[source].clone());
        i += 1;
    }
    let ghost ring = rotated(texts(p2@).take(n as int), from as int);
    assert(texts(rot@) =~= ring);
    let ghost rest = leftover(ring, cut.to_multiset());

    let mut child: Vec<String> = Vec::new();
    let mut c: usize = 0;
    while c < n
        invariant
            c <= n,
            n == p1@.len(),
            start <= end < n,
            child@.len() == c,
            forall|j: int| 0 <= j < c && start <= j <= end ==> (#[trigger] child@[j])@ == p1@[j]@,
            forall|j: int|
                0 <= j < c && !(start <= j <= end) ==> (#[trigger] child@[j])@ == Seq::<char>::empty(),
        decreases n - c,
    {
        if start <= c && c <= end {
            child.push(p1[c].clone());
        } else {
            child.push(String::new());
        }
        c += 1;
    }

    let slots: usize = n - (end - start + 1);
    let mut q: usize = 0;
    let mut r: usize = 0;
    assert(ring.take(0) =~= Seq::<Seq<char>>::empty());
    proof {
        lemma_leftover_prefix(ring, cut.to_multiset(), 0);
    }
    while r < n
        invariant
            r <= n,
            n == p1@.len(),
            start <= end < n,
            from == (if end + 1 < n { end + 1 } else { 0 }),
            slots == n - (end - start + 1),
            child@.len() == n,
            rot@.len() == n,
            ring.len() == n,
            texts(rot@) == ring,
            texts(segment@) == cut,
            rest == leftover(ring, cut.to_multiset()),
            q <= slots,
            q == leftover(ring.take(r as int), cut.to_multiset()).len(),
            q <= rest.len(),
            forall|j: int| 0 <= j < n && start <= j <= end ==> (#[trigger] child@[j])@ == p1@[j]@,
            forall|j: int|
                0 <= j < q ==> (#[trigger] child@[wrap(from as int, j, n as int)])@ == rest[j],
            forall|j: int|
                q <= j < slots ==> (#[trigger] child@[wrap(from as int, j, n as int)])@ == Seq::<
                    char,
                >::empty(),
        ensures
            r == n || q == slots,
        decreases n - r,
    {
        let seen = count_text(&rot, r, &rot[r]);
        let quota = count_text(&segment, segment.len(), &rot[r]);
        let ghost x = rot@[r as int]@;
        let ghost placed = leftover(ring.take(r as int), cut.to_multiset());
        let ghost grown = leftover(ring.take(r as int + 1), cut.to_multiset());
        proof {
            assert(ring[r as int] == x);
            assert(texts(segment@).take(segment@.len() as int) =~= cut);
            assert(ring.take(r as int + 1).drop_last() =~= ring.take(r as int));
            assert(ring.take(r as int + 1).last() == x);
            lemma_leftover_prefix(ring, cut.to_multiset(), r as int + 1);
        }
        if seen >= quota {
            assert(grown == placed.push(x));
            if q == slots {
                break;
            }
            let target = if q < n - from { from + q } else { q - (n - from) };
            assert(target == wrap(from as int, q as int, n as int));
            assert(!(start <= target <= end));
            let ghost before = child@;
            child.set(target, rot[r].clone());
            proof {
                assert(rest[q as int] == x) by {
                    assert(grown[q as int] == x);
                    assert(rest.take(grown.len() as int)[q as int] == rest[q as int]);
                }
                assert forall|j: int| 0 <= j < q + 1 implies (#[trigger] child@[wrap(
                    from as int,
                    j,
                    n as int,
                )])@ == rest[j] by {
                    if j < q {
                        assert(wrap(from as int, j, n as int) != target);
                        assert(before[wrap(from as int, j, n as int)]@ == rest[j]);
                    }
                }
                assert forall|j: int| q + 1 <= j < slots implies (#[trigger] child@[wrap(
                    from as int,
                    j,
                    n as int,
                )])@ == Seq::<char>::empty() by {
                    assert(wrap(from as int, j, n as int) != target);
                    assert(before[wrap(from as int, j, n as int)]@ == Seq::<char>::empty());
                }
            }
            q += 1;
        } else {
            assert(grown == placed);
        }
        r += 1;
    }
    proof {
        if r == n {
            assert(ring.take(n as int) =~= ring);
        }
        assert forall|pos: int| 0 <= pos < n implies texts(child@)[pos] == model[pos] by {
            if start <= pos <= end {
                assert(child@[pos]@ == p1@[pos]@);
            } else {
                let j = if pos > end { pos - end - 1 } else { pos + n - end - 1 };
                assert(wrap(from as int, j, n as int) == pos);
                assert(0 <= j < slots);
                if j < q {
                    assert(child@[wrap(from as int, j, n as int)]@ == rest[j]);
                } else {
                    assert(child@[wrap(from as int, j, n as int)]@ == Seq::<char>::empty());
                }
            }
        }
    }
    assert(texts(child@) =~= model);
    child
}

/// What is left of the first `k` items is the beginning of what is left of all.
proof fn lemma_leftover_prefix(items: Seq<Seq<char>>, budget: Multiset<Seq<char>>, k: int)
    requires
        0 <= k <= items.len(),
    ensures
        leftover(items.take(k), budget).len() <= leftover(items, budget).len(),
        leftover(items.take(k), budget) == leftover(items, budget).take(
            leftover(items.take(k), budget).len() as int,
        ),
    decreases items.len() - k,
{
    if k == items.len() {
        assert(items.take(k) =~= items);
        assert(leftover(items, budget).take(leftover(items, budget).len() as int) =~= leftover(
            items,
            budget,
        ));
    } else {
        lemma_leftover_prefix(items, budget, k + 1);
        assert(items.take(k + 1).drop_last() =~= items.take(k));
        let small = leftover(items.take(k), budget);
        let next = leftover(items.take(k + 1), budget);
        let all = leftover(items, budget);
        assert(small =~= next.take(small.len() as int));
        assert(small =~= all.take(small.len() as int));
    }
}

/// A selection of tasks for a crossover: not empty, and of task
/// identifiers of the activities only.
pub open spec fn is_task_selection(selected: Set<Seq<char>>, activities: Seq<ActivityInfoView>) -> bool {
    &&& exists|x: Seq<char>| selected.contains(x)
    &&& forall|x: Seq<char>| selected.contains(x) ==> info_task_ids(activities).contains(x)
}

/// The child of a parent: the given operation sequence, the machine
/// assignment and the activity index of the parent, not evaluated.
pub open spec fn child_of(parent: ChromosomeView, osv: Seq<Seq<char>>) -> ChromosomeView {
    ChromosomeView {
        osv,
        mav: parent.mav,
        activity_index: parent.activity_index,
        fitness: Fitness::Unevaluated,
    }
}

/// The children come from the parents by a crossover that merges by a
/// selection of tasks: the children of some selection, or copies of the
/// parents when there is no activity.
pub open spec fn merged_children(
    p1: ChromosomeView,
    p2: ChromosomeView,
    activities: Seq<ActivityInfoView>,
    c1: ChromosomeView,
    c2: ChromosomeView,
) -> bool {
    if activities.len() == 0 {
        c1 == p1 && c2 == p2
    } else {
        exists|selected: Set<Seq<char>>| #[trigger]
            is_task_selection(selected, activities) && c1 == child_of(
                p1,
                merge_by_selection(p1.osv, p2.osv, selected),
            ) && c2 == child_of(p2, merge_by_selection(p2.osv, p1.osv, selected))
    }
}

/// The children come from the parents by a linear order crossover: the
/// children of some segment, or copies of parents of fewer than two items.
pub open spec fn segment_children(
    p1: ChromosomeView,
    p2: ChromosomeView,
    c1: ChromosomeView,
    c2: ChromosomeView,
) -> bool {
    if p1.osv.len() < 2 {
        c1 == p1 && c2 == p2
    } else {
        exists|start: int, end: int|
            0 <= start <= end < p1.osv.len() && c1 == child_of(
                p1,
                #[trigger] lox_child(p1.osv, p2.osv, start, end),
            ) && c2 == child_of(p2, lox_child(p2.osv, p1.osv, start, end))
    }
}

/// The task identifiers of the activities, each once, in the order in
/// which they first occur.
fn distinct_task_ids(activities: &[ActivityInfo]) -> (ids: Vec<String>)
    ensures
        texts(ids@).no_duplicates(),
        forall|x: Seq<char>|
            texts(ids@).contains(x) <==> info_task_ids(info_views(activities@)).contains(x),
{
    let ghost all = info_task_ids(info_views(activities@));
    let mut ids: Vec<String> = Vec::new();
    let mut i: usize = 0;
    while i < activities.len()
        invariant
            i <= activities@.len(),
            all == info_task_ids(info_views(activities@)),
            texts(ids@).no_duplicates(),
            forall|x: Seq<char>|
                texts(ids@).contains(x) <==> exists|j: int| 0 <= j < i && all[j] == x,
        decreases activities@.len() - i,
    {
        assert(all[i as int] == activities@[i as int].task_id@);
        let ghost before = texts(ids@);
        if find_text(&ids, &activities[i].task_id).is_none() {
            ids.push(activities[i].task_id.clone());
            proof {
                assert(texts(ids@) =~= before.push(all[i as int]));
                assert forall|x: Seq<char>| texts(ids@).contains(x) <==> exists|j: int|
                    0 <= j < i + 1 && all[j] == x by {
                    if texts(ids@).contains(x) {
                        let k = choose|k: int| 0 <= k < texts(ids@).len() && texts(ids@)[k] == x;
                        if k < before.len() {
                            assert(before[k] == x);
                            assert(before.contains(x));
                        } else {
                            assert(all[i as int] == x);
                        }
                    }
                    if exists|j: int| 0 <= j < i + 1 && all[j] == x {
                        let j = choose|j: int| 0 <= j < i + 1 && all[j] == x;
                        if j < i {
                            assert(before.contains(x));
                            let k = choose|k: int| 0 <= k < before.len() && before[k] == x;
                            assert(texts(ids@)[k] == x);
                        } else {
                            assert(texts(ids@)[before.len() as int] == x);
                        }
                    }
                }
            }
        } else {
            proof {
                assert forall|x: Seq<char>| texts(ids@).contains(x) <==> exists|j: int|
                    0 <= j < i + 1 && all[j] == x by {
                    if exists|j: int| 0 <= j < i + 1 && all[j] == x {
                        let j = choose|j: int| 0 <= j < i + 1 && all[j] == x;
                        if j == i {
                            assert(before.contains(x));
                        }
                    }
                }
            }
        }
        i += 1;
    }
    proof {
        assert forall|x: Seq<char>| texts(ids@).contains(x) <==> all.contains(x) by {
            if all.contains(x) {
                let j = choose|j: int| 0 <= j < all.len() && all[j] == x;
                assert(0 <= j < i && all[j] == x);
            }
        }
    }
    ids
}

/// A random selection of tasks: at least one, at most all.
fn select_tasks(activities: &[ActivityInfo], rng: &mut SmallRng) -> (selected: Option<Vec<String>>)
    ensures
        selected.is_none() == (activities@.len() == 0),
        selected.is_some() ==> is_task_selection(
            texts(selected.unwrap()@).to_set(),
            info_views(activities@),
        ),
{
    broadcast use vstd::seq_lib::group_to_multiset_ensures;

    let task_ids = distinct_task_ids(activities);
    if task_ids.len() == 0 {
        proof {
            if activities@.len() > 0 {
                let all = info_task_ids(info_views(activities@));
                assert(all.contains(all[0]));
                assert(texts(task_ids@).contains(all[0]));
            }
        }
        return None;
    }
    proof {
        if activities@.len() == 0 {
            assert(texts(task_ids@).contains(texts(task_ids@)[0]));
            let all = info_task_ids(info_views(activities@));
            assert(all.contains(texts(task_ids@)[0]));
        }
    }
    let set_size = random_in(rng, 1, task_ids.len());
    let selected = sample_texts(&task_ids, set_size, rng);
    proof {
        let chosen = texts(selected@);
        let all = info_task_ids(info_views(activities@));
        assert(chosen.len() >= 1);
        assert(chosen.to_set().contains(chosen[0])) by {
            assert(chosen.contains(chosen[0]));
        }
        assert forall|x: Seq<char>| chosen.to_set().contains(x) implies all.contains(x) by {
            vstd::seq_lib::to_multiset_contains(chosen, x);
            vstd::seq_lib::to_multiset_contains(texts(task_ids@), x);
            assert(chosen.contains(x));
            assert(chosen.to_multiset().count(x) <= texts(task_ids@).to_multiset().count(x));
        }
    }
    Some(selected)
}

/// Precedence operation crossover: a random selection of tasks keeps its
/// positions in each parent; the other positions of each child take the
/// unselected tasks in the order of the other parent. The children inherit
/// the machine assignment of their parent and are not evaluated. Without
/// activities the children are copies of the parents.
pub fn pox_crossover(
    p1: &ScheduleChromosome,
    p2: &ScheduleChromosome,
    activities: &[ActivityInfo],
    rng: &mut SmallRng,
) -> (children: (ScheduleChromosome, ScheduleChromosome))
    ensures
        merged_children(p1@, p2@, info_views(activities@), children.0@, children.1@),
        p1@.osv.to_multiset() == p2@.osv.to_multiset() ==> children.0@.osv.to_multiset()
            == p1@.osv.to_multiset() && children.1@.osv.to_multiset() == p2@.osv.to_multiset(),
{
    match select_tasks(activities, rng) {
        None => (p1.clone(), p2.clone()),
        Some(selected) => {
            let ghost chosen = texts(selected@).to_set();
            let child1 = ScheduleChromosome {
                osv: pox_build_child(&p1.osv, &p2.osv, &selected),
                mav: copy_texts(&p1.mav),
                activity_index: copy_keys(&p1.activity_index),
                fitness: Fitness::Unevaluated,
            };
            let child2 = ScheduleChromosome {
                osv: pox_build_child(&p2.osv, &p1.osv, &selected),
                mav: copy_texts(&p2.mav),
                activity_index: copy_keys(&p2.activity_index),
                fitness: Fitness::Unevaluated,
            };
            proof {
                assert(is_task_selection(chosen, info_views(activities@)));
                if p1@.osv.to_multiset() == p2@.osv.to_multiset() {
                    merge_conserves_items(p1@.osv, p2@.osv, chosen);
                    merge_conserves_items(p2@.osv, p1@.osv, chosen);
                }
            }
            (child1, child2)
        },
    }
}

/// Job-based order crossover: a random selection of tasks is placed at its
/// positions in each parent; the open positions of each child are filled
/// with the unselected tasks in the order of the other parent. The children
/// inherit the machine assignment of their parent and are not evaluated.
/// Without activities the children are copies of the parents.
pub fn jox_crossover(
    p1: &ScheduleChromosome,
    p2: &ScheduleChromosome,
    activities: &[ActivityInfo],
    rng: &mut SmallRng,
) -> (children: (ScheduleChromosome, ScheduleChromosome))
    ensures
        merged_children(p1@, p2@, info_views(activities@), children.0@, children.1@),
        p1@.osv.to_multiset() == p2@.osv.to_multiset() ==> children.0@.osv.to_multiset()
            == p1@.osv.to_multiset() && children.1@.osv.to_multiset() == p2@.osv.to_multiset(),
{
    match select_tasks(activities, rng) {
        None => (p1.clone(), p2.clone()),
        Some(selected) => {
            let ghost chosen = texts(selected@).to_set();
            let child1 = ScheduleChromosome {
                osv: jox_build_child(&p1.osv, &p2.osv, &selected),
                mav: copy_texts(&p1.mav),
                activity_index: copy_keys(&p1.activity_index),
                fitness: Fitness::Unevaluated,
            };
            let child2 = ScheduleChromosome {
                osv: jox_build_child(&p2.osv, &p1.osv, &selected),
                mav: copy_texts(&p2.mav),
                activity_index: copy_keys(&p2.activity_index),
                fitness: Fitness::Unevaluated,
            };
            proof {
                assert(is_task_selection(chosen, info_views(activities@)));
                if p1@.osv.to_multiset() == p2@.osv.to_multiset() {
                    merge_conserves_items(p1@.osv, p2@.osv, chosen);
                    merge_conserves_items(p2@.osv, p1@.osv, chosen);
                }
            }
            (child1, child2)
        },
    }
}

/// Linear order crossover: a random segment keeps its place in each
/// parent; the other positions of each child take what the other parent
/// holds besides the segment, read circularly from the end of the segment.
/// The children inherit the machine assignment of their parent and are not
/// evaluated. Parents of fewer than two items are copied.
pub fn lox_crossover(
    p1: &ScheduleChromosome,
    p2: &ScheduleChromosome,
    activities: &[ActivityInfo],
    rng: &mut SmallRng,
) -> (children: (ScheduleChromosome, ScheduleChromosome))
    requires
        p1.osv@.len() >= 2 ==> p1.osv@.len() == p2.osv@.len(),
    ensures
        segment_children(p1@, p2@, children.0@, children.1@),
        p1@.osv.to_multiset() == p2@.osv.to_multiset() ==> children.0@.osv.to_multiset()
            == p1@.osv.to_multiset() && children.1@.osv.to_multiset() == p2@.osv.to_multiset(),
{
    let len = p1.osv.len();
    if len < 2 {
        return (p1.clone(), p2.clone());
    }
    let a = random_in(rng, 0, len - 1);
    let b = random_in(rng, 0, len - 1);
    let (start, end) = if a <= b { (a, b) } else { (b, a) };
    let child1 = ScheduleChromosome {
        osv: lox_build_child(&p1.osv, &p2.osv, start, end),
        mav: copy_texts(&p1.mav),
        activity_index: copy_keys(&p1.activity_index),
        fitness: Fitness::Unevaluated,
    };
    let child2 = ScheduleChromosome {
        osv: lox_build_child(&p2.osv, &p1.osv, start, end),
        mav: copy_texts(&p2.mav),
        activity_index: copy_keys(&p2.activity_index),
        fitness: Fitness::Unevaluated,
    };
    proof {
        if p1@.osv.to_multiset() == p2@.osv.to_multiset() {
            lox_conserves_items(p1@.osv, p2@.osv, start as int, end as int);
            lox_conserves_items(p2@.osv, p1@.osv, start as int, end as int);
        }
    }
    (child1, child2)
}

} // verus!
