//! Stable sorting of positions by rows of integer keys.
//!
//! A row is a list of integers, read from left to right: the first column in
//! which two rows differ decides which comes first, and a row that is a
//! proper prefix of another comes before it. Positions whose rows are equal
//! keep the order in which they were given.

use vstd::prelude::*;

verus! {

/// The rows as sequences.
pub open spec fn row_views(rows: Seq<Vec<i128>>) -> Seq<Seq<i128>> {
    Seq::new(rows.len(), |i: int| rows[i]@)
}

/// The rows `a` and `b` hold the same numbers in their first `k` columns.
pub open spec fn agree_upto(a: Seq<i128>, b: Seq<i128>, k: int) -> bool {
    &&& 0 <= k <= a.len()
    &&& k <= b.len()
    &&& forall|i: int| 0 <= i < k ==> a[i] == b[i]
}

/// Column `k` is where `a` falls before `b`: the rows agree before it, and
/// there `a` ends while `b` goes on, or holds the smaller number.
pub open spec fn decides_at(a: Seq<i128>, b: Seq<i128>, k: int) -> bool {
    &&& agree_upto(a, b, k)
    &&& ((k == a.len() && k < b.len()) || (k < a.len() && k < b.len() && a[k] < b[k]))
}

/// Whether row `a` comes strictly before row `b`.
pub open spec fn row_before(a: Seq<i128>, b: Seq<i128>) -> bool {
    exists|k: int| decides_at(a, b, k)
}

/// Whether position `i` comes before position `j` in the sorted order: by
/// row, and for equal rows by position.
pub open spec fn precedes(rows: Seq<Seq<i128>>, i: int, j: int) -> bool {
    row_before(rows[i], rows[j]) || (!row_before(rows[j], rows[i]) && i < j)
}

/// Whether `order` lists every position of `0..n` exactly once.
pub open spec fn is_permutation(order: Seq<usize>, n: int) -> bool {
    &&& order.len() == n
    &&& order.no_duplicates()
    &&& forall|x: int| 0 <= x < order.len() ==> 0 <= #[trigger] order[x] < n
    &&& forall|v: int| 0 <= v < n ==> #[trigger] order.contains(v as usize)
}

/// Whether `order` is the stable sort of the positions of `rows`.
pub open spec fn is_stable_sort(rows: Seq<Seq<i128>>, order: Seq<usize>) -> bool {
    &&& is_permutation(order, rows.len() as int)
    &&& forall|x: int, y: int|
        0 <= x < y < order.len() ==> precedes(rows, #[trigger] order[x] as int, #[trigger] order[y] as int)
}

/// The stable sort of the positions of `rows`.
pub open spec fn stable_sort_of(rows: Seq<Seq<i128>>) -> Seq<usize> {
    choose|order: Seq<usize>| is_stable_sort(rows, order)
}

/// Two rows of which neither comes before the other are equal.
pub proof fn lemma_rows_tied_are_equal(a: Seq<i128>, b: Seq<i128>)
    requires
        !row_before(a, b),
        !row_before(b, a),
    ensures
        a == b,
{
    lemma_agree_or_decide(a, b, 0);
    assert(a =~= b);
}

/// Rows that agree in their first `k` columns and are tied agree in all columns.
proof fn lemma_agree_or_decide(a: Seq<i128>, b: Seq<i128>, k: int)
    requires
        agree_upto(a, b, k),
        !row_before(a, b),
        !row_before(b, a),
    ensures
        a.len() == b.len(),
        forall|i: int| 0 <= i < a.len() ==> a[i] == b[i],
    decreases a.len() - k,
{
    if k == a.len() {
        if k < b.len() {
            assert(decides_at(a, b, k));
        }
    } else if k == b.len() {
        assert(agree_upto(b, a, k));
        assert(decides_at(b, a, k));
    } else {
        if a[k] < b[k] {
            assert(decides_at(a, b, k));
        } else if b[k] < a[k] {
            assert(agree_upto(b, a, k));
            assert(decides_at(b, a, k));
        } else {
            lemma_agree_or_decide(a, b, k + 1);
        }
    }
}

/// No row comes before itself, and of two rows at most one comes before the other.
pub proof fn lemma_row_before_asymmetric(a: Seq<i128>, b: Seq<i128>)
    requires
        row_before(a, b),
    ensures
        !row_before(b, a),
{
    if row_before(b, a) {
        let k = choose|k: int| decides_at(a, b, k);
        let m = choose|m: int| decides_at(b, a, m);
        if k < m {
            assert(b[k] == a[k]);
        } else if m < k {
            assert(a[m] == b[m]);
        }
        assert(false);
    }
}

/// Coming before is transitive.
pub proof fn lemma_row_before_transitive(a: Seq<i128>, b: Seq<i128>, c: Seq<i128>)
    requires
        row_before(a, b),
        row_before(b, c),
    ensures
        row_before(a, c),
{
    let k = choose|k: int| decides_at(a, b, k);
    let m = choose|m: int| decides_at(b, c, m);
    let d = if k <= m { k } else { m };
    assert(agree_upto(a, c, d)) by {
        assert forall|i: int| 0 <= i < d implies a[i] == c[i] by {
            assert(a[i] == b[i]);
            assert(b[i] == c[i]);
        }
    }
    if k < m {
        assert(b[k] == c[k]);
    } else if m < k {
        assert(a[m] == b[m]);
    }
    assert(decides_at(a, c, d));
}

/// The sorted order of positions is transitive.
pub proof fn lemma_precedes_transitive(rows: Seq<Seq<i128>>, i: int, j: int, l: int)
    requires
        precedes(rows, i, j),
        precedes(rows, j, l),
    ensures
        precedes(rows, i, l),
{
    let a = rows[i];
    let b = rows[j];
    let c = rows[l];
    if row_before(a, b) {
        if row_before(b, c) {
            lemma_row_before_transitive(a, b, c);
        } else {
            lemma_rows_tied_are_equal(b, c);
        }
    } else {
        lemma_rows_tied_are_equal(a, b);
        if row_before(b, c) {
        } else {
            lemma_rows_tied_are_equal(b, c);
        }
    }
}

/// Whether row `a` comes strictly before row `b`.
pub fn comes_before(a: &Vec<i128>, b: &Vec<i128>) -> (r: bool)
    ensures
        r == row_before(a@, b@),
{
    let mut k: usize = 0;
    while k < a.len() && k < b.len()
        invariant
            agree_upto(a@, b@, k as int),
        decreases a@.len() - k,
    {
        if a[k] != b[k] {
            let r = a[k] < b[k];
            proof {
                if r {
                    assert(decides_at(a@, b@, k as int));
                } else {
                    assert(agree_upto(b@, a@, k as int));
                    assert(decides_at(b@, a@, k as int));
                    lemma_row_before_asymmetric(b@, a@);
                }
            }
            return r;
        }
        k += 1;
    }
    let r = k == a.len() && k < b.len();
    proof {
        if r {
            assert(decides_at(a@, b@, k as int));
        } else if k < a.len() {
            assert(agree_upto(b@, a@, k as int));
            assert(decides_at(b@, a@, k as int));
            lemma_row_before_asymmetric(b@, a@);
        } else {
            assert(a@ =~= b@);
            if row_before(a@, b@) {
                let d = choose|d: int| decides_at(a@, b@, d);
                assert(false);
            }
        }
    }
    r
}

/// The positions `0..rows.len()`, stably sorted by their rows.
pub fn stable_order(rows: &Vec<Vec<i128>>) -> (order: Vec<usize>)
    ensures
        is_stable_sort(row_views(rows@), order@),
        order@ == stable_sort_of(row_views(rows@)),
{
    let ghost keys = row_views(rows@);
    let mut order: Vec<usize> = Vec::new();
    let mut i: usize = 0;
    while i < rows.len()
        invariant
            i <= rows@.len(),
            keys == row_views(rows@),
            order@.len() == i,
            order@.no_duplicates(),
            forall|x: int| 0 <= x < order@.len() ==> 0 <= #[trigger] order@[x] < i,
            forall|v: int| 0 <= v < i ==> #[trigger] order@.contains(v as usize),
            forall|x: int, y: int|
                0 <= x < y < order@.len() ==> precedes(
                    keys,
                    #[trigger] order@[x] as int,
                    #[trigger] order@[y] as int,
                ),
        decreases rows@.len() - i,
    {
        let mut pos: usize = order.len();
        while pos > 0 && comes_before(&rows[i], &rows[order[pos - 1]])
            invariant
                pos <= order@.len(),
                i < rows@.len(),
                keys == row_views(rows@),
                forall|x: int| 0 <= x < order@.len() ==> 0 <= #[trigger] order@[x] < i,
                forall|y: int|
                    pos <= y < order@.len() ==> row_before(keys[i as int], keys[#[trigger] order@[y] as int]),
            decreases pos,
        {
            pos -= 1;
        }
        let ghost before = order@;
        order.insert(pos, i);
        proof {
            let after = order@;
            assert forall|x: int, y: int| 0 <= x < y < after.len() implies precedes(
                keys,
                #[trigger] after[x] as int,
                #[trigger] after[y] as int,
            ) by {
                if y < pos as int {
                    assert(after[x] == before[x] && after[y] == before[y]);
                } else if y == pos as int {
                    assert(after[x] == before[x]);
                    assert(before[x] < i);
                    if x < pos - 1 {
                        assert(precedes(keys, before[x] as int, before[pos - 1] as int));
                        assert(!row_before(keys[i as int], keys[before[pos - 1] as int]));
                        assert(precedes(keys, before[pos - 1] as int, i as int));
                        lemma_precedes_transitive(
                            keys,
                            before[x] as int,
                            before[pos - 1] as int,
                            i as int,
                        );
                    }
                } else if x < pos as int {
                    assert(after[x] == before[x] && after[y] == before[y - 1]);
                } else if x == pos as int {
                    assert(after[y] == before[y - 1]);
                } else {
                    assert(after[x] == before[x - 1] && after[y] == before[y - 1]);
                }
            }
            assert forall|x: int, y: int| 0 <= x < y < after.len() implies after[x] != after[y] by {
                let bx = if x < pos { x } else { x - 1 };
                let by = if y < pos { y } else { y - 1 };
                if x != pos as int && y != pos as int {
                    assert(after[x] == before[bx] && after[y] == before[by]);
                } else if x == pos as int {
                    assert(after[y] == before[by]);
                } else {
                    assert(after[x] == before[bx]);
                }
            }
            assert forall|v: int| 0 <= v < i + 1 implies #[trigger] after.contains(v as usize) by {
                if v < i {
                    assert(before.contains(v as usize));
                    let x = choose|x: int| 0 <= x < before.len() && before[x] == v as usize;
                    if x < pos {
                        assert(after[x] == v as usize);
                    } else {
                        assert(after[x + 1] == v as usize);
                    }
                } else {
                    assert(after[pos as int] == v as usize);
                }
            }
            assert forall|x: int| 0 <= x < after.len() implies 0 <= #[trigger] after[x] < i + 1 by {
                if x < pos as int {
                    assert(after[x] == before[x]);
                } else if x > pos as int {
                    assert(after[x] == before[x - 1]);
                }
            }
        }
        i += 1;
    }
    proof {
        stable_sort_is_unique(keys, order@, stable_sort_of(keys));
    }
    order
}

/// In a stable sort, a position that precedes another is listed before it.
pub proof fn lemma_sorted_positions(rows: Seq<Seq<i128>>, order: Seq<usize>, i: usize, j: usize)
    requires
        is_stable_sort(rows, order),
        i < rows.len(),
        j < rows.len(),
        precedes(rows, i as int, j as int),
    ensures
        order.contains(i),
        order.contains(j),
        order.index_of(i) < order.index_of(j),
{
    assert(order.contains((i as int) as usize));
    assert(order.contains((j as int) as usize));
    let x = order.index_of(i);
    let y = order.index_of(j);
    if row_before(rows[i as int], rows[j as int]) {
        lemma_row_before_asymmetric(rows[i as int], rows[j as int]);
    }
    if y < x {
        assert(precedes(rows, order[y] as int, order[x] as int));
    }
}

/// Of two positions at most one precedes the other.
pub proof fn lemma_precedes_asymmetric(rows: Seq<Seq<i128>>, i: int, j: int)
    requires
        precedes(rows, i, j),
    ensures
        !precedes(rows, j, i),
{
    if row_before(rows[i], rows[j]) {
        lemma_row_before_asymmetric(rows[i], rows[j]);
    }
}

/// Two stable sorts of the same rows agree in their first `x` positions.
proof fn lemma_sorts_agree_below(rows: Seq<Seq<i128>>, a: Seq<usize>, b: Seq<usize>, x: int)
    requires
        is_stable_sort(rows, a),
        is_stable_sort(rows, b),
        0 <= x <= a.len(),
    ensures
        forall|y: int| 0 <= y < x ==> a[y] == b[y],
    decreases x,
{
    if x > 0 {
        lemma_sorts_agree_below(rows, a, b, x - 1);
        let u = a[x - 1];
        let v = b[x - 1];
        if u != v {
            assert(b.contains((u as int) as usize));
            let p = choose|p: int| 0 <= p < b.len() && b[p] == u;
            assert(a.contains((v as int) as usize));
            let q = choose|q: int| 0 <= q < a.len() && a[q] == v;
            if p < x - 1 {
                assert(a[p] == b[p]);
                assert(a[p] == a[x - 1]);
            }
            if q < x - 1 {
                assert(a[q] == b[q]);
                assert(b[q] == b[x - 1]);
            }
            assert(precedes(rows, b[x - 1] as int, b[p] as int));
            assert(precedes(rows, a[x - 1] as int, a[q] as int));
            lemma_precedes_asymmetric(rows, u as int, v as int);
        }
    }
}

/// The rows have one stable sort only.
pub proof fn stable_sort_is_unique(rows: Seq<Seq<i128>>, a: Seq<usize>, b: Seq<usize>)
    requires
        is_stable_sort(rows, a),
        is_stable_sort(rows, b),
    ensures
        a == b,
{
    lemma_sorts_agree_below(rows, a, b, a.len() as int);
    assert(a =~= b);
}

} // verus!
