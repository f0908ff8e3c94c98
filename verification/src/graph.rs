//! Cycle detection in a directed graph given by successor lists.
//!
//! Nodes are the numbers `0..n`; `succ[u]` lists the nodes that `u` has an
//! edge to. The search is a depth-first traversal with three colours: a node
//! is unseen, on the current path, or done. An edge into a node on the
//! current path closes a cycle; when every node is done without such an edge,
//! the order in which nodes were finished shows that there is none.

use vstd::prelude::*;

verus! {

/// Colour of a node that the search has not reached.
pub const UNSEEN: u8 = 0;

/// Colour of a node on the current search path.
pub const ON_PATH: u8 = 1;

/// Colour of a node whose successors have all been searched.
pub const DONE: u8 = 2;

/// The successor lists as sequences.
pub open spec fn lists(succ: Seq<Vec<usize>>) -> Seq<Seq<usize>> {
    Seq::new(succ.len(), |u: int| succ[u]@)
}

/// Every successor is a node of the graph.
pub open spec fn well_formed(g: Seq<Seq<usize>>) -> bool {
    forall|u: int, j: int| 0 <= u < g.len() && 0 <= j < g[u].len() ==> #[trigger] g[u][j] < g.len()
}

/// Whether the graph has an edge from `u` to `v`.
pub open spec fn has_edge(g: Seq<Seq<usize>>, u: int, v: int) -> bool {
    0 <= u < g.len() && exists|j: int| 0 <= j < g[u].len() && #[trigger] g[u][j] == v
}

/// Whether the graph has an edge from node `i` of `w` to the next.
pub open spec fn is_step(g: Seq<Seq<usize>>, w: Seq<int>, i: int) -> bool {
    has_edge(g, w[i], w[i + 1])
}

/// Whether `w` is a walk along edges of the graph.
pub open spec fn is_walk(g: Seq<Seq<usize>>, w: Seq<int>) -> bool {
    forall|i: int| 0 <= i < w.len() - 1 ==> #[trigger] is_step(g, w, i)
}

/// Whether `w` is a walk of at least one edge that ends where it starts.
pub open spec fn is_closed_walk(g: Seq<Seq<usize>>, w: Seq<int>) -> bool {
    w.len() >= 2 && w.first() == w.last() && is_walk(g, w)
}

/// Whether the graph has a cycle.
pub open spec fn has_cycle(g: Seq<Seq<usize>>) -> bool {
    exists|w: Seq<int>| is_closed_walk(g, w)
}

/// Whether a walk from `u` comes back to a node that it has left.
pub open spec fn leads_to_cycle(g: Seq<Seq<usize>>, u: int) -> bool {
    exists|w: Seq<int>, i: int| is_returning_walk(g, w, u, i)
}

/// Whether `w` is a walk from `u` that ends at the node that it left at step `i`.
pub open spec fn is_returning_walk(g: Seq<Seq<usize>>, w: Seq<int>, u: int, i: int) -> bool {
    &&& is_walk(g, w)
    &&& 0 <= i < w.len() - 1
    &&& w[0] == u
    &&& w[i] == w.last()
}

/// Every colour is one of the three.
pub open spec fn colors_valid(color: Seq<u8>) -> bool {
    forall|x: int| 0 <= x < color.len() ==> #[trigger] color[x] <= DONE
}

/// Number of unseen nodes.
pub open spec fn unseen_count(color: Seq<u8>) -> nat
    decreases color.len(),
{
    if color.len() == 0 {
        0
    } else {
        unseen_count(color.drop_last()) + if color.last() == UNSEEN { 1nat } else { 0nat }
    }
}

/// The colours `b` come from `a` by a search: a node on the path stays there,
/// a done node stays done, an unseen node stays unseen or becomes done.
pub open spec fn colors_advance(a: Seq<u8>, b: Seq<u8>) -> bool {
    &&& a.len() == b.len()
    &&& forall|x: int| 0 <= x < a.len() && a[x] != UNSEEN ==> #[trigger] b[x] == a[x]
    &&& forall|x: int| 0 <= x < a.len() && a[x] == UNSEEN ==> #[trigger] b[x] == UNSEEN || b[x] == DONE
}

/// Every done node was finished before `clock`, after all of its successors.
pub open spec fn finished_in_order(g: Seq<Seq<usize>>, color: Seq<u8>, fin: Seq<int>, clock: int) -> bool {
    &&& fin.len() == g.len()
    &&& forall|x: int| 0 <= x < g.len() && color[x] == DONE ==> #[trigger] fin[x] < clock
    &&& forall|x: int, j: int|
        0 <= x < g.len() && color[x] == DONE && 0 <= j < g[x].len() ==> color[#[trigger] g[x][j] as int]
            == DONE && fin[g[x][j] as int] < fin[x]
}

/// The nodes on the search path are exactly the nodes coloured on-path, and
/// the path follows edges.
pub open spec fn path_matches(g: Seq<Seq<usize>>, color: Seq<u8>, path: Seq<int>) -> bool {
    &&& is_walk(g, path)
    &&& forall|i: int| 0 <= i < path.len() ==> 0 <= #[trigger] path[i] < g.len() && color[path[i]] == ON_PATH
    &&& forall|x: int| 0 <= x < g.len() && color[x] == ON_PATH ==> path.contains(x)
}

/// Colouring an unseen node leaves one unseen node fewer.
proof fn lemma_unseen_count_update(color: Seq<u8>, u: int, c: u8)
    requires
        0 <= u < color.len(),
        color[u] == UNSEEN,
        c != UNSEEN,
    ensures
        unseen_count(color.update(u, c)) + 1 == unseen_count(color),
    decreases color.len(),
{
    let next = color.update(u, c);
    if u == color.len() - 1 {
        assert(next.drop_last() =~= color.drop_last());
    } else {
        assert(next.drop_last() =~= color.drop_last().update(u, c));
        lemma_unseen_count_update(color.drop_last(), u, c);
    }
}

/// A search leaves no more unseen nodes than it found.
proof fn lemma_unseen_count_advance(a: Seq<u8>, b: Seq<u8>)
    requires
        colors_advance(a, b),
    ensures
        unseen_count(b) <= unseen_count(a),
    decreases a.len(),
{
    if a.len() > 0 {
        assert(colors_advance(a.drop_last(), b.drop_last())) by {
            assert forall|x: int| 0 <= x < a.len() - 1 implies a.drop_last()[x] == a[x]
                && b.drop_last()[x] == b[x] by {}
        }
        lemma_unseen_count_advance(a.drop_last(), b.drop_last());
        let x = a.len() - 1;
        assert(a[x] != UNSEEN ==> b[x] == a[x]);
    }
}

/// Along a walk from a done node, every node is done and finishing times
/// fall with every edge.
proof fn lemma_walk_descends(g: Seq<Seq<usize>>, color: Seq<u8>, fin: Seq<int>, clock: int, w: Seq<int>, i: int)
    requires
        well_formed(g),
        color.len() == g.len(),
        finished_in_order(g, color, fin, clock),
        is_walk(g, w),
        0 <= i < w.len(),
        0 <= w[0] < g.len(),
        color[w[0]] == DONE,
    ensures
        0 <= w[i] < g.len(),
        color[w[i]] == DONE,
        fin[w[i]] <= fin[w[0]] - i,
    decreases i,
{
    if i >= 1 {
        lemma_walk_descends(g, color, fin, clock, w, i - 1);
        assert(is_step(g, w, i - 1));
        let u = w[i - 1];
        let j = choose|j: int| 0 <= j < g[u].len() && #[trigger] g[u][j] == w[i];
        assert(color[g[u][j] as int] == DONE && fin[g[u][j] as int] < fin[u]);
    }
}

/// No walk from a done node comes back to a node that it has left.
proof fn lemma_done_leads_nowhere(g: Seq<Seq<usize>>, color: Seq<u8>, fin: Seq<int>, clock: int, u: int)
    requires
        well_formed(g),
        color.len() == g.len(),
        finished_in_order(g, color, fin, clock),
        0 <= u < g.len(),
        color[u] == DONE,
    ensures
        !leads_to_cycle(g, u),
{
    if leads_to_cycle(g, u) {
        let (w, i) = choose|w: Seq<int>, i: int| is_returning_walk(g, w, u, i);
        lemma_walk_descends(g, color, fin, clock, w, i);
        let rest = w.subrange(i, w.len() as int);
        assert(is_walk(g, rest)) by {
            assert forall|k: int| 0 <= k < rest.len() - 1 implies #[trigger] is_step(g, rest, k) by {
                assert(is_step(g, w, i + k));
            }
        }
        lemma_walk_descends(g, color, fin, clock, rest, rest.len() - 1);
        assert(false);
    }
}

/// A graph has a cycle exactly when a walk from one of its nodes comes back
/// to a node that it has left.
pub proof fn lemma_cycle_is_led_to(g: Seq<Seq<usize>>)
    ensures
        has_cycle(g) <==> exists|u: int| 0 <= u < g.len() && leads_to_cycle(g, u),
{
    if has_cycle(g) {
        let w = choose|w: Seq<int>| is_closed_walk(g, w);
        assert(is_step(g, w, 0));
        assert(is_returning_walk(g, w, w[0], 0));
        assert(leads_to_cycle(g, w[0]));
    }
    if exists|u: int| 0 <= u < g.len() && leads_to_cycle(g, u) {
        let u = choose|u: int| 0 <= u < g.len() && leads_to_cycle(g, u);
        let (w, i) = choose|w: Seq<int>, i: int| is_returning_walk(g, w, u, i);
        let rest = w.subrange(i, w.len() as int);
        assert(is_walk(g, rest)) by {
            assert forall|k: int| 0 <= k < rest.len() - 1 implies #[trigger] is_step(g, rest, k) by {
                assert(is_step(g, w, i + k));
            }
        }
        assert(is_closed_walk(g, rest));
    }
}

/// An edge from the end of a walk back into the walk makes a walk that
/// comes back to a node that it has left.
proof fn lemma_back_edge_returns(g: Seq<Seq<usize>>, path: Seq<int>, v: int)
    requires
        is_walk(g, path),
        path.len() > 0,
        has_edge(g, path.last(), v),
        path.contains(v),
    ensures
        leads_to_cycle(g, path[0]),
{
    let i = choose|i: int| 0 <= i < path.len() && path[i] == v;
    let w = path.push(v);
    assert forall|k: int| 0 <= k < w.len() - 1 implies #[trigger] is_step(g, w, k) by {
        if k < w.len() - 2 {
            assert(is_step(g, path, k));
        }
    }
    assert(is_returning_walk(g, w, path[0], i));
}

/// Searches from the unseen node `u`. Returns whether an edge into the
/// current path was found; if not, `u` and all that is reachable from it
/// through unseen nodes is done.
fn has_cycle_dfs(
    u: usize,
    succ: &Vec<Vec<usize>>,
    color: &mut Vec<u8>,
    Ghost(path): Ghost<Seq<int>>,
    Ghost(fin_in): Ghost<Seq<int>>,
    Ghost(clock_in): Ghost<int>,
) -> (r: (bool, Ghost<Seq<int>>, Ghost<int>))
    requires
        well_formed(lists(succ@)),
        old(color)@.len() == succ@.len(),
        u < succ@.len(),
        old(color)@[u as int] == UNSEEN,
        colors_valid(old(color)@),
        path_matches(lists(succ@), old(color)@, path),
        path.len() > 0 ==> has_edge(lists(succ@), path.last(), u as int),
        finished_in_order(lists(succ@), old(color)@, fin_in, clock_in),
    ensures
        r.0 ==> leads_to_cycle(lists(succ@), if path.len() > 0 { path[0] } else { u as int }),
        !r.0 ==> {
            &&& colors_advance(old(color)@, final(color)@)
            &&& final(color)@[u as int] == DONE
            &&& finished_in_order(lists(succ@), final(color)@, r.1@, r.2@)
            &&& r.2@ >= clock_in
            &&& forall|x: int|
                0 <= x < succ@.len() && old(color)@[x] == DONE ==> #[trigger] r.1@[x] == fin_in[x]
        },
    decreases unseen_count(old(color)@),
{
    let ghost g = lists(succ@);
    let ghost entry = color@;
    let ghost entry_fin = fin_in;
    let ghost mut fin = fin_in;
    let ghost mut clock = clock_in;
    color.set(u, ON_PATH);
    let ghost here = path.push(u as int);
    let ghost base = color@;
    proof {
        assert(colors_valid(base)) by {
            assert forall|x: int| 0 <= x < base.len() implies #[trigger] base[x] <= DONE by {
                if x != u as int {
                    assert(entry[x] <= DONE);
                }
            }
        }
        lemma_unseen_count_update(entry, u as int, ON_PATH);
        assert(is_walk(g, here)) by {
            assert forall|i: int| 0 <= i < here.len() - 1 implies #[trigger] is_step(g, here, i) by {
                if i < path.len() - 1 {
                    assert(is_step(g, path, i));
                }
            }
        }
        assert forall|x: int| 0 <= x < g.len() && base[x] == ON_PATH implies here.contains(x) by {
            if x == u as int {
                assert(here[path.len() as int] == x);
            } else {
                assert(path.contains(x));
                let i = choose|i: int| 0 <= i < path.len() && path[i] == x;
                assert(here[i] == x);
            }
        }
        assert(path_matches(g, base, here));
    }
    let mut j: usize = 0;
    while j < succ[u].len()
        invariant
            j <= succ@[u as int]@.len(),
            u < succ@.len(),
            g == lists(succ@),
            well_formed(g),
            color@.len() == succ@.len(),
            entry == old(color)@,
            entry.len() == succ@.len(),
            base.len() == succ@.len(),
            base == entry.update(u as int, ON_PATH),
            entry[u as int] == UNSEEN,
            colors_advance(base, color@),
            colors_valid(entry),
            colors_valid(color@),
            entry_fin.len() == succ@.len(),
            path_matches(g, color@, here),
            here == path.push(u as int),
            finished_in_order(g, color@, fin, clock),
            clock >= clock_in,
            forall|x: int| 0 <= x < succ@.len() && entry[x] == DONE ==> #[trigger] fin[x] == entry_fin[x],
            forall|k: int| 0 <= k < j ==> color@[#[trigger] g[u as int][k] as int] == DONE,
            unseen_count(base) < unseen_count(entry),
        decreases succ@[u as int]@.len() - j,
    {
        let v = succ[u][j];
        assert(g[u as int][j as int] == v);
        assert(has_edge(g, u as int, v as int));
        if color[v] == ON_PATH {
            proof {
                assert(here.contains(v as int));
                lemma_back_edge_returns(g, here, v as int);
                assert(here[0] == if path.len() > 0 { path[0] } else { u as int });
            }
            return (true, Ghost(fin), Ghost(clock));
        }
        if color[v] == UNSEEN {
            let ghost before = color@;
            let ghost before_fin = fin;
            proof {
                lemma_unseen_count_advance(base, before);
            }
            let sub = has_cycle_dfs(v, succ, color, Ghost(here), Ghost(fin), Ghost(clock));
            if sub.0 {
                assert(here[0] == if path.len() > 0 { path[0] } else { u as int });
                return (true, Ghost(fin), Ghost(clock));
            }
            proof {
                fin = sub.1@;
                clock = sub.2@;
                assert(colors_valid(color@)) by {
                    assert forall|x: int| 0 <= x < color@.len() implies #[trigger] color@[x]
                        <= DONE by {
                        assert(before[x] <= DONE);
                    }
                }
                assert(colors_advance(base, color@)) by {
                    assert forall|x: int| 0 <= x < base.len() && base[x] != UNSEEN implies #[trigger] color@[x]
                        == base[x] by {
                        assert(before[x] == base[x]);
                    }
                    assert forall|x: int| 0 <= x < base.len() && base[x] == UNSEEN implies #[trigger] color@[x]
                        == UNSEEN || color@[x] == DONE by {
                        if before[x] == UNSEEN {
                        } else {
                            assert(before[x] == DONE);
                        }
                    }
                }
                assert(path_matches(g, color@, here)) by {
                    assert forall|i: int| 0 <= i < here.len() implies 0 <= #[trigger] here[i] < g.len()
                        && color@[here[i]] == ON_PATH by {
                        assert(before[here[i]] == ON_PATH);
                    }
                    assert forall|x: int| 0 <= x < g.len() && color@[x] == ON_PATH implies here.contains(
                        x,
                    ) by {
                        if before[x] == UNSEEN {
                        } else {
                            assert(before[x] == ON_PATH);
                        }
                    }
                }
                assert forall|x: int| 0 <= x < succ@.len() && entry[x] == DONE implies #[trigger] fin[x]
                    == entry_fin[x] by {
                    assert(base[x] == DONE);
                    assert(before[x] == DONE);
                    assert(before_fin[x] == entry_fin[x]);
                }
                assert forall|k: int| 0 <= k < j implies color@[#[trigger] g[u as int][k] as int]
                    == DONE by {
                    assert(before[g[u as int][k] as int] == DONE);
                }
            }
        }
        j += 1;
    }
    let ghost before = color@;
    let ghost before_fin = fin;
    let ghost now = clock;
    color.set(u, DONE);
    proof {
        fin = before_fin.update(u as int, now);
        clock = now + 1;
        assert(before[u as int] == ON_PATH) by {
            assert(here[path.len() as int] == u as int);
        }
        assert(colors_advance(entry, color@)) by {
            assert forall|x: int| 0 <= x < entry.len() && entry[x] != UNSEEN implies #[trigger] color@[x]
                == entry[x] by {
                assert(base[x] == entry[x]);
                assert(before[x] == base[x]);
            }
            assert forall|x: int| 0 <= x < entry.len() && entry[x] == UNSEEN implies #[trigger] color@[x]
                == UNSEEN || color@[x] == DONE by {
                if x != u as int {
                    assert(base[x] == UNSEEN);
                    assert(before[x] == UNSEEN || before[x] == DONE);
                }
            }
        }
        assert(finished_in_order(g, color@, fin, clock)) by {
            assert forall|x: int| 0 <= x < g.len() && color@[x] == DONE implies #[trigger] fin[x]
                < clock by {
                if x != u as int {
                    assert(before[x] == DONE);
                    assert(before_fin[x] < now);
                }
            }
            assert forall|x: int, k: int|
                0 <= x < g.len() && color@[x] == DONE && 0 <= k < g[x].len() implies color@[#[trigger] g[x][k] as int]
                == DONE && fin[g[x][k] as int] < fin[x] by {
                let y = g[x][k] as int;
                if x == u as int {
                    assert(before[y] == DONE);
                    assert(y != u as int);
                    assert(before_fin[y] < now);
                } else {
                    assert(before[x] == DONE);
                    assert(before[y] == DONE && before_fin[y] < before_fin[x]);
                    assert(y != u as int);
                }
            }
        }
    }
    (false, Ghost(fin), Ghost(clock))
}

/// Searches the whole graph for a cycle. Returns the first node from
/// which a walk comes back to a node that it has left, or `None` when the
/// graph has no cycle.
pub fn find_cycle(succ: &Vec<Vec<usize>>) -> (r: Option<usize>)
    requires
        well_formed(lists(succ@)),
    ensures
        r.is_some() <==> has_cycle(lists(succ@)),
        r.is_some() ==> r.unwrap() < succ@.len() && leads_to_cycle(lists(succ@), r.unwrap() as int),
        r.is_some() ==> forall|x: int| 0 <= x < r.unwrap() ==> !leads_to_cycle(lists(succ@), x),
{
    let ghost g = lists(succ@);
    let n = succ.len();
    let mut color: Vec<u8> = Vec::new();
    let mut k: usize = 0;
    while k < n
        invariant
            k <= n,
            color@.len() == k,
            forall|x: int| 0 <= x < k ==> color@[x] == UNSEEN,
        decreases n - k,
    {
        color.push(UNSEEN);
        k += 1;
    }
    let ghost mut fin: Seq<int> = Seq::new(n as nat, |x: int| 0int);
    let ghost mut clock: int = 0;
    let mut r: usize = 0;
    while r < n
        invariant
            r <= n,
            n == succ@.len(),
            g == lists(succ@),
            well_formed(g),
            color@.len() == n,
            path_matches(g, color@, Seq::<int>::empty()),
            finished_in_order(g, color@, fin, clock),
            forall|x: int| 0 <= x < n ==> color@[x] == UNSEEN || color@[x] == DONE,
            forall|x: int| 0 <= x < r ==> color@[x] == DONE,
            colors_valid(color@),
        decreases n - r,
    {
        if color[r] == UNSEEN {
            let ghost before = color@;
            let sub = has_cycle_dfs(
                r,
                succ,
                &mut color,
                Ghost(Seq::<int>::empty()),
                Ghost(fin),
                Ghost(clock),
            );
            if sub.0 {
                proof {
                    lemma_cycle_is_led_to(g);
                    assert forall|x: int| 0 <= x < r implies !leads_to_cycle(g, x) by {
                        lemma_done_leads_nowhere(g, before, fin, clock, x);
                    }
                }
                return Some(r);
            }
            proof {
                fin = sub.1@;
                clock = sub.2@;
                assert forall|x: int| 0 <= x < g.len() && color@[x] == ON_PATH implies Seq::<
                    int,
                >::empty().contains(x) by {
                    if before[x] == UNSEEN {
                    } else {
                        assert(before[x] == ON_PATH);
                        assert(Seq::<int>::empty().contains(x));
                    }
                }
                assert forall|x: int| 0 <= x < r implies color@[x] == DONE by {
                    assert(before[x] == DONE);
                }
                assert forall|x: int| 0 <= x < n implies color@[x] == UNSEEN || color@[x]
                    == DONE by {
                    if before[x] == UNSEEN {
                    } else {
                        assert(before[x] == DONE);
                    }
                }
                assert(colors_valid(color@));
            }
        }
        r += 1;
    }
    proof {
        lemma_cycle_is_led_to(g);
        assert forall|x: int| 0 <= x < n implies !leads_to_cycle(g, x) by {
            lemma_done_leads_nowhere(g, color@, fin, clock, x);
        }
    }
    None
}

} // verus!
