//! Reachability over directed edges between node identifiers, and the
//! breadth-first search that lists the nodes within a number of hops.

use vstd::prelude::*;
use crate::network::{contains_string, string_views};

verus! {

/// Edges as (source, target) identifier pairs.
pub open spec fn edge_views(edges: Seq<(String, String)>) -> Seq<(Seq<char>, Seq<char>)> {
    edges.map_values(|e: (String, String)| (e.0@, e.1@))
}

/// Some edge leads from `a` to `b`.
pub open spec fn has_edge(edges: Seq<(Seq<char>, Seq<char>)>, a: Seq<char>, b: Seq<char>) -> bool {
    exists|i: int| 0 <= i < edges.len() && edges[i].0 == a && edges[i].1 == b
}

/// `b` can be reached from `a` by following at most `k` edges.
pub open spec fn reach_within(
    edges: Seq<(Seq<char>, Seq<char>)>,
    a: Seq<char>,
    b: Seq<char>,
    k: nat,
) -> bool
    decreases k,
{
    if k == 0 {
        a == b
    } else {
        reach_within(edges, a, b, (k - 1) as nat) || exists|m: Seq<char>|
            #![trigger has_edge(edges, m, b)]
            reach_within(edges, a, m, (k - 1) as nat) && has_edge(edges, m, b)
    }
}

/// `b` can be reached from `a` by following edges.
pub open spec fn reachable(edges: Seq<(Seq<char>, Seq<char>)>, a: Seq<char>, b: Seq<char>) -> bool {
    exists|k: nat| reach_within(edges, a, b, k)
}

/// `b` is exactly `d` edges away from `a`.
pub open spec fn at_distance(
    edges: Seq<(Seq<char>, Seq<char>)>,
    a: Seq<char>,
    b: Seq<char>,
    d: nat,
) -> bool {
    reach_within(edges, a, b, d) && (d == 0 || !reach_within(edges, a, b, (d - 1) as nat))
}

/// Each listed node is no farther from `a` than the ones listed after it.
pub open spec fn listed_by_distance(
    edges: Seq<(Seq<char>, Seq<char>)>,
    a: Seq<char>,
    s: Seq<Seq<char>>,
) -> bool {
    forall|p: int, q: int, k: nat|
        #![trigger reach_within(edges, a, s[q], k), s[p]]
        0 <= p < q < s.len() && reach_within(edges, a, s[q], k) ==> reach_within(edges, a, s[p], k)
}

/// What is reachable within `k` edges is reachable within any `l >= k`.
pub proof fn lemma_reach_within_monotone(
    edges: Seq<(Seq<char>, Seq<char>)>,
    a: Seq<char>,
    b: Seq<char>,
    k: nat,
    l: nat,
)
    requires
        k <= l,
        reach_within(edges, a, b, k),
    ensures
        reach_within(edges, a, b, l),
    decreases l,
{
    if k < l {
        lemma_reach_within_monotone(edges, a, b, k, (l - 1) as nat);
    }
}

/// A node first met `d + 1` edges away is the successor of a node first met `d`
/// edges away.
proof fn lemma_next_level(
    edges: Seq<(Seq<char>, Seq<char>)>,
    a: Seq<char>,
    y: Seq<char>,
    d: nat,
)
    ensures
        at_distance(edges, a, y, d + 1) <==> (!reach_within(edges, a, y, d) && exists|x: Seq<char>|
            at_distance(edges, a, x, d) && has_edge(edges, x, y)),
{
    if at_distance(edges, a, y, d + 1) {
        let m = choose|m: Seq<char>|
            #![trigger has_edge(edges, m, y)]
            reach_within(edges, a, m, d) && has_edge(edges, m, y);
        if d > 0 && reach_within(edges, a, m, (d - 1) as nat) {
            assert(reach_within(edges, a, y, d));
        }
        assert(at_distance(edges, a, m, d));
    }
    if !reach_within(edges, a, y, d) && exists|x: Seq<char>|
        at_distance(edges, a, x, d) && has_edge(edges, x, y) {
        let x = choose|x: Seq<char>| at_distance(edges, a, x, d) && has_edge(edges, x, y);
        assert(reach_within(edges, a, x, d) && has_edge(edges, x, y));
    }
}

/// When no node lies exactly `d + 1` edges away, nothing lies farther than `d`.
proof fn lemma_closed_level(
    edges: Seq<(Seq<char>, Seq<char>)>,
    a: Seq<char>,
    d: nat,
    k: nat,
    y: Seq<char>,
)
    requires
        forall|t: Seq<char>| !#[trigger] at_distance(edges, a, t, d + 1),
        reach_within(edges, a, y, k),
    ensures
        reach_within(edges, a, y, d),
    decreases k,
{
    if k > d {
        if reach_within(edges, a, y, (k - 1) as nat) {
            lemma_closed_level(edges, a, d, (k - 1) as nat, y);
        } else {
            let m = choose|m: Seq<char>|
                #![trigger has_edge(edges, m, y)]
                reach_within(edges, a, m, (k - 1) as nat) && has_edge(edges, m, y);
            lemma_closed_level(edges, a, d, (k - 1) as nat, m);
            assert(reach_within(edges, a, y, d + 1));
            assert(!at_distance(edges, a, y, d + 1));
        }
    } else {
        lemma_reach_within_monotone(edges, a, y, k, d);
    }
}

/// A sequence without repetitions whose members all occur in `c` is no longer than `c`.
pub proof fn lemma_distinct_members_bound<T>(a: Seq<T>, c: Seq<T>)
    requires
        a.no_duplicates(),
        forall|i: int| 0 <= i < a.len() ==> c.contains(#[trigger] a[i]),
    ensures
        a.len() <= c.len(),
    decreases a.len(),
{
    if a.len() > 0 {
        let x = a.last();
        assert(c.contains(a[a.len() - 1]));
        let k = choose|k: int| 0 <= k < c.len() && c[k] == x;
        let c2 = c.remove(k);
        c.remove_ensures(k);
        let a2 = a.drop_last();
        assert forall|i: int| 0 <= i < a2.len() implies c2.contains(#[trigger] a2[i]) by {
            assert(a2[i] == a[i]);
            assert(c.contains(a[i]));
            let j = choose|j: int| 0 <= j < c.len() && c[j] == a[i];
            assert(j != k);
            if j < k {
                assert(c2[j] == a2[i]);
            } else {
                assert(c2[j - 1] == a2[i]);
            }
        }
        lemma_distinct_members_bound(a2, c2);
    }
}

/// Some node listed before position `q` has an edge to the node at `q`.
pub open spec fn has_earlier_source(edges: Seq<(Seq<char>, Seq<char>)>, s: Seq<Seq<char>>, q: int) -> bool {
    exists|p: int| 0 <= p < q && #[trigger] has_edge(edges, s[p], s[q])
}

/// Each listed node after the first is the target of an edge leaving a node
/// listed before it.
pub open spec fn reached_from_earlier(edges: Seq<(Seq<char>, Seq<char>)>, s: Seq<Seq<char>>) -> bool {
    forall|q: int| 1 <= q < s.len() ==> #[trigger] has_earlier_source(edges, s, q)
}

proof fn lemma_exists_distance(edges: Seq<(Seq<char>, Seq<char>)>, a: Seq<char>, t: Seq<char>, k: nat)
    requires
        reach_within(edges, a, t, k),
    ensures
        exists|d: nat| d <= k && #[trigger] at_distance(edges, a, t, d),
    decreases k,
{
    if k == 0 {
        assert(at_distance(edges, a, t, 0));
    } else if reach_within(edges, a, t, (k - 1) as nat) {
        lemma_exists_distance(edges, a, t, (k - 1) as nat);
        let d = choose|d: nat| d <= k - 1 && #[trigger] at_distance(edges, a, t, d);
        assert(d <= k && at_distance(edges, a, t, d));
    } else {
        assert(at_distance(edges, a, t, k));
    }
}

proof fn lemma_breadth_first_step(
    edges: Seq<(Seq<char>, Seq<char>)>,
    a: Seq<char>,
    h: nat,
    s: Seq<Seq<char>>,
    q: int,
) -> (p: int)
    requires
        s.len() > 0,
        s[0] == a,
        s.no_duplicates(),
        forall|t: Seq<char>| s.contains(t) <==> reach_within(edges, a, t, h),
        listed_by_distance(edges, a, s),
        1 <= q < s.len(),
    ensures
        0 <= p < q,
        has_edge(edges, s[p], s[q]),
{
    let t = s[q];
    assert(s.contains(t));
    assert(s[0] != t);
    lemma_exists_distance(edges, a, t, h);
    let d = choose|d: nat| d <= h && #[trigger] at_distance(edges, a, t, d);
    assert(d > 0);
    lemma_next_level(edges, a, t, (d - 1) as nat);
    let x = choose|x: Seq<char>| at_distance(edges, a, x, (d - 1) as nat) && has_edge(edges, x, t);
    lemma_reach_within_monotone(edges, a, x, (d - 1) as nat, h);
    assert(s.contains(x));
    let p = choose|p: int| 0 <= p < s.len() && s[p] == x;
    if p >= q {
        if p == q {
            assert(reach_within(edges, a, t, (d - 1) as nat));
        } else {
            assert(reach_within(edges, a, s[p], (d - 1) as nat));
            assert(reach_within(edges, a, s[q], (d - 1) as nat));
        }
    }
    p
}

/// A breadth-first listing from `a` — starting at `a`, without repetition,
/// holding exactly the nodes within `h` edges, each no farther than those after
/// it — reaches every listed node but `a` along an edge from a node listed
/// earlier.
pub proof fn lemma_breadth_first_reached_from_earlier(
    edges: Seq<(Seq<char>, Seq<char>)>,
    a: Seq<char>,
    h: nat,
    s: Seq<Seq<char>>,
)
    requires
        s.len() > 0,
        s[0] == a,
        s.no_duplicates(),
        forall|t: Seq<char>| s.contains(t) <==> reach_within(edges, a, t, h),
        listed_by_distance(edges, a, s),
    ensures
        reached_from_earlier(edges, s),
{
    assert forall|q: int| 1 <= q < s.len() implies #[trigger] has_earlier_source(edges, s, q) by {
        let w = lemma_breadth_first_step(edges, a, h, s, q);
        assert(0 <= w < q && has_edge(edges, s[w], s[q]));
    }
}

/// New nodes met from `x` along the first `j` edges, appended to `acc`: each
/// target of an edge leaving `x`, in edge order, unless it is in `seen` or
/// already in the list.
pub open spec fn discover_from(
    edges: Seq<(Seq<char>, Seq<char>)>,
    x: Seq<char>,
    seen: Seq<Seq<char>>,
    acc: Seq<Seq<char>>,
    j: nat,
) -> Seq<Seq<char>>
    decreases j,
{
    if j == 0 {
        acc
    } else {
        let a = discover_from(edges, x, seen, acc, (j - 1) as nat);
        let e = edges[j - 1];
        if e.0 == x && !seen.contains(e.1) && !a.contains(e.1) {
            a.push(e.1)
        } else {
            a
        }
    }
}

/// New nodes met from the first `i` frontier nodes, in frontier order.
pub open spec fn discover_level(
    edges: Seq<(Seq<char>, Seq<char>)>,
    frontier: Seq<Seq<char>>,
    seen: Seq<Seq<char>>,
    i: nat,
) -> Seq<Seq<char>>
    decreases i,
{
    if i == 0 {
        Seq::empty()
    } else {
        discover_from(
            edges,
            frontier[i - 1],
            seen,
            discover_level(edges, frontier, seen, (i - 1) as nat),
            edges.len(),
        )
    }
}

/// Breadth-first listing: `seen`, then at most `levels` further levels, each
/// level discovered from the previous one.
pub open spec fn bfs_levels(
    edges: Seq<(Seq<char>, Seq<char>)>,
    frontier: Seq<Seq<char>>,
    seen: Seq<Seq<char>>,
    levels: nat,
) -> Seq<Seq<char>>
    decreases levels,
{
    if levels == 0 || frontier.len() == 0 {
        seen
    } else {
        let next = discover_level(edges, frontier, seen, frontier.len());
        bfs_levels(edges, next, seen + next, (levels - 1) as nat)
    }
}

/// The breadth-first order from `a`, at most `max_hops` levels deep: `a`, then
/// each level in the order its nodes are first met, frontier nodes taken in
/// order and their edges in edge order.
pub open spec fn bfs_order(edges: Seq<(Seq<char>, Seq<char>)>, a: Seq<char>, max_hops: nat) -> Seq<
    Seq<char>,
> {
    bfs_levels(edges, seq![a], seq![a], max_hops)
}

/// Breadth-first search from `start` along `edges`, at most `max_hops` edges deep.
///
/// The first result lists, once each and starting with `start`, exactly the nodes
/// reachable within `max_hops` edges, level by level. The second tells whether the
/// search ran out of new nodes before the depth limit; then the list is the whole
/// set of reachable nodes. Otherwise the list holds more than `max_hops` nodes.
pub fn bfs_within(edges: &Vec<(String, String)>, start: &String, max_hops: usize) -> (r: (
    Vec<String>,
    bool,
))
    ensures
        string_views(r.0@).no_duplicates(),
        r.0@.len() > 0,
        r.0@[0]@ == start@,
        forall|t: Seq<char>|
            string_views(r.0@).contains(t) <==> reach_within(edge_views(edges@), start@, t, max_hops as nat),
        r.1 ==> forall|t: Seq<char>|
            string_views(r.0@).contains(t) <==> reachable(edge_views(edges@), start@, t),
        !r.1 ==> r.0@.len() > max_hops,
        listed_by_distance(edge_views(edges@), start@, string_views(r.0@)),
        string_views(r.0@) == bfs_order(edge_views(edges@), start@, max_hops as nat),
        reached_from_earlier(edge_views(edges@), string_views(r.0@)),
{
    let ghost ev = edge_views(edges@);
    let mut seen: Vec<String> = Vec::new();
    seen.push(start.clone());
    let mut frontier: Vec<String> = Vec::new();
    frontier.push(start.clone());
    let mut d: usize = 0;
    proof {
        assert(string_views(seen@) =~= seq![start@]);
        assert(string_views(frontier@) =~= seq![start@]);
        assert forall|t: Seq<char>|
            string_views(seen@).contains(t) <==> reach_within(ev, start@, t, 0) by {
            if t == start@ {
                assert(string_views(seen@)[0] == t);
            }
        }
    }
    while d < max_hops && frontier.len() > 0
        invariant
            ev == edge_views(edges@),
            d <= max_hops,
            seen@.len() > 0,
            seen@[0]@ == start@,
            string_views(seen@).no_duplicates(),
            forall|t: Seq<char>| string_views(seen@).contains(t) <==> reach_within(ev, start@, t, d as nat),
            forall|t: Seq<char>|
                string_views(frontier@).contains(t) <==> at_distance(ev, start@, t, d as nat),
            frontier@.len() > 0 ==> seen@.len() >= d + 1,
            listed_by_distance(ev, start@, string_views(seen@)),
            bfs_levels(ev, string_views(frontier@), string_views(seen@), (max_hops - d) as nat)
                == bfs_order(ev, start@, max_hops as nat),
        decreases max_hops - d,
    {
        let mut next: Vec<String> = Vec::new();
        let mut i: usize = 0;
        while i < frontier.len()
            invariant
                ev == edge_views(edges@),
                0 <= i <= frontier.len(),
                string_views(next@).no_duplicates(),
                forall|y: Seq<char>| #[trigger]
                    string_views(next@).contains(y) ==> !string_views(seen@).contains(y),
                forall|y: Seq<char>|
                    string_views(next@).contains(y) <==> (!string_views(seen@).contains(y)
                        && exists|x: int| 0 <= x < i && has_edge(ev, frontier@[x]@, y)),
                string_views(next@) == discover_level(
                    ev,
                    string_views(frontier@),
                    string_views(seen@),
                    i as nat,
                ),
            decreases frontier.len() - i,
        {
            let ghost level_acc = string_views(next@);
            let mut j: usize = 0;
            while j < edges.len()
                invariant
                    ev == edge_views(edges@),
                    0 <= i < frontier.len(),
                    0 <= j <= edges.len(),
                    string_views(next@).no_duplicates(),
                    forall|y: Seq<char>| #[trigger]
                        string_views(next@).contains(y) ==> !string_views(seen@).contains(y),
                    forall|y: Seq<char>|
                        string_views(next@).contains(y) <==> (!string_views(seen@).contains(y)
                            && ((exists|x: int| 0 <= x < i && has_edge(ev, frontier@[x]@, y))
                            || exists|e: int|
                            0 <= e < j && ev[e].0 == frontier@[i as int]@ && ev[e].1 == y)),
                    ev.len() == edges@.len(),
                    string_views(next@) == discover_from(
                        ev,
                        frontier@[i as int]@,
                        string_views(seen@),
                        level_acc,
                        j as nat,
                    ),
                decreases edges.len() - j,
            {
                let ghost prev = string_views(next@);
                proof {
                    assert(ev[j as int] == (edges@[j as int].0@, edges@[j as int].1@));
                }
                let matches = edges[j].0 == frontier[i];
                let in_seen = contains_string(&seen, &edges[j].1);
                let in_next = contains_string(&next, &edges[j].1);
                if matches && !in_seen && !in_next {
                    next.push(edges[j].1.clone());
                    proof {
                        assert(string_views(next@) =~= prev.push(edges@[j as int].1@));
                        assert forall|y: Seq<char>|
                            string_views(next@).contains(y) <==> (prev.contains(y) || y
                                == edges@[j as int].1@) by {
                            if y == edges@[j as int].1@ {
                                assert(string_views(next@)[prev.len() as int] == y);
                            }
                            if prev.contains(y) {
                                let q = choose|q: int| 0 <= q < prev.len() && prev[q] == y;
                                assert(string_views(next@)[q] == y);
                            }
                        }
                    }
                }
                proof {
                    assert forall|y: Seq<char>|
                        string_views(next@).contains(y) <==> (!string_views(seen@).contains(y)
                            && ((exists|x: int| 0 <= x < i && has_edge(ev, frontier@[x]@, y))
                            || exists|e: int|
                            0 <= e < j + 1 && ev[e].0 == frontier@[i as int]@ && ev[e].1 == y)) by {
                        if ev[j as int].0 == frontier@[i as int]@ && ev[j as int].1 == y {
                            assert(0 <= j < j + 1);
                            if !string_views(seen@).contains(y) {
                                assert(string_views(next@).contains(y));
                            }
                        }
                        if string_views(next@).contains(y) && !prev.contains(y) {
                            assert(y == edges@[j as int].1@);
                            assert(matches);
                        }
                    }
                    assert(string_views(next@) == discover_from(
                        ev,
                        frontier@[i as int]@,
                        string_views(seen@),
                        level_acc,
                        (j + 1) as nat,
                    ));
                }
                j = j + 1;
            }
            proof {
                assert forall|y: Seq<char>|
                    string_views(next@).contains(y) <==> (!string_views(seen@).contains(y)
                        && exists|x: int| 0 <= x < i + 1 && has_edge(ev, frontier@[x]@, y)) by {
                    if exists|e: int|
                        0 <= e < edges@.len() && ev[e].0 == frontier@[i as int]@ && ev[e].1 == y {
                        assert(has_edge(ev, frontier@[i as int]@, y));
                        assert(0 <= i < i + 1);
                    }
                    if exists|x: int| 0 <= x < i + 1 && has_edge(ev, frontier@[x]@, y) {
                        let x = choose|x: int| 0 <= x < i + 1 && has_edge(ev, frontier@[x]@, y);
                        if x == i {
                            let e = choose|e: int|
                                0 <= e < ev.len() && ev[e].0 == frontier@[x]@ && ev[e].1 == y;
                            assert(0 <= e < edges@.len());
                        }
                    }
                }
                assert(string_views(frontier@)[i as int] == frontier@[i as int]@);
                assert(string_views(next@) == discover_level(
                    ev,
                    string_views(frontier@),
                    string_views(seen@),
                    (i + 1) as nat,
                ));
            }
            i = i + 1;
        }
        proof {
            assert forall|y: Seq<char>|
                string_views(next@).contains(y) <==> at_distance(ev, start@, y, (d + 1) as nat) by {
                lemma_next_level(ev, start@, y, d as nat);
                if exists|x: int| 0 <= x < frontier@.len() && has_edge(ev, frontier@[x]@, y) {
                    let x = choose|x: int| 0 <= x < frontier@.len() && has_edge(ev, frontier@[x]@, y);
                    assert(string_views(frontier@)[x] == frontier@[x]@);
                    assert(string_views(frontier@).contains(frontier@[x]@));
                    assert(at_distance(ev, start@, frontier@[x]@, d as nat));
                }
                if exists|x: Seq<char>| at_distance(ev, start@, x, d as nat) && has_edge(ev, x, y) {
                    let x = choose|x: Seq<char>|
                        at_distance(ev, start@, x, d as nat) && has_edge(ev, x, y);
                    assert(string_views(frontier@).contains(x));
                    let q = choose|q: int|
                        0 <= q < string_views(frontier@).len() && string_views(frontier@)[q] == x;
                    assert(frontier@[q]@ == x);
                }
            }
        }
        let ghost seen_before = string_views(seen@);
        let ghost next_views = string_views(next@);
        let mut k: usize = 0;
        while k < next.len()
            invariant
                0 <= k <= next.len(),
                next_views == string_views(next@),
                next_views.no_duplicates(),
                forall|y: Seq<char>| #[trigger] next_views.contains(y) ==> !seen_before.contains(y),
                string_views(seen@) == seen_before + next_views.take(k as int),
                seen_before.no_duplicates(),
            decreases next.len() - k,
        {
            let ghost before = string_views(seen@);
            seen.push(next[k].clone());
            proof {
                assert(next_views.take(k + 1) =~= next_views.take(k as int).push(next_views[k as int]));
                assert(string_views(seen@) =~= before.push(next@[k as int]@));
            }
            k = k + 1;
        }
        proof {
            assert(next_views.take(next@.len() as int) =~= next_views);
            let all = string_views(seen@);
            assert(all =~= seen_before + next_views);
            assert forall|p: int, q: int| 0 <= p < q < all.len() implies all[p] != all[q] by {
                if q >= seen_before.len() && p < seen_before.len() {
                    assert(next_views.contains(all[q]));
                    assert(seen_before.contains(all[p]));
                }
            }
            assert forall|t: Seq<char>|
                all.contains(t) <==> reach_within(ev, start@, t, (d + 1) as nat) by {
                if all.contains(t) {
                    let q = choose|q: int| 0 <= q < all.len() && all[q] == t;
                    if q < seen_before.len() {
                        assert(seen_before.contains(t));
                        lemma_reach_within_monotone(ev, start@, t, d as nat, (d + 1) as nat);
                    } else {
                        assert(next_views[q - seen_before.len()] == t);
                        assert(next_views.contains(t));
                    }
                }
                if reach_within(ev, start@, t, (d + 1) as nat) {
                    if reach_within(ev, start@, t, d as nat) {
                        assert(seen_before.contains(t));
                        let q = choose|q: int| 0 <= q < seen_before.len() && seen_before[q] == t;
                        assert(all[q] == t);
                    } else {
                        assert(at_distance(ev, start@, t, (d + 1) as nat));
                        assert(next_views.contains(t));
                        let q = choose|q: int| 0 <= q < next_views.len() && next_views[q] == t;
                        assert(all[seen_before.len() + q] == t);
                    }
                }
            }
            assert(all[0] == seen_before[0]);
            assert forall|p: int, q: int, k: nat|
                #![trigger reach_within(ev, start@, all[q], k), all[p]]
                0 <= p < q < all.len() && reach_within(ev, start@, all[q], k) implies reach_within(
                    ev,
                    start@,
                    all[p],
                    k,
                ) by {
                if q < seen_before.len() {
                    assert(all[p] == seen_before[p] && all[q] == seen_before[q]);
                    assert(reach_within(ev, start@, seen_before[q], k));
                } else {
                    let y = all[q];
                    assert(y == next_views[q - seen_before.len()]);
                    assert(next_views.contains(y));
                    assert(at_distance(ev, start@, y, (d + 1) as nat));
                    if k <= d {
                        lemma_reach_within_monotone(ev, start@, y, k, d as nat);
                    }
                    if p < seen_before.len() {
                        assert(all[p] == seen_before[p]);
                        assert(seen_before.contains(all[p]));
                        lemma_reach_within_monotone(ev, start@, all[p], d as nat, k);
                    } else {
                        assert(all[p] == next_views[p - seen_before.len()]);
                        assert(next_views.contains(all[p]));
                        lemma_reach_within_monotone(ev, start@, all[p], (d + 1) as nat, k);
                    }
                }
            }
        }
        proof {
            assert(string_views(frontier@).len() > 0);
            assert(bfs_levels(ev, string_views(frontier@), seen_before, (max_hops - d) as nat)
                == bfs_levels(ev, next_views, seen_before + next_views, (max_hops - d - 1) as nat));
        }
        frontier = next;
        d = d + 1;
    }
    proof {
        if d < max_hops {
            assert forall|t: Seq<char>|
                reach_within(ev, start@, t, max_hops as nat) implies string_views(seen@).contains(t) by {
                assert forall|u: Seq<char>| !#[trigger] at_distance(ev, start@, u, d as nat) by {
                    if at_distance(ev, start@, u, d as nat) {
                        assert(string_views(frontier@).contains(u));
                    }
                }
                if d == 0 {
                    assert(at_distance(ev, start@, start@, 0));
                    assert(false);
                } else {
                    lemma_closed_level(ev, start@, (d - 1) as nat, max_hops as nat, t);
                    lemma_reach_within_monotone(ev, start@, t, (d - 1) as nat, d as nat);
                }
            }
            assert forall|t: Seq<char>|
                string_views(seen@).contains(t) implies reach_within(ev, start@, t, max_hops as nat) by {
                lemma_reach_within_monotone(ev, start@, t, d as nat, max_hops as nat);
            }
        }
        if frontier@.len() == 0 {
            assert forall|u: Seq<char>| !#[trigger] at_distance(ev, start@, u, d as nat) by {
                if at_distance(ev, start@, u, d as nat) {
                    assert(string_views(frontier@).contains(u));
                    let q = choose|q: int|
                        0 <= q < string_views(frontier@).len() && string_views(frontier@)[q] == u;
                }
            }
            assert forall|t: Seq<char>|
                string_views(seen@).contains(t) <==> reachable(ev, start@, t) by {
                if reachable(ev, start@, t) {
                    let k = choose|k: nat| reach_within(ev, start@, t, k);
                    if d == 0 {
                        assert(at_distance(ev, start@, start@, 0));
                    } else {
                        lemma_closed_level(ev, start@, (d - 1) as nat, k, t);
                        lemma_reach_within_monotone(ev, start@, t, (d - 1) as nat, d as nat);
                    }
                }
            }
        }
    }
    proof {
        assert(bfs_levels(ev, string_views(frontier@), string_views(seen@), (max_hops - d) as nat)
            == string_views(seen@));
    }
    proof {
        lemma_breadth_first_reached_from_earlier(ev, start@, max_hops as nat, string_views(seen@));
    }
    let exhausted = frontier.len() == 0;
    (seen, exhausted)
}


/// Every edge is matched by the reverse edge.
pub open spec fn symmetric_edges(edges: Seq<(Seq<char>, Seq<char>)>) -> bool {
    forall|x: Seq<char>, y: Seq<char>| has_edge(edges, x, y) ==> has_edge(edges, y, x)
}

/// Paths compose: a walk of `k1` edges followed by one of `k2` edges is a walk of
/// `k1 + k2` edges.
pub proof fn lemma_reach_within_compose(
    edges: Seq<(Seq<char>, Seq<char>)>,
    a: Seq<char>,
    m: Seq<char>,
    b: Seq<char>,
    k1: nat,
    k2: nat,
)
    requires
        reach_within(edges, a, m, k1),
        reach_within(edges, m, b, k2),
    ensures
        reach_within(edges, a, b, k1 + k2),
    decreases k2,
{
    if k2 == 0 {
        lemma_reach_within_monotone(edges, a, b, k1, k1 + k2);
    } else if reach_within(edges, m, b, (k2 - 1) as nat) {
        lemma_reach_within_compose(edges, a, m, b, k1, (k2 - 1) as nat);
        lemma_reach_within_monotone(edges, a, b, (k1 + k2 - 1) as nat, k1 + k2);
    } else {
        let m2 = choose|m2: Seq<char>|
            #![trigger has_edge(edges, m2, b)]
            reach_within(edges, m, m2, (k2 - 1) as nat) && has_edge(edges, m2, b);
        lemma_reach_within_compose(edges, a, m, m2, k1, (k2 - 1) as nat);
        assert(reach_within(edges, a, m2, (k1 + k2 - 1) as nat) && has_edge(edges, m2, b));
    }
}

/// Reachability composes.
pub proof fn lemma_reachable_transitive(
    edges: Seq<(Seq<char>, Seq<char>)>,
    a: Seq<char>,
    m: Seq<char>,
    b: Seq<char>,
)
    requires
        reachable(edges, a, m),
        reachable(edges, m, b),
    ensures
        reachable(edges, a, b),
{
    let k1 = choose|k: nat| reach_within(edges, a, m, k);
    let k2 = choose|k: nat| reach_within(edges, m, b, k);
    lemma_reach_within_compose(edges, a, m, b, k1, k2);
}

proof fn lemma_reach_within_reverse(
    edges: Seq<(Seq<char>, Seq<char>)>,
    a: Seq<char>,
    b: Seq<char>,
    k: nat,
)
    requires
        symmetric_edges(edges),
        reach_within(edges, a, b, k),
    ensures
        reach_within(edges, b, a, k),
    decreases k,
{
    if k > 0 {
        if reach_within(edges, a, b, (k - 1) as nat) {
            lemma_reach_within_reverse(edges, a, b, (k - 1) as nat);
            lemma_reach_within_monotone(edges, b, a, (k - 1) as nat, k);
        } else {
            let m = choose|m: Seq<char>|
                #![trigger has_edge(edges, m, b)]
                reach_within(edges, a, m, (k - 1) as nat) && has_edge(edges, m, b);
            lemma_reach_within_reverse(edges, a, m, (k - 1) as nat);
            assert(has_edge(edges, b, m));
            assert(reach_within(edges, b, b, 0));
            assert(reach_within(edges, b, m, 1));
            lemma_reach_within_compose(edges, b, m, a, 1, (k - 1) as nat);
        }
    }
}

/// Over symmetric edges, reachability is symmetric.
pub proof fn lemma_reachable_symmetric(
    edges: Seq<(Seq<char>, Seq<char>)>,
    a: Seq<char>,
    b: Seq<char>,
)
    requires
        symmetric_edges(edges),
        reachable(edges, a, b),
    ensures
        reachable(edges, b, a),
{
    let k = choose|k: nat| reach_within(edges, a, b, k);
    lemma_reach_within_reverse(edges, a, b, k);
}

} // verus!
