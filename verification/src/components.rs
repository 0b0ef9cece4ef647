//! Connected components of the solver's index graph, and the detection of
//! floating components: those that hold no node of fixed pressure, which the
//! Newton and NLP set-ups must anchor (or reject, when their net demand cannot
//! balance).

use vstd::prelude::*;
use crate::reach::lemma_distinct_members_bound;

verus! {

/// The link `e` joins `a` and `b`, in either direction.
pub open spec fn link_joins(e: (usize, usize), a: usize, b: usize) -> bool {
    (e.0 == a && e.1 == b) || (e.0 == b && e.1 == a)
}

/// Some link joins `a` and `b`.
pub open spec fn linked(links: Seq<(usize, usize)>, a: usize, b: usize) -> bool {
    exists|k: int| 0 <= k < links.len() && #[trigger] link_joins(links[k], a, b)
}

/// Step `i` of the walk `p` follows a link.
pub open spec fn walk_step(links: Seq<(usize, usize)>, p: Seq<usize>, i: int) -> bool {
    linked(links, p[i], p[i + 1])
}

/// `p` is a non-empty walk along links.
pub open spec fn is_walk(links: Seq<(usize, usize)>, p: Seq<usize>) -> bool {
    p.len() > 0 && forall|i: int| 0 <= i < p.len() - 1 ==> #[trigger] walk_step(links, p, i)
}

/// A walk leads from `a` to `b`.
pub open spec fn connected(links: Seq<(usize, usize)>, a: usize, b: usize) -> bool {
    exists|p: Seq<usize>| #[trigger] is_walk(links, p) && p[0] == a && p.last() == b
}

/// `c` lists the connected component of its first member.
pub open spec fn is_component(links: Seq<(usize, usize)>, c: Seq<usize>) -> bool {
    c.len() > 0 && forall|y: usize| c.contains(y) <==> connected(links, c[0], y)
}

/// Every link that touches a member of `c` leads to a member of `c`.
pub open spec fn closed_under_links(links: Seq<(usize, usize)>, c: Set<usize>) -> bool {
    forall|x: usize, y: usize| c.contains(x) && #[trigger] linked(links, x, y) ==> c.contains(y)
}

/// Links join their ends in both directions.
pub proof fn lemma_linked_symmetric(links: Seq<(usize, usize)>, a: usize, b: usize)
    requires
        linked(links, a, b),
    ensures
        linked(links, b, a),
{
    let k = choose|k: int| 0 <= k < links.len() && #[trigger] link_joins(links[k], a, b);
    assert(link_joins(links[k], b, a));
}

/// Every node is connected to itself.
pub proof fn lemma_connected_reflexive(links: Seq<(usize, usize)>, a: usize)
    ensures
        connected(links, a, a),
{
    let p = seq![a];
    assert(is_walk(links, p));
}

/// A walk extended by one link is a walk.
pub proof fn lemma_connected_step(links: Seq<(usize, usize)>, a: usize, b: usize, c: usize)
    requires
        connected(links, a, b),
        linked(links, b, c),
    ensures
        connected(links, a, c),
{
    let p = choose|p: Seq<usize>| #[trigger] is_walk(links, p) && p[0] == a && p.last() == b;
    let q = p.push(c);
    assert forall|i: int| 0 <= i < q.len() - 1 implies #[trigger] walk_step(links, q, i) by {
        if i < p.len() - 1 {
            assert(walk_step(links, p, i));
            assert(q[i] == p[i] && q[i + 1] == p[i + 1]);
        } else {
            assert(q[i] == b && q[i + 1] == c);
        }
    }
    assert(is_walk(links, q));
}

/// Connectivity is transitive.
pub proof fn lemma_connected_transitive(links: Seq<(usize, usize)>, a: usize, b: usize, c: usize)
    requires
        connected(links, a, b),
        connected(links, b, c),
    ensures
        connected(links, a, c),
{
    let q = choose|q: Seq<usize>| #[trigger] is_walk(links, q) && q[0] == b && q.last() == c;
    lemma_transitive_along(links, a, q);
}

proof fn lemma_transitive_along(links: Seq<(usize, usize)>, a: usize, q: Seq<usize>)
    requires
        is_walk(links, q),
        connected(links, a, q[0]),
    ensures
        connected(links, a, q.last()),
    decreases q.len(),
{
    if q.len() > 1 {
        let q2 = q.drop_last();
        assert forall|i: int| 0 <= i < q2.len() - 1 implies #[trigger] walk_step(links, q2, i) by {
            assert(walk_step(links, q, i));
        }
        assert(is_walk(links, q2));
        lemma_transitive_along(links, a, q2);
        assert(walk_step(links, q, q.len() - 2));
        lemma_connected_step(links, a, q2.last(), q.last());
    }
}

/// Connectivity is symmetric.
pub proof fn lemma_connected_symmetric(links: Seq<(usize, usize)>, a: usize, b: usize)
    requires
        connected(links, a, b),
    ensures
        connected(links, b, a),
{
    let p = choose|p: Seq<usize>| #[trigger] is_walk(links, p) && p[0] == a && p.last() == b;
    lemma_symmetric_along(links, p);
}

proof fn lemma_symmetric_along(links: Seq<(usize, usize)>, p: Seq<usize>)
    requires
        is_walk(links, p),
    ensures
        connected(links, p.last(), p[0]),
    decreases p.len(),
{
    if p.len() == 1 {
        lemma_connected_reflexive(links, p[0]);
    } else {
        let p2 = p.drop_last();
        assert forall|i: int| 0 <= i < p2.len() - 1 implies #[trigger] walk_step(links, p2, i) by {
            assert(walk_step(links, p, i));
        }
        assert(is_walk(links, p2));
        lemma_symmetric_along(links, p2);
        assert(walk_step(links, p, p.len() - 2));
        lemma_linked_symmetric(links, p2.last(), p.last());
        lemma_connected_reflexive(links, p.last());
        lemma_connected_step(links, p.last(), p.last(), p2.last());
        lemma_connected_transitive(links, p.last(), p2.last(), p[0]);
    }
}

/// A set closed under links holds everything connected to its members.
pub proof fn lemma_closed_holds_connected(
    links: Seq<(usize, usize)>,
    c: Set<usize>,
    a: usize,
    b: usize,
)
    requires
        closed_under_links(links, c),
        c.contains(a),
        connected(links, a, b),
    ensures
        c.contains(b),
{
    let p = choose|p: Seq<usize>| #[trigger] is_walk(links, p) && p[0] == a && p.last() == b;
    lemma_closed_along(links, c, p);
}

proof fn lemma_closed_along(links: Seq<(usize, usize)>, c: Set<usize>, p: Seq<usize>)
    requires
        closed_under_links(links, c),
        is_walk(links, p),
        c.contains(p[0]),
    ensures
        c.contains(p.last()),
    decreases p.len(),
{
    if p.len() > 1 {
        let p2 = p.drop_last();
        assert forall|i: int| 0 <= i < p2.len() - 1 implies #[trigger] walk_step(links, p2, i) by {
            assert(walk_step(links, p, i));
        }
        lemma_closed_along(links, c, p2);
        assert(walk_step(links, p, p.len() - 2));
        assert(linked(links, p2.last(), p.last()));
    }
}

/// A node connected to another one is that node or the end of some link.
pub proof fn lemma_connected_endpoint(links: Seq<(usize, usize)>, a: usize, b: usize)
    requires
        connected(links, a, b),
        a != b,
    ensures
        exists|k: int| 0 <= k < links.len() && (links[k].0 == b || links[k].1 == b),
{
    let p = choose|p: Seq<usize>| #[trigger] is_walk(links, p) && p[0] == a && p.last() == b;
    assert(p.len() > 1);
    assert(walk_step(links, p, p.len() - 2));
    let k = choose|k: int|
        0 <= k < links.len() && #[trigger] link_joins(links[k], p[p.len() - 2], p[p.len() - 1]);
    assert(0 <= k < links.len() && (links[k].0 == b || links[k].1 == b));
}

/// Neighbour lists of the nodes `0..n`: `b` is listed under `a` exactly when a
/// link joins them.
fn adjacency_lists(n: usize, links: &Vec<(usize, usize)>) -> (adj: Vec<Vec<usize>>)
    requires
        forall|k: int| 0 <= k < links@.len() ==> links@[k].0 < n && links@[k].1 < n,
    ensures
        adj@.len() == n,
        forall|a: int, b: usize| 0 <= a < n ==> (adj@[a]@.contains(b) <==> linked(links@, a as usize, b)),
{
    let mut adj: Vec<Vec<usize>> = Vec::new();
    let mut i: usize = 0;
    while i < n
        invariant
            0 <= i <= n,
            adj@.len() == i,
            forall|a: int| 0 <= a < i ==> adj@[a]@.len() == 0,
        decreases n - i,
    {
        adj.push(Vec::new());
        i = i + 1;
    }
    let mut k: usize = 0;
    while k < links.len()
        invariant
            0 <= k <= links@.len(),
            adj@.len() == n,
            forall|q: int| 0 <= q < links@.len() ==> links@[q].0 < n && links@[q].1 < n,
            forall|a: int, b: usize|
                0 <= a < n ==> (adj@[a]@.contains(b) <==> exists|q: int|
                    0 <= q < k && #[trigger] link_joins(links@[q], a as usize, b)),
        decreases links@.len() - k,
    {
        let (a, b) = links[k];
        let ghost before = adj@;
        adj[a].push(b);
        let ghost mid = adj@;
        adj[b].push(a);
        proof {
            assert forall|x: int, y: usize|
                0 <= x < n implies (adj@[x]@.contains(y) <==> exists|q: int|
                    0 <= q < k + 1 && #[trigger] link_joins(links@[q], x as usize, y)) by {
                let now = adj@[x]@;
                if x == a && x == b {
                    assert(now == before[x]@.push(b).push(a));
                } else if x == a {
                    assert(now == before[x]@.push(b));
                } else if x == b {
                    assert(now == before[x]@.push(a));
                } else {
                    assert(now == before[x]@);
                }
                if now.contains(y) && !before[x]@.contains(y) {
                    assert(link_joins(links@[k as int], x as usize, y));
                }
                if exists|q: int| 0 <= q < k + 1 && #[trigger] link_joins(links@[q], x as usize, y) {
                    let q = choose|q: int| 0 <= q < k + 1 && #[trigger] link_joins(links@[q], x as usize, y);
                    if q == k {
                        if x == a {
                            assert(y == b);
                            assert(now[now.len() - 1] == y || now[now.len() - 2] == y);
                        } else {
                            assert(x == b && y == a);
                            assert(now[now.len() - 1] == y);
                        }
                    } else {
                        assert(before[x]@.contains(y));
                        let w = choose|w: int| 0 <= w < before[x]@.len() && before[x]@[w] == y;
                        assert(now[w] == y);
                    }
                }
            }
        }
        k = k + 1;
    }
    adj
}

/// The nodes below `v.len()` that `v` marks.
pub open spec fn marked(v: Seq<bool>) -> Set<usize> {
    Set::new(|x: usize| x < v.len() && v[x as int])
}

proof fn lemma_linked_below(links: Seq<(usize, usize)>, n: usize, a: usize, b: usize)
    requires
        forall|k: int| 0 <= k < links.len() ==> links[k].0 < n && links[k].1 < n,
        linked(links, a, b),
    ensures
        a < n,
        b < n,
{
    let k = choose|k: int| 0 <= k < links.len() && #[trigger] link_joins(links[k], a, b);
}

/// The nodes `0..n` in order.
spec fn all_nodes(n: usize) -> Seq<usize> {
    Seq::new(n as nat, |i: int| i as usize)
}

proof fn lemma_bounded_distinct_len(s: Seq<usize>, n: usize)
    requires
        s.no_duplicates(),
        forall|i: int| 0 <= i < s.len() ==> s[i] < n,
    ensures
        s.len() <= n,
{
    assert forall|i: int| 0 <= i < s.len() implies all_nodes(n).contains(#[trigger] s[i]) by {
        assert(all_nodes(n)[s[i] as int] == s[i]);
    }
    lemma_distinct_members_bound(s, all_nodes(n));
}

/// Depth-first search from `start` over the neighbour lists, marking what it
/// reaches. Returns the component of `start`, `start` first.
fn explore_component(
    adj: &Vec<Vec<usize>>,
    links: &Vec<(usize, usize)>,
    start: usize,
    visited: &mut Vec<bool>,
) -> (comp: Vec<usize>)
    requires
        adj@.len() == old(visited)@.len(),
        forall|k: int| 0 <= k < links@.len() ==> links@[k].0 < adj@.len() && links@[k].1 < adj@.len(),
        forall|a: int, b: usize|
            0 <= a < adj@.len() ==> (adj@[a]@.contains(b) <==> linked(links@, a as usize, b)),
        start < adj@.len(),
        !old(visited)@[start as int],
        closed_under_links(links@, marked(old(visited)@)),
    ensures
        final(visited)@.len() == old(visited)@.len(),
        comp@.len() > 0,
        comp@[0] == start,
        comp@.no_duplicates(),
        forall|y: usize| comp@.contains(y) <==> connected(links@, start, y),
        forall|y: usize| comp@.contains(y) ==> y < adj@.len() && !old(visited)@[y as int],
        forall|x: int|
            0 <= x < final(visited)@.len() ==> (final(visited)@[x] == (old(visited)@[x]
                || comp@.contains(x as usize))),
{
    let n = adj.len();
    let ghost v0 = visited@;
    let ghost ls = links@;
    let mut comp: Vec<usize> = Vec::new();
    let mut stack: Vec<usize> = Vec::new();
    visited.set(start, true);
    stack.push(start);
    proof {
        lemma_connected_reflexive(ls, start);
        assert(stack@ == seq![start]);
        assert forall|x: usize| x < n implies (visited@[x as int] == (v0[x as int] || comp@.contains(x)
            || stack@.contains(x))) by {
            if x == start {
                assert(stack@[0] == start);
            }
        }
    }
    while stack.len() > 0
        invariant
            n == adj@.len(),
            visited@.len() == n,
            v0.len() == n,
            ls == links@,
            start < n,
            !v0[start as int],
            closed_under_links(ls, marked(v0)),
            forall|k: int| 0 <= k < ls.len() ==> ls[k].0 < n && ls[k].1 < n,
            forall|a: int, b: usize| 0 <= a < n ==> (adj@[a]@.contains(b) <==> linked(ls, a as usize, b)),
            forall|x: usize|
                #![trigger visited@[x as int]]
                x < n ==> (visited@[x as int] == (v0[x as int] || comp@.contains(x)
                || stack@.contains(x))),
            forall|x: usize| #![trigger comp@.contains(x)] comp@.contains(x) ==> x < n && !v0[x as int] && connected(ls, start, x),
            forall|x: usize| #![trigger stack@.contains(x)] stack@.contains(x) ==> x < n && !v0[x as int] && connected(ls, start, x),
            comp@.no_duplicates(),
            stack@.no_duplicates(),
            forall|x: usize| !(comp@.contains(x) && stack@.contains(x)),
            comp@.len() > 0 ==> comp@[0] == start,
            comp@.len() == 0 ==> stack@ == seq![start],
            comp@.len() <= n,
            forall|x: usize, y: usize| comp@.contains(x) && #[trigger] linked(ls, x, y) ==> visited@[y as int],
        decreases n - comp@.len(),
    {
        let ghost comp_before = comp@;
        let ghost stack_before = stack@;
        let x = stack.pop().unwrap();
        proof {
            assert(stack_before.last() == x);
            assert(stack@ == stack_before.drop_last());
            assert(stack_before.contains(x));
            assert forall|z: usize|
                #![trigger stack_before.contains(z)]
                #![trigger stack@.contains(z)]
                stack_before.contains(z) <==> (stack@.contains(z) || z == x) by {
                if stack_before.contains(z) && z != x {
                    let w = choose|w: int| 0 <= w < stack_before.len() && stack_before[w] == z;
                    assert(w != stack_before.len() - 1);
                    assert(stack@[w] == z);
                }
            }
            assert(!stack@.contains(x)) by {
                if stack@.contains(x) {
                    let w = choose|w: int| 0 <= w < stack@.len() && stack@[w] == x;
                    assert(stack_before[w] == stack_before[stack_before.len() - 1]);
                }
            }
        }
        comp.push(x);
        proof {
            assert(comp@ == comp_before.push(x));
            assert forall|z: usize|
                #![trigger comp_before.contains(z)]
                #![trigger comp@.contains(z)]
                comp@.contains(z) <==> (comp_before.contains(z) || z == x) by {
                if comp@.contains(z) && z != x {
                    let w = choose|w: int| 0 <= w < comp@.len() && comp@[w] == z;
                    assert(comp_before[w] == z);
                }
                if comp_before.contains(z) {
                    let w = choose|w: int| 0 <= w < comp_before.len() && comp_before[w] == z;
                    assert(comp@[w] == z);
                }
                if z == x {
                    assert(comp@[comp@.len() - 1] == x);
                }
            }
            assert(comp@.no_duplicates()) by {
                assert forall|a: int, b: int| 0 <= a < b < comp@.len() implies comp@[a] != comp@[b] by {
                    if b == comp@.len() - 1 {
                        assert(comp_before.contains(comp@[a]));
                    }
                }
            }
            assert forall|i: int| 0 <= i < comp@.len() implies comp@[i] < n by {
                if i < comp_before.len() {
                    assert(comp@[i] == comp_before[i]);
                    assert(comp_before.contains(comp_before[i]));
                } else {
                    assert(comp@[i] == x);
                }
            }
            lemma_bounded_distinct_len(comp@, n);
            if comp_before.len() == 0 {
                assert(x == start);
            }
            assert forall|z: usize| comp@.contains(z) implies z < n && !v0[z as int] && connected(
                ls,
                start,
                z,
            ) by {
                if z != x {
                    assert(comp_before.contains(z));
                } else {
                    assert(stack_before.contains(x));
                }
            }
            assert forall|z: usize| stack@.contains(z) implies z < n && !v0[z as int] && connected(
                ls,
                start,
                z,
            ) by {
                assert(stack_before.contains(z));
            }
        }
        let mut j: usize = 0;
        while j < adj[x].len()
            invariant
                n == adj@.len(),
                visited@.len() == n,
                v0.len() == n,
                ls == links@,
                x < n,
                comp@.len() > 0,
                comp@.last() == x,
                connected(ls, start, x),
                0 <= j <= adj@[x as int]@.len(),
                forall|k: int| 0 <= k < ls.len() ==> ls[k].0 < n && ls[k].1 < n,
                forall|a: int, b: usize| 0 <= a < n ==> (adj@[a]@.contains(b) <==> linked(ls, a as usize, b)),
                forall|z: usize|
                    #![trigger visited@[z as int]]
                    z < n ==> (visited@[z as int] == (v0[z as int] || comp@.contains(z)
                    || stack@.contains(z))),
                forall|z: usize| #![trigger comp@.contains(z)] comp@.contains(z) ==> z < n && !v0[z as int] && connected(ls, start, z),
                forall|z: usize| #![trigger stack@.contains(z)] stack@.contains(z) ==> z < n && !v0[z as int] && connected(ls, start, z),
                stack@.no_duplicates(),
                forall|z: usize| !(comp@.contains(z) && stack@.contains(z)),
                forall|i: int| 0 <= i < j ==> visited@[adj@[x as int]@[i] as int],
                forall|c: usize, y: usize|
                    comp@.drop_last().contains(c) && #[trigger] linked(ls, c, y) ==> visited@[y as int],
            decreases adj@[x as int]@.len() - j,
        {
            let y = adj[x][j];
            proof {
                assert(adj@[x as int]@.contains(y));
                lemma_linked_below(ls, n, x, y);
            }
            if !visited[y] {
                let ghost sb = stack@;
                assert(visited@[y as int] == (v0[y as int] || comp@.contains(y) || sb.contains(y)));
                assert(!sb.contains(y));
                let ghost vb = visited@;
                visited.set(y, true);
                stack.push(y);
                proof {
                    lemma_connected_step(ls, start, x, y);
                    assert forall|z: usize|
                        #![trigger sb.contains(z)]
                        #![trigger stack@.contains(z)]
                        stack@.contains(z) <==> (sb.contains(z) || z == y) by {
                        if stack@.contains(z) && z != y {
                            let w = choose|w: int| 0 <= w < stack@.len() && stack@[w] == z;
                            assert(sb[w] == z);
                        }
                        if sb.contains(z) {
                            let w = choose|w: int| 0 <= w < sb.len() && sb[w] == z;
                            assert(stack@[w] == z);
                        }
                        if z == y {
                            assert(stack@[stack@.len() - 1] == y);
                        }
                    }
                    assert forall|z: usize| z < n implies (visited@[z as int] == (v0[z as int]
                        || comp@.contains(z) || stack@.contains(z))) by {
                        if z != y {
                            assert(visited@[z as int] == vb[z as int]);
                            assert(vb[z as int] == (v0[z as int] || comp@.contains(z) || sb.contains(z)));
                        }
                    }
                    assert forall|z: usize| stack@.contains(z) implies z < n && !v0[z as int]
                        && connected(ls, start, z) by {
                        if z != y {
                            assert(sb.contains(z));
                        }
                    }
                    assert forall|i: int| 0 <= i < j + 1 implies visited@[adj@[x as int]@[i] as int] by {
                        assert(visited@ == vb.update(y as int, true));
                        if i < j {
                            let w = adj@[x as int]@[i];
                            assert(vb[w as int]);
                            assert(adj@[x as int]@.contains(w));
                            lemma_linked_below(ls, n, x, w);
                            if w != y {
                                assert(visited@[w as int] == vb[w as int]);
                            }
                        } else {
                            assert(adj@[x as int]@[i] == y);
                        }
                    }
                    assert(stack@.no_duplicates()) by {
                        assert forall|a: int, b: int| 0 <= a < b < stack@.len() implies stack@[a] != stack@[b] by {
                            assert(stack@[a] == sb[a]);
                            if b == stack@.len() - 1 {
                                assert(sb.contains(stack@[a]));
                            } else {
                                assert(stack@[b] == sb[b]);
                            }
                        }
                    }
                }
            }
            assert(visited@[y as int]);
            j = j + 1;
        }
        proof {
            assert forall|c: usize, y: usize| comp@.contains(c) && #[trigger] linked(ls, c, y) implies visited@[y as int] by {
                if c == x {
                    assert(adj@[x as int]@.contains(y));
                    let w = choose|w: int| 0 <= w < adj@[x as int]@.len() && adj@[x as int]@[w] == y;
                } else {
                    let w = choose|w: int| 0 <= w < comp@.len() && comp@[w] == c;
                    assert(w != comp@.len() - 1);
                    assert(comp@.drop_last()[w] == c);
                }
            }
        }
    }
    proof {
        let cs = Set::new(|z: usize| comp@.contains(z));
        assert(closed_under_links(ls, cs)) by {
            assert forall|a: usize, b: usize| cs.contains(a) && #[trigger] linked(ls, a, b) implies cs.contains(b) by {
                lemma_linked_below(ls, n, a, b);
                assert(visited@[b as int]);
                if v0[b as int] {
                    lemma_linked_symmetric(ls, a, b);
                    assert(marked(v0).contains(b));
                    assert(marked(v0).contains(a));
                }
            }
        }
        assert(comp@[0] == start);
        assert(comp@.contains(start));
        assert forall|y: usize| comp@.contains(y) <==> connected(ls, start, y) by {
            if connected(ls, start, y) {
                assert(cs.contains(start));
                lemma_closed_holds_connected(ls, cs, start, y);
            }
        }
    }
    comp
}

/// Two components that share a node hold the same nodes.
pub proof fn lemma_components_overlap_equal(
    links: Seq<(usize, usize)>,
    c1: Seq<usize>,
    c2: Seq<usize>,
    y: usize,
)
    requires
        is_component(links, c1),
        is_component(links, c2),
        c1.contains(y),
        c2.contains(y),
    ensures
        forall|z: usize| c1.contains(z) <==> c2.contains(z),
{
    lemma_connected_symmetric(links, c2[0], y);
    lemma_connected_transitive(links, c1[0], y, c2[0]);
    lemma_connected_symmetric(links, c1[0], c2[0]);
    assert forall|z: usize| c1.contains(z) <==> c2.contains(z) by {
        if c1.contains(z) {
            lemma_connected_transitive(links, c2[0], c1[0], z);
        }
        if c2.contains(z) {
            lemma_connected_transitive(links, c1[0], c2[0], z);
        }
    }
}

/// Links join canonical nodes (`resolve[i] == i`) of `0..resolve.len()`.
pub open spec fn links_between_canonical(links: Seq<(usize, usize)>, resolve: Seq<usize>) -> bool {
    forall|k: int|
        0 <= k < links.len() ==> links[k].0 < resolve.len() && links[k].1 < resolve.len()
            && resolve[links[k].0 as int] == links[k].0 && resolve[links[k].1 as int] == links[k].1
}

/// No node of fixed pressure is connected to `v`.
pub open spec fn floats(links: Seq<(usize, usize)>, fixed: Seq<bool>, v: usize) -> bool {
    forall|f: usize| f < fixed.len() && #[trigger] connected(links, v, f) ==> !fixed[f as int]
}

proof fn lemma_connected_canonical(
    links: Seq<(usize, usize)>,
    resolve: Seq<usize>,
    a: usize,
    b: usize,
)
    requires
        links_between_canonical(links, resolve),
        connected(links, a, b),
        a != b,
    ensures
        b < resolve.len(),
        resolve[b as int] == b,
        a < resolve.len(),
        resolve[a as int] == a,
{
    lemma_connected_endpoint(links, a, b);
    lemma_connected_symmetric(links, a, b);
    lemma_connected_endpoint(links, b, a);
}

/// The floating components of the solver's index graph: the connected
/// components of canonical nodes (`resolve[i] == i`) that hold no node of fixed
/// pressure. Each component starts with its smallest node, and the components
/// come in increasing order of that node.
pub fn floating_components(links: &Vec<(usize, usize)>, resolve: &Vec<usize>, fixed: &Vec<bool>) -> (r:
    Vec<Vec<usize>>)
    requires
        fixed@.len() == resolve@.len(),
        links_between_canonical(links@, resolve@),
    ensures
        forall|i: int| 0 <= i < r@.len() ==> is_component(links@, #[trigger] r@[i]@) && r@[i]@.no_duplicates(),
        forall|i: int, y: usize|
            0 <= i < r@.len() && #[trigger] r@[i]@.contains(y) ==> y < resolve@.len() && resolve@[y as int]
                == y && !fixed@[y as int] && r@[i]@[0] <= y,
        forall|i: int, j: int| 0 <= i < j < r@.len() ==> r@[i]@[0] < r@[j]@[0],
        forall|i: int, j: int, y: usize|
            0 <= i < j < r@.len() ==> !(#[trigger] r@[i]@.contains(y) && #[trigger] r@[j]@.contains(y)),
        forall|v: usize|
            v < resolve@.len() && resolve@[v as int] == v && floats(links@, fixed@, v) ==> exists|i: int|
                0 <= i < r@.len() && #[trigger] r@[i]@.contains(v),
{
    let n = resolve.len();
    let ghost ls = links@;
    let adj = adjacency_lists(n, links);
    let mut visited: Vec<bool> = Vec::new();
    let mut i: usize = 0;
    while i < n
        invariant
            0 <= i <= n,
            visited@.len() == i,
            forall|x: int| 0 <= x < i ==> !visited@[x],
        decreases n - i,
    {
        visited.push(false);
        i = i + 1;
    }
    let mut out: Vec<Vec<usize>> = Vec::new();
    let mut s: usize = 0;
    while s < n
        invariant
            n == resolve@.len(),
            n == fixed@.len(),
            n == adj@.len(),
            ls == links@,
            links_between_canonical(ls, resolve@),
            forall|a: int, b: usize| 0 <= a < n ==> (adj@[a]@.contains(b) <==> linked(ls, a as usize, b)),
            0 <= s <= n,
            visited@.len() == n,
            forall|x: usize|
                #![trigger visited@[x as int]]
                x < n ==> (visited@[x as int] <==> exists|t: usize| t < s && #[trigger] connected(ls, t, x)),
            forall|q: int| 0 <= q < out@.len() ==> is_component(ls, #[trigger] out@[q]@) && out@[q]@.no_duplicates(),
            forall|q: int, y: usize|
                0 <= q < out@.len() && #[trigger] out@[q]@.contains(y) ==> y < n && resolve@[y as int] == y
                    && !fixed@[y as int] && out@[q]@[0] <= y,
            forall|q: int| 0 <= q < out@.len() ==> #[trigger] out@[q]@[0] < s,
            forall|p: int, q: int| 0 <= p < q < out@.len() ==> out@[p]@[0] < out@[q]@[0],
            forall|v: usize|
                v < s && resolve@[v as int] == v && floats(ls, fixed@, v) ==> exists|q: int|
                    0 <= q < out@.len() && #[trigger] out@[q]@.contains(v),
        decreases n - s,
    {
        let ghost vis0 = visited@;
        let ghost out0 = out@;
        if visited[s] {
            proof {
                let t0 = choose|t: usize| t < s && #[trigger] connected(ls, t, s);
                assert forall|x: usize|
                    #![trigger visited@[x as int]]
                    x < n implies (visited@[x as int] <==> exists|t: usize|
                        t < s + 1 && #[trigger] connected(ls, t, x)) by {
                    if exists|t: usize| t < s + 1 && #[trigger] connected(ls, t, x) {
                        let t = choose|t: usize| t < s + 1 && #[trigger] connected(ls, t, x);
                        if t == s {
                            lemma_connected_transitive(ls, t0, s, x);
                        }
                    }
                }
                assert forall|v: usize|
                    v < s + 1 && resolve@[v as int] == v && floats(ls, fixed@, v) implies exists|q: int|
                        0 <= q < out@.len() && #[trigger] out@[q]@.contains(v) by {
                    if v == s {
                        lemma_connected_symmetric(ls, t0, s);
                        lemma_connected_canonical(ls, resolve@, s, t0);
                        assert forall|f: usize| f < fixed@.len() && #[trigger] connected(ls, t0, f) implies !fixed@[f as int] by {
                            lemma_connected_transitive(ls, s, t0, f);
                        }
                        assert(floats(ls, fixed@, t0));
                        let q = choose|q: int| 0 <= q < out@.len() && #[trigger] out@[q]@.contains(t0);
                        assert(is_component(ls, out@[q]@));
                        lemma_connected_transitive(ls, out@[q]@[0], t0, s);
                        assert(out@[q]@.contains(s));
                    }
                }
            }
        } else if resolve[s] != s {
            visited.set(s, true);
            proof {
                assert forall|x: usize|
                    #![trigger visited@[x as int]]
                    x < n implies (visited@[x as int] <==> exists|t: usize|
                        t < s + 1 && #[trigger] connected(ls, t, x)) by {
                    if x == s {
                        lemma_connected_reflexive(ls, s);
                    } else {
                        assert(visited@[x as int] == vis0[x as int]);
                        if exists|t: usize| t < s + 1 && #[trigger] connected(ls, t, x) {
                            let t = choose|t: usize| t < s + 1 && #[trigger] connected(ls, t, x);
                            if t == s {
                                lemma_connected_canonical(ls, resolve@, s, x);
                            }
                        }
                    }
                }
            }
        } else {
            proof {
                assert(closed_under_links(ls, marked(visited@))) by {
                    assert forall|a: usize, b: usize|
                        marked(visited@).contains(a) && #[trigger] linked(ls, a, b) implies marked(
                            visited@,
                        ).contains(b) by {
                        lemma_linked_below(ls, n, a, b);
                        let t = choose|t: usize| t < s && #[trigger] connected(ls, t, a);
                        lemma_connected_step(ls, t, a, b);
                        assert(visited@[b as int]);
                    }
                }
            }
            let comp = explore_component(&adj, links, s, &mut visited);
            proof {
                assert forall|x: usize|
                    #![trigger visited@[x as int]]
                    x < n implies (visited@[x as int] <==> exists|t: usize|
                        t < s + 1 && #[trigger] connected(ls, t, x)) by {
                    if exists|t: usize| t < s + 1 && #[trigger] connected(ls, t, x) {
                        let t = choose|t: usize| t < s + 1 && #[trigger] connected(ls, t, x);
                        if t < s {
                            assert(vis0[x as int]);
                        } else {
                            assert(comp@.contains(x));
                        }
                    }
                    if visited@[x as int] && !vis0[x as int] {
                        assert(comp@.contains(x));
                        assert(connected(ls, s, x));
                    }
                }
                assert forall|y: usize| #[trigger] comp@.contains(y) implies y < n && resolve@[y as int] == y
                    && s <= y by {
                    if y != s {
                        assert(connected(ls, s, y));
                        lemma_connected_canonical(ls, resolve@, s, y);
                        if y < s {
                            lemma_connected_symmetric(ls, s, y);
                            assert(vis0[s as int]);
                        }
                    }
                }
            }
            let mut has_fixed = false;
            let mut w: usize = 0;
            while w < comp.len()
                invariant
                    0 <= w <= comp@.len(),
                    n == fixed@.len(),
                    forall|y: usize| #[trigger] comp@.contains(y) ==> y < n,
                    has_fixed <==> exists|e: int| 0 <= e < w && fixed@[#[trigger] comp@[e] as int],
                decreases comp@.len() - w,
            {
                assert(comp@.contains(comp@[w as int]));
                if fixed[comp[w]] {
                    has_fixed = true;
                }
                w = w + 1;
            }
            if !has_fixed {
                out.push(comp);
                proof {
                    assert forall|y: usize| comp@.contains(y) implies !fixed@[y as int] by {
                        let e = choose|e: int| 0 <= e < comp@.len() && comp@[e] == y;
                    }
                }
            }
            proof {
                assert forall|v: usize|
                    v < s + 1 && resolve@[v as int] == v && floats(ls, fixed@, v) implies exists|q: int|
                        0 <= q < out@.len() && #[trigger] out@[q]@.contains(v) by {
                    if v < s {
                        let q = choose|q: int| 0 <= q < out0.len() && #[trigger] out0[q]@.contains(v);
                        assert(out@[q] == out0[q]);
                    } else {
                        lemma_connected_reflexive(ls, s);
                        assert(comp@.contains(s));
                        if has_fixed {
                            let e = choose|e: int| 0 <= e < comp@.len() && fixed@[#[trigger] comp@[e] as int];
                            assert(comp@.contains(comp@[e]));
                            assert(connected(ls, s, comp@[e]));
                        }
                        assert(out@[out@.len() - 1]@.contains(s));
                    }
                }
            }
        }
        s = s + 1;
    }
    proof {
        assert forall|i: int, j: int, y: usize|
            0 <= i < j < out@.len() implies !(#[trigger] out@[i]@.contains(y) && #[trigger] out@[j]@.contains(
                y,
            )) by {
            if out@[i]@.contains(y) && out@[j]@.contains(y) {
                assert(is_component(ls, out@[i]@));
                assert(is_component(ls, out@[j]@));
                lemma_components_overlap_equal(ls, out@[i]@, out@[j]@, y);
                lemma_connected_reflexive(ls, out@[i]@[0]);
                assert(out@[i]@.contains(out@[i]@[0]));
                assert(out@[j]@.contains(out@[i]@[0]));
            }
        }
    }
    out
}

} // verus!
