//! Finding a dependency cycle among modules, to explain why a build cannot
//! go on.
use vstd::prelude::*;
use crate::helpers::namespaced_display;
use crate::text::join_with;

verus! {

/// `u` depends on `w` in the index graph `adj` (node `u` lists `w`).
pub open spec fn edge(adj: Seq<Seq<usize>>, u: int, w: int) -> bool {
    0 <= u < adj.len() && exists|k: int| 0 <= k < adj[u].len() && #[trigger] adj[u][k] as int == w
}

/// A walk along edges.
pub open spec fn is_walk(adj: Seq<Seq<usize>>, p: Seq<int>) -> bool {
    &&& p.len() >= 1
    &&& forall|i: int| 0 <= i < p.len() - 1 ==> #[trigger] edge(adj, p[i], p[i + 1])
}

/// Node `s` lies on a cycle: some walk from `s` ends at a node with an edge
/// back to `s`.
pub open spec fn on_cycle(adj: Seq<Seq<usize>>, s: int) -> bool {
    exists|p: Seq<int>| #[trigger] is_walk(adj, p) && p[0] == s && edge(adj, p.last(), s)
}

/// `c` is a simple cycle written backwards: `c[i + 1]` has an edge to `c[i]`,
/// and `c[0]` has one to the last node.
pub open spec fn is_index_cycle(adj: Seq<Seq<usize>>, c: Seq<int>) -> bool {
    &&& c.len() >= 1
    &&& c.no_duplicates()
    &&& forall|i: int| 0 <= i < c.len() ==> 0 <= #[trigger] c[i] < adj.len()
    &&& forall|i: int| 0 <= i < c.len() ==> #[trigger] edge(adj, c[(i + 1) % (c.len() as int)], c[i])
}

pub open spec fn well_formed_graph(adj: Seq<Seq<usize>>) -> bool {
    forall|u: int, k: int| 0 <= u < adj.len() && 0 <= k < adj[u].len() ==> #[trigger] adj[u][k] < adj.len()
}

proof fn lemma_walk_stays(adj: Seq<Seq<usize>>, visited: Set<int>, p: Seq<int>, k: int)
    requires
        is_walk(adj, p),
        visited.contains(p[0]),
        forall|u: int, w: int| visited.contains(u) && #[trigger] edge(adj, u, w) ==> visited.contains(w),
        0 <= k < p.len(),
    ensures
        visited.contains(p[k]),
    decreases k,
{
    if k > 0 {
        lemma_walk_stays(adj, visited, p, k - 1);
        let i = k - 1;
        assert(edge(adj, p[i], p[i + 1]));
    }
}

/// A set of nodes that holds `s`, is closed under edges and has no edge back
/// to `s` shows that `s` is on no cycle.
proof fn lemma_closed_set_no_cycle(adj: Seq<Seq<usize>>, visited: Set<int>, s: int)
    requires
        visited.contains(s),
        forall|u: int, w: int| visited.contains(u) && #[trigger] edge(adj, u, w) ==> visited.contains(w) && w != s,
    ensures
        !on_cycle(adj, s),
{
    if on_cycle(adj, s) {
        let p = choose|p: Seq<int>| #[trigger] is_walk(adj, p) && p[0] == s && edge(adj, p.last(), s);
        lemma_walk_stays(adj, visited, p, p.len() - 1);
    }
}

/// The search tree: every visited node other than `start` has a visited
/// parent one level closer to `start`, with an edge to it.
pub open spec fn tree_ok(
    g: Seq<Seq<usize>>,
    n: int,
    start: int,
    visited: Seq<bool>,
    dist: Seq<usize>,
    parent: Seq<usize>,
) -> bool {
    &&& visited.len() == n
    &&& dist.len() == n
    &&& parent.len() == n
    &&& 0 <= start < n
    &&& visited[start]
    &&& dist[start] == 0
    &&& forall|v: int|
        0 <= v < n && #[trigger] visited[v] && v != start ==> {
            &&& parent[v] < n
            &&& visited[parent[v] as int]
            &&& dist[v] == dist[parent[v] as int] + 1
            &&& edge(g, parent[v] as int, v)
        }
}

/// The queue lists exactly the visited nodes, once each, in order of depth.
pub open spec fn queue_ok(n: int, start: int, visited: Seq<bool>, dist: Seq<usize>, queue: Seq<usize>) -> bool {
    &&& queue.len() >= 1
    &&& queue[0] == start
    &&& queue.no_duplicates()
    &&& forall|k: int| 0 <= k < queue.len() ==> #[trigger] queue[k] < n && visited[queue[k] as int]
    &&& forall|v: int| 0 <= v < n && #[trigger] visited[v] ==> queue.contains(v as usize)
    &&& forall|k: int| 0 <= k < queue.len() ==> #[trigger] dist[queue[k] as int] <= k
}

/// Every expanded node (the first `head` of the queue) has only visited
/// successors, none of them `start`.
pub open spec fn expanded_closed(g: Seq<Seq<usize>>, n: int, start: int, visited: Seq<bool>, queue: Seq<usize>, head: int) -> bool {
    forall|k: int, w: int|
        0 <= k < head && #[trigger] edge(g, queue[k] as int, w) ==> w < n && visited[w] && w != start
}

/// `s` lies on a cycle of `len` nodes: a walk of `len` nodes from `s` whose
/// last node has an edge back to `s`.
pub open spec fn cycle_through(adj: Seq<Seq<usize>>, s: int, len: int) -> bool {
    exists|p: Seq<int>| #[trigger] is_walk(adj, p) && p[0] == s && p.len() == len && edge(adj, p.last(), s)
}

/// The queue is ordered by depth, and holds at most one level beyond the
/// node being expanded.
pub open spec fn queue_levels(dist: Seq<usize>, queue: Seq<usize>, head: int) -> bool {
    &&& forall|a: int, b: int| 0 <= a < b < queue.len() ==> dist[#[trigger] queue[a] as int] <= dist[#[trigger] queue[b] as int]
    &&& head < queue.len() ==> forall|b: int| 0 <= b < queue.len() ==> #[trigger] dist[queue[b] as int] <= dist[queue[head] as int] + 1
}

/// Every expanded node (one of the first `head` of the queue, of depth below
/// `max_length - 1`) has only visited successors, none of them `start`, and
/// none more than one level deeper.
pub open spec fn expanded_ok(
    g: Seq<Seq<usize>>,
    n: int,
    start: int,
    visited: Seq<bool>,
    dist: Seq<usize>,
    queue: Seq<usize>,
    head: int,
    max_length: int,
) -> bool {
    forall|k: int, w: int|
        0 <= k < head && dist[queue[k] as int] < max_length - 1 && #[trigger] edge(g, queue[k] as int, w) ==> {
            &&& 0 <= w < n
            &&& visited[w]
            &&& w != start
            &&& dist[w] <= dist[queue[k] as int] + 1
        }
}

/// Every walk from `start` of at most `bound` edges ends at a visited node no
/// deeper than the walk is long, when all visited nodes above depth `bound`
/// have been expanded.
proof fn lemma_walk_reached(
    g: Seq<Seq<usize>>,
    n: int,
    start: int,
    visited: Seq<bool>,
    dist: Seq<usize>,
    parent: Seq<usize>,
    queue: Seq<usize>,
    head: int,
    max_length: int,
    bound: int,
    p: Seq<int>,
)
    requires
        tree_ok(g, n, start, visited, dist, parent),
        queue_ok(n, start, visited, dist, queue),
        expanded_ok(g, n, start, visited, dist, queue, head, max_length),
        bound <= max_length - 1,
        forall|k: int| 0 <= k < queue.len() && #[trigger] dist[queue[k] as int] < bound ==> k < head,
        is_walk(g, p),
        p[0] == start,
        p.len() - 1 <= bound,
    ensures
        0 <= p.last() < n,
        visited[p.last()],
        dist[p.last()] <= p.len() - 1,
    decreases p.len(),
{
    if p.len() > 1 {
        let q = p.drop_last();
        assert forall|i: int| 0 <= i < q.len() - 1 implies #[trigger] edge(g, q[i], q[i + 1]) by {
            assert(edge(g, p[i], p[i + 1]));
        }
        lemma_walk_reached(g, n, start, visited, dist, parent, queue, head, max_length, bound, q);
        let u = q.last();
        assert(queue.contains(u as usize));
        let k = choose|k: int| 0 <= k < queue.len() && queue[k] == u as usize;
        assert(dist[queue[k] as int] < bound);
        let i = p.len() - 2;
        assert(edge(g, p[i], p[i + 1]));
        assert(q.last() == p[i]);
        assert(edge(g, queue[k] as int, p.last()));
    }
}

proof fn lemma_queue_len(queue: Seq<usize>, n: int)
    requires
        queue.no_duplicates(),
        forall|k: int| 0 <= k < queue.len() ==> #[trigger] queue[k] < n,
        n >= 0,
    ensures
        queue.len() <= n,
{
    let qi = queue.map_values(|v: usize| v as int);
    let qs = qi.to_set();
    assert forall|x: int| qs.contains(x) implies vstd::set_lib::set_int_range(0, n).contains(x) by {
        let k = choose|k: int| 0 <= k < qi.len() && #[trigger] qi[k] == x;
        assert(queue[k] < n);
    }
    vstd::set_lib::lemma_int_range(0, n);
    vstd::set_lib::lemma_len_subset(qs, vstd::set_lib::set_int_range(0, n));
    assert(qi.no_duplicates()) by {
        assert forall|a: int, b: int| 0 <= a < qi.len() && 0 <= b < qi.len() && a != b implies qi[a] != qi[b] by {
            assert(queue[a] != queue[b]);
        }
    }
    qi.unique_seq_to_set();
}

proof fn lemma_path_is_cycle(
    g: Seq<Seq<usize>>,
    start: usize,
    cur: usize,
    parent: Seq<usize>,
    visited: Seq<bool>,
    dist: Seq<usize>,
    path: Seq<usize>,
)
    requires
        tree_ok(g, g.len() as int, start as int, visited, dist, parent),
        cur < g.len(),
        edge(g, cur as int, start as int),
        path.len() >= 1,
        path[0] == start,
        path.len() == 1 ==> start == cur,
        path.len() >= 2 ==> path[1] == cur && parent[path.last() as int] == start,
        forall|t: int| 1 <= t < path.len() ==> #[trigger] path[t] < g.len() && visited[path[t] as int]
            && path[t] != start,
        forall|s: int, t: int| 1 <= s < t < path.len() ==> dist[#[trigger] path[s] as int]
            > dist[#[trigger] path[t] as int],
        forall|t: int| 1 <= t < path.len() - 1 ==> parent[#[trigger] path[t] as int] == path[t + 1],
    ensures
        is_index_cycle(g, path.map_values(|v: usize| v as int)),
{
    let n = g.len() as int;
    let c = path.map_values(|v: usize| v as int);
    let len = c.len() as int;
    assert forall|a: int, b: int| 0 <= a < len && 0 <= b < len && a != b implies c[a] != c[b] by {
        if a > 0 && b > 0 {
            if a < b {
                assert(dist[path[a] as int] > dist[path[b] as int]);
            } else {
                assert(dist[path[b] as int] > dist[path[a] as int]);
            }
        }
    }
    assert forall|t: int| 0 <= t < len implies 0 <= #[trigger] c[t] < n by {
        if t > 0 {
            assert(path[t] < n);
        }
    }
    assert forall|t: int| 0 <= t < len implies #[trigger] edge(g, c[(t + 1) % len], c[t]) by {
        if t + 1 < len {
            vstd::arithmetic::div_mod::lemma_small_mod((t + 1) as nat, len as nat);
            if t > 0 {
                assert(visited[path[t] as int] && path[t] != start);
                assert(parent[path[t] as int] == path[t + 1]);
            }
        } else {
            vstd::arithmetic::div_mod::lemma_mod_self_0(len);
            assert((t + 1) % len == 0);
            if t > 0 {
                assert(visited[path[t] as int] && path[t] != start);
            }
        }
    }
}

/// Walks from `cur` back to `start` along parents; with an edge from `cur`
/// to `start` this closes a simple cycle, listed as `start, cur, parent of
/// cur, ...`.
fn reconstruct_cycle(
    start: usize,
    cur: usize,
    parent: &Vec<usize>,
    Ghost(g): Ghost<Seq<Seq<usize>>>,
    Ghost(visited): Ghost<Seq<bool>>,
    Ghost(dist): Ghost<Seq<usize>>,
) -> (r: Vec<usize>)
    requires
        tree_ok(g, g.len() as int, start as int, visited, dist, parent@),
        cur < g.len(),
        visited[cur as int],
        edge(g, cur as int, start as int),
    ensures
        is_index_cycle(g, r@.map_values(|v: usize| v as int)),
        r@[0] == start,
        r@.len() == dist[cur as int] + 1,
{
    let ghost n = g.len() as int;
    let mut path: Vec<usize> = Vec::new();
    path.push(start);
    let mut curr = cur;
    while curr != start
        invariant
            tree_ok(g, n, start as int, visited, dist, parent@),
            cur < n,
            curr < n,
            visited[curr as int],
            edge(g, cur as int, start as int),
            path@.len() >= 1,
            path@[0] == start,
            path@.len() == 1 ==> curr == cur,
            path@.len() >= 2 ==> path@[1] == cur && parent@[path@.last() as int] == curr,
            forall|t: int| 1 <= t < path@.len() ==> #[trigger] path@[t] < n && visited[path@[t] as int]
                && path@[t] != start,
            forall|t: int| 1 <= t < path@.len() ==> dist[#[trigger] path@[t] as int] > dist[curr as int],
            curr == start ==> dist[curr as int] == 0,
            forall|s: int, t: int| 1 <= s < t < path@.len() ==> dist[#[trigger] path@[s] as int]
                > dist[#[trigger] path@[t] as int],
            forall|t: int| 1 <= t < path@.len() - 1 ==> parent@[#[trigger] path@[t] as int] == path@[t + 1],
            dist[curr as int] <= dist[cur as int],
            path@.len() == dist[cur as int] - dist[curr as int] + 1,
        decreases dist[curr as int],
    {
        path.push(curr);
        curr = parent[curr];
    }
    proof {
        lemma_path_is_cycle(g, start, cur, parent@, visited, dist, path@);
    }
    path
}

/// Breadth-first search from `start` for a cycle through it. Nodes at depth
/// `max_length - 1` or more are not expanded.
fn find_cycle_bfs(start: usize, adj: &Vec<Vec<usize>>, max_length: usize) -> (r: Option<Vec<usize>>)
    requires
        start < adj@.len(),
        adj@.len() < usize::MAX,
        well_formed_graph(adj.deep_view()),
        max_length >= 1,
    ensures
        match r {
            Some(c) => {
                &&& is_index_cycle(adj.deep_view(), c@.map_values(|v: usize| v as int))
                &&& c@[0] == start
                &&& c@.len() < max_length
                &&& forall|len: int| 1 <= len < c@.len() ==> !#[trigger] cycle_through(adj.deep_view(), start as int, len)
            },
            None => {
                &&& max_length == usize::MAX ==> !on_cycle(adj.deep_view(), start as int)
                &&& forall|len: int| 1 <= len < max_length ==> !#[trigger] cycle_through(adj.deep_view(), start as int, len)
            },
        },
{
    let ghost g = adj.deep_view();
    let n = adj.len();
    let mut visited: Vec<bool> = Vec::new();
    let mut dist: Vec<usize> = Vec::new();
    let mut parent: Vec<usize> = Vec::new();
    let mut i: usize = 0;
    while i < n
        invariant
            n == adj@.len(),
            start < n,
            i <= n,
            visited@.len() == i,
            dist@.len() == i,
            parent@.len() == i,
            forall|j: int| #![trigger visited@[j]] 0 <= j < i ==> !visited@[j] && dist@[j] == 0,
        decreases n - i,
    {
        visited.push(false);
        dist.push(0);
        parent.push(0);
        i = i + 1;
    }
    assert(i == n);
    assert(start < i);
    assert(!visited@[start as int]);
    assert(dist@[start as int] == 0);
    visited.set(start, true);
    let mut queue: Vec<usize> = Vec::new();
    queue.push(start);
    let mut head: usize = 0;
    assert(queue@.no_duplicates());
    assert(forall|v: int| 0 <= v < n && #[trigger] visited@[v] ==> v == start);
    assert forall|v: int| 0 <= v < n && #[trigger] visited@[v] implies queue@.contains(v as usize) by {
        assert(queue@[0] == start);
    }
    assert(tree_ok(g, n as int, start as int, visited@, dist@, parent@));
    assert(queue_ok(n as int, start as int, visited@, dist@, queue@));
    while head < queue.len()
        invariant
            n == adj@.len(),
            n < usize::MAX,
            g == adj.deep_view(),
            well_formed_graph(g),
            max_length >= 1,
            head <= queue@.len(),
            tree_ok(g, n as int, start as int, visited@, dist@, parent@),
            queue_ok(n as int, start as int, visited@, dist@, queue@),
            max_length == usize::MAX ==> expanded_closed(g, n as int, start as int, visited@, queue@, head as int),
            queue_levels(dist@, queue@, head as int),
            expanded_ok(g, n as int, start as int, visited@, dist@, queue@, head as int, max_length as int),
        decreases n + 1 - head, n - queue@.len(),
    {
        proof {
            lemma_queue_len(queue@, n as int);
        }
        let cur = queue[head];
        let d = dist[cur];
        if d >= max_length - 1 {
            proof {
                if head + 1 < queue@.len() {
                    assert(dist@[queue@[head as int] as int] <= dist@[queue@[head + 1] as int]);
                }
            }
            head = head + 1;
            continue;
        }
        let neighbors = &adj[cur];
        let mut j: usize = 0;
        while j < neighbors.len()
            invariant
                n == adj@.len(),
                n < usize::MAX,
                g == adj.deep_view(),
                well_formed_graph(g),
                max_length >= 1,
                cur < n,
                cur == queue@[head as int],
                d == dist@[cur as int],
                d < max_length - 1,
                neighbors@ == g[cur as int],
                head < queue@.len(),
                tree_ok(g, n as int, start as int, visited@, dist@, parent@),
                queue_ok(n as int, start as int, visited@, dist@, queue@),
                max_length == usize::MAX ==> expanded_closed(g, n as int, start as int, visited@, queue@, head as int),
                queue_levels(dist@, queue@, head as int),
                expanded_ok(g, n as int, start as int, visited@, dist@, queue@, head as int, max_length as int),
                j <= neighbors@.len(),
                forall|t: int| 0 <= t < j ==> visited@[#[trigger] neighbors@[t] as int] && neighbors@[t] != start
                    && dist@[neighbors@[t] as int] <= d + 1,
            decreases neighbors@.len() - j,
        {
            let w = neighbors[j];
            assert(g[cur as int][j as int] == w);
            if w == start {
                assert(edge(g, cur as int, start as int));
                proof {
                    assert forall|len: int| 1 <= len < d + 1 implies !#[trigger] cycle_through(g, start as int, len) by {
                        if cycle_through(g, start as int, len) {
                            let p = choose|p: Seq<int>|
                                #[trigger] is_walk(g, p) && p[0] == start as int && p.len() == len && edge(g, p.last(), start as int);
                            assert forall|k: int| 0 <= k < queue@.len() && #[trigger] dist@[queue@[k] as int] < d implies k < head by {
                                if k > head {
                                    assert(dist@[queue@[head as int] as int] <= dist@[queue@[k] as int]);
                                }
                            }
                            lemma_walk_reached(g, n as int, start as int, visited@, dist@, parent@, queue@, head as int, max_length as int, d as int, p);
                            let u = p.last();
                            assert(queue@.contains(u as usize));
                            let k = choose|k: int| 0 <= k < queue@.len() && queue@[k] == u as usize;
                            assert(k < head);
                            assert(edge(g, queue@[k] as int, start as int));
                        }
                    }
                }
                return Some(reconstruct_cycle(start, cur, &parent, Ghost(g), Ghost(visited@), Ghost(dist@)));
            }
            if !visited[w] {
                let ghost old_queue = queue@;
                let ghost old_visited = visited@;
                let ghost old_dist = dist@;
                visited.set(w, true);
                dist.set(w, d + 1);
                parent.set(w, cur);
                queue.push(w);
                assert(queue@ == old_queue.push(w));
                assert(!old_queue.contains(w));
                assert forall|v: int| 0 <= v < n && #[trigger] visited@[v] implies queue@.contains(v as usize) by {
                    if v != w {
                        assert(old_visited[v]);
                        assert(old_queue.contains(v as usize));
                        let k = choose|k: int| 0 <= k < old_queue.len() && old_queue[k] == v as usize;
                        assert(queue@[k] == v as usize);
                    } else {
                        assert(queue@[old_queue.len() as int] == w);
                    }
                }
                assert forall|k: int| 0 <= k < queue@.len() implies #[trigger] dist@[queue@[k] as int] <= k by {
                    if k < old_queue.len() {
                        assert(old_queue[k] != w);
                    }
                }
                assert(edge(g, cur as int, w as int));
                assert(tree_ok(g, n as int, start as int, visited@, dist@, parent@));
                assert(dist@ == old_dist.update(w as int, (d + 1) as usize));
                assert forall|a: int, b: int| 0 <= a < b < queue@.len() implies dist@[#[trigger] queue@[a] as int]
                    <= dist@[#[trigger] queue@[b] as int] by {
                    assert(old_queue[a] != w);
                    if b < old_queue.len() {
                        assert(old_queue[b] != w);
                    } else {
                        assert(old_dist[old_queue[a] as int] <= old_dist[old_queue[head as int] as int] + 1);
                    }
                }
                assert forall|b: int| 0 <= b < queue@.len() implies #[trigger] dist@[queue@[b] as int] <= dist@[queue@[head as int] as int] + 1 by {
                    if b < old_queue.len() {
                        assert(old_queue[b] != w);
                    }
                }
                assert(queue_levels(dist@, queue@, head as int));
                assert forall|k: int, x: int|
                    0 <= k < head && dist@[queue@[k] as int] < max_length - 1 && #[trigger] edge(g, queue@[k] as int, x) implies {
                        &&& 0 <= x < n
                        &&& visited@[x]
                        &&& x != start
                        &&& dist@[x] <= dist@[queue@[k] as int] + 1
                    } by {
                    assert(old_queue[k] != w);
                    assert(old_queue[k] == queue@[k]);
                    assert(old_dist[queue@[k] as int] < max_length - 1);
                    assert(old_visited[x]);
                }
                assert forall|t: int| 0 <= t < j implies visited@[#[trigger] neighbors@[t] as int] && neighbors@[t] != start
                    && dist@[neighbors@[t] as int] <= d + 1 by {
                    assert(old_visited[neighbors@[t] as int]);
                }
            } else {
                proof {
                    assert(queue@.contains(w));
                    let k = choose|k: int| 0 <= k < queue@.len() && queue@[k] == w;
                    assert(dist@[queue@[k] as int] <= dist@[queue@[head as int] as int] + 1);
                }
            }
            j = j + 1;
        }
        proof {
            assert forall|k: int, x: int|
                0 <= k < head + 1 && dist@[queue@[k] as int] < max_length - 1 && #[trigger] edge(g, queue@[k] as int, x) implies {
                    &&& 0 <= x < n
                    &&& visited@[x]
                    &&& x != start
                    &&& dist@[x] <= dist@[queue@[k] as int] + 1
                } by {
                if k == head {
                    let t = choose|t: int| 0 <= t < g[cur as int].len() && #[trigger] g[cur as int][t] as int == x;
                    assert(neighbors@[t] as int == x);
                    assert(visited@[neighbors@[t] as int]);
                    assert(g[cur as int][t] < n);
                }
            }
            if head + 1 < queue@.len() {
                assert(dist@[queue@[head as int] as int] <= dist@[queue@[head + 1] as int]);
            }
            if max_length == usize::MAX {
                assert forall|k: int, w: int|
                    0 <= k < head + 1 && #[trigger] edge(g, queue@[k] as int, w) implies w < n && visited@[w]
                        && w != start by {
                    if k == head {
                        let t = choose|t: int| 0 <= t < g[cur as int].len() && #[trigger] g[cur as int][t] as int == w;
                        assert(neighbors@[t] as int == w);
                        assert(visited@[neighbors@[t] as int]);
                        assert(g[cur as int][t] < n);
                    }
                }
            }
        }
        head = head + 1;
    }
    proof {
        if max_length == usize::MAX {
            let vs = Set::new(|v: int| 0 <= v < n && visited@[v]);
            assert forall|u: int, w: int| vs.contains(u) && #[trigger] edge(g, u, w) implies vs.contains(w) && w != start by {
                assert(queue@.contains(u as usize));
                let k = choose|k: int| 0 <= k < queue@.len() && queue@[k] == u as usize;
                assert(edge(g, queue@[k] as int, w));
            }
            lemma_closed_set_no_cycle(g, vs, start as int);
        }
        assert forall|len: int| 1 <= len < max_length implies !#[trigger] cycle_through(g, start as int, len) by {
            if cycle_through(g, start as int, len) {
                let p = choose|p: Seq<int>|
                    #[trigger] is_walk(g, p) && p[0] == start as int && p.len() == len && edge(g, p.last(), start as int);
                lemma_walk_reached(g, n as int, start as int, visited@, dist@, parent@, queue@, head as int, max_length as int, max_length - 1, p);
                let u = p.last();
                assert(queue@.contains(u as usize));
                let k = choose|k: int| 0 <= k < queue@.len() && queue@[k] == u as usize;
                assert(edge(g, queue@[k] as int, start as int));
            }
        }
    }
    None
}

/// Module `a` lists module `b` among its dependencies (both are modules of
/// `ms`, given as name and dependency names).
pub open spec fn depends_on(ms: Seq<(Seq<char>, Seq<Seq<char>>)>, a: Seq<char>, b: Seq<char>) -> bool {
    exists|i: int, j: int|
        0 <= i < ms.len() && 0 <= j < ms.len() && #[trigger] ms[i].0 == a && #[trigger] ms[j].0 == b
            && ms[i].1.contains(b)
}

/// `c` is a dependency cycle: no module twice, and each `c[i + 1]` (and `c[0]`
/// for the last one) depends on `c[i]`.
pub open spec fn is_dependency_cycle(ms: Seq<(Seq<char>, Seq<Seq<char>>)>, c: Seq<Seq<char>>) -> bool {
    &&& c.len() >= 1
    &&& c.no_duplicates()
    &&& forall|i: int| 0 <= i < c.len() ==> #[trigger] depends_on(ms, c[(i + 1) % (c.len() as int)], c[i])
}

pub open spec fn has_dependency_cycle(ms: Seq<(Seq<char>, Seq<Seq<char>>)>) -> bool {
    exists|c: Seq<Seq<char>>| #[trigger] is_dependency_cycle(ms, c)
}

/// No two modules share a name.
pub open spec fn distinct_names(ms: Seq<(Seq<char>, Seq<Seq<char>>)>) -> bool {
    forall|i: int, j: int| 0 <= i < ms.len() && 0 <= j < ms.len() && i != j ==> #[trigger] ms[i].0 != #[trigger] ms[j].0
}

/// The index graph of `ms`: node `i` has an edge to node `j` exactly when module
/// `i` lists the name of module `j`.
pub open spec fn graph_of(ms: Seq<(Seq<char>, Seq<Seq<char>>)>, g: Seq<Seq<usize>>) -> bool {
    &&& g.len() == ms.len()
    &&& well_formed_graph(g)
    &&& forall|i: int, j: int| 0 <= i < ms.len() && 0 <= j < ms.len() ==> (#[trigger] edge(g, i, j) <==> ms[i].1.contains(#[trigger] ms[j].0))
    &&& forall|i: int| 0 <= i < ms.len() && ms[i].1.len() == 0 ==> #[trigger] g[i].len() == 0
}

proof fn lemma_edge_iff_depends(ms: Seq<(Seq<char>, Seq<Seq<char>>)>, g: Seq<Seq<usize>>, i: int, j: int)
    requires
        distinct_names(ms),
        graph_of(ms, g),
        0 <= i < ms.len(),
        0 <= j < ms.len(),
    ensures
        edge(g, i, j) <==> depends_on(ms, ms[i].0, ms[j].0),
{
    if depends_on(ms, ms[i].0, ms[j].0) {
        let (a, b) = choose|a: int, b: int|
            0 <= a < ms.len() && 0 <= b < ms.len() && #[trigger] ms[a].0 == ms[i].0 && #[trigger] ms[b].0 == ms[j].0
                && ms[a].1.contains(ms[j].0);
        assert(a == i);
        assert(b == j);
    }
    if edge(g, i, j) {
        assert(ms[i].1.contains(ms[j].0));
    }
}

proof fn lemma_index_cycle_names(ms: Seq<(Seq<char>, Seq<Seq<char>>)>, g: Seq<Seq<usize>>, c: Seq<int>)
    requires
        distinct_names(ms),
        graph_of(ms, g),
        is_index_cycle(g, c),
    ensures
        is_dependency_cycle(ms, c.map_values(|v: int| ms[v].0)),
{
    let names = c.map_values(|v: int| ms[v].0);
    let len = c.len() as int;
    assert forall|a: int, b: int| 0 <= a < len && 0 <= b < len && a != b implies names[a] != names[b] by {
        assert(c[a] != c[b]);
        assert(0 <= c[a] < ms.len() && 0 <= c[b] < ms.len());
    }
    assert forall|i: int| 0 <= i < len implies #[trigger] depends_on(ms, names[(i + 1) % len], names[i]) by {
        let k = (i + 1) % len;
        assert(0 <= k < len) by {
            vstd::arithmetic::div_mod::lemma_mod_bound(i + 1, len);
        }
        assert(edge(g, c[k], c[i]));
        assert(0 <= c[k] < ms.len() && 0 <= c[i] < ms.len());
        lemma_edge_iff_depends(ms, g, c[k], c[i]);
    }
}

/// The index of the module named `x`.
pub open spec fn index_of_name(ms: Seq<(Seq<char>, Seq<Seq<char>>)>, x: Seq<char>) -> int {
    choose|j: int| 0 <= j < ms.len() && #[trigger] ms[j].0 == x
}

proof fn lemma_name_cycle_on_index_cycle(ms: Seq<(Seq<char>, Seq<Seq<char>>)>, g: Seq<Seq<usize>>, c: Seq<Seq<char>>)
    requires
        distinct_names(ms),
        graph_of(ms, g),
        is_dependency_cycle(ms, c),
    ensures
        0 <= index_of_name(ms, c[0]) < ms.len(),
        on_cycle(g, index_of_name(ms, c[0])),
        cycle_through(g, index_of_name(ms, c[0]), c.len() as int),
{
    let len = c.len() as int;
    // Every node of the cycle is a module, and consecutive ones are joined by edges.
    assert forall|i: int| 0 <= i < len implies {
        &&& 0 <= #[trigger] index_of_name(ms, c[i]) < ms.len()
        &&& ms[index_of_name(ms, c[i])].0 == c[i]
        &&& edge(g, index_of_name(ms, c[(i + 1) % len]), index_of_name(ms, c[i]))
    } by {
        let k = (i + 1) % len;
        assert(0 <= k < len) by {
            vstd::arithmetic::div_mod::lemma_mod_bound(i + 1, len);
        }
        assert(depends_on(ms, c[k], c[i]));
        let (a, b) = choose|a: int, b: int|
            0 <= a < ms.len() && 0 <= b < ms.len() && #[trigger] ms[a].0 == c[k] && #[trigger] ms[b].0 == c[i]
                && ms[a].1.contains(c[i]);
        let ia = index_of_name(ms, c[k]);
        let ib = index_of_name(ms, c[i]);
        assert(ms[ia].0 == c[k]);
        assert(ms[ib].0 == c[i]);
        assert(ia == a);
        assert(ib == b);
        lemma_edge_iff_depends(ms, g, ia, ib);
    }
    let p = Seq::new(len as nat, |k: int| if k == 0 { index_of_name(ms, c[0]) } else { index_of_name(ms, c[len - k]) });
    assert forall|k: int| 0 <= k < p.len() - 1 implies #[trigger] edge(g, p[k], p[k + 1]) by {
        let i = len - k - 1;
        assert(0 <= i < len);
        if k == 0 {
            vstd::arithmetic::div_mod::lemma_mod_self_0(len);
            assert((i + 1) % len == 0);
        } else {
            vstd::arithmetic::div_mod::lemma_small_mod((i + 1) as nat, len as nat);
            assert((i + 1) % len == len - k);
        }
        assert(edge(g, index_of_name(ms, c[(i + 1) % len]), index_of_name(ms, c[i])));
    }
    assert(is_walk(g, p));
    if len == 1 {
        vstd::arithmetic::div_mod::lemma_mod_self_0(len);
        assert(edge(g, index_of_name(ms, c[(0int + 1) % len]), index_of_name(ms, c[0])));
        assert(edge(g, p.last(), p[0]));
    } else {
        vstd::arithmetic::div_mod::lemma_small_mod(1, len as nat);
        assert(edge(g, index_of_name(ms, c[(0int + 1) % len]), index_of_name(ms, c[0])));
        assert(p.last() == index_of_name(ms, c[1]));
        assert(edge(g, p.last(), p[0]));
    }
    assert(p.len() == len && p[0] == index_of_name(ms, c[0]));
}

/// A node without outgoing edges is on no cycle.
proof fn lemma_no_out_edges_no_cycle(g: Seq<Seq<usize>>, s: int)
    requires
        0 <= s < g.len(),
        g[s].len() == 0,
    ensures
        !on_cycle(g, s),
{
    if on_cycle(g, s) {
        let p = choose|p: Seq<int>| #[trigger] is_walk(g, p) && p[0] == s && edge(g, p.last(), s);
        if p.len() > 1 {
            assert(edge(g, p[0], p[0int + 1]));
        }
    }
}

/// The index of the module named `name`.
fn find_module(modules: &Vec<(String, Vec<String>)>, name: &String) -> (r: Option<usize>)
    ensures
        match r {
            Some(j) => j < modules@.len() && modules.deep_view()[j as int].0 == name@,
            None => forall|j: int| 0 <= j < modules@.len() ==> #[trigger] modules.deep_view()[j].0 != name@,
        },
{
    let mut j: usize = 0;
    while j < modules.len()
        invariant
            j <= modules@.len(),
            forall|t: int| 0 <= t < j ==> #[trigger] modules.deep_view()[t].0 != name@,
        decreases modules@.len() - j,
    {
        if modules[j].0 == *name {
            return Some(j);
        }
        j = j + 1;
    }
    None
}

/// The index graph of the modules (see `graph_of`).
fn build_graph(modules: &Vec<(String, Vec<String>)>) -> (g: Vec<Vec<usize>>)
    requires
        distinct_names(modules.deep_view()),
    ensures
        graph_of(modules.deep_view(), g.deep_view()),
{
    let ghost ms = modules.deep_view();
    let n = modules.len();
    let mut adj: Vec<Vec<usize>> = Vec::new();
    let mut i: usize = 0;
    while i < n
        invariant
            n == modules@.len(),
            ms == modules.deep_view(),
            distinct_names(ms),
            i <= n,
            adj@.len() == i,
            forall|u: int, k: int| 0 <= u < i && 0 <= k < adj.deep_view()[u].len() ==> #[trigger] adj.deep_view()[u][k] < n,
            forall|u: int, j: int| 0 <= u < i && 0 <= j < n ==> (#[trigger] edge(adj.deep_view(), u, j) <==> ms[u].1.contains(#[trigger] ms[j].0)),
            forall|u: int| 0 <= u < i && ms[u].1.len() == 0 ==> #[trigger] adj.deep_view()[u].len() == 0,
        decreases n - i,
    {
        let deps = &modules[i].1;
        let ghost ds = ms[i as int].1;
        assert(deps.deep_view() == ds);
        let mut row: Vec<usize> = Vec::new();
        let mut k: usize = 0;
        while k < deps.len()
            invariant
                n == modules@.len(),
                ms == modules.deep_view(),
                distinct_names(ms),
                i < n,
                deps.deep_view() == ds,
                ds == ms[i as int].1,
                k <= ds.len(),
                row@.len() <= k,
                forall|t: int| 0 <= t < row@.len() ==> #[trigger] row@[t] < n,
                forall|j: int| 0 <= j < n ==> ((exists|t: int| 0 <= t < row@.len() && #[trigger] row@[t] as int == j)
                    <==> ds.take(k as int).contains(#[trigger] ms[j].0)),
            decreases ds.len() - k,
        {
            let ghost before = row@;
            match find_module(modules, &deps[k]) {
                Some(j) => {
                    row.push(j);
                    assert forall|x: int| 0 <= x < n implies ((exists|t: int| 0 <= t < row@.len() && #[trigger] row@[t] as int == x)
                        <==> ds.take(k + 1).contains(#[trigger] ms[x].0)) by {
                        assert(ds.take(k + 1) =~= ds.take(k as int).push(ds[k as int]));
                        if x == j {
                            assert(row@[before.len() as int] as int == x);
                            assert(ds.take(k + 1)[k as int] == ms[x].0);
                        } else {
                            assert(ms[x].0 != ms[j as int].0);
                            if exists|t: int| 0 <= t < row@.len() && #[trigger] row@[t] as int == x {
                                let t = choose|t: int| 0 <= t < row@.len() && #[trigger] row@[t] as int == x;
                                assert(before[t] as int == x);
                            }
                            if ds.take(k as int).contains(ms[x].0) {
                                let t = choose|t: int| 0 <= t < before.len() && #[trigger] before[t] as int == x;
                                assert(row@[t] as int == x);
                            }
                        }
                    }
                },
                None => {
                    assert forall|x: int| 0 <= x < n implies ((exists|t: int| 0 <= t < row@.len() && #[trigger] row@[t] as int == x)
                        <==> ds.take(k + 1).contains(#[trigger] ms[x].0)) by {
                        assert(ds.take(k + 1) =~= ds.take(k as int).push(ds[k as int]));
                        assert(ms[x].0 != ds[k as int]);
                    }
                },
            }
            k = k + 1;
        }
        assert(ds.take(k as int) =~= ds);
        let ghost before_adj = adj.deep_view();
        let ghost row_view = row@;
        assert(row.deep_view() =~= row_view);
        adj.push(row);
        assert(adj.deep_view() =~= before_adj.push(row_view));
        assert forall|u: int, j: int| 0 <= u < i + 1 && 0 <= j < n implies (#[trigger] edge(adj.deep_view(), u, j) <==> ms[u].1.contains(#[trigger] ms[j].0)) by {
            if u == i {
                assert(adj.deep_view()[u] == row_view);
                assert(ds.take(k as int).contains(ms[j].0) == ms[u].1.contains(ms[j].0));
                if edge(adj.deep_view(), u, j) {
                    let t = choose|t: int| 0 <= t < adj.deep_view()[u].len() && #[trigger] adj.deep_view()[u][t] as int == j;
                    assert(row_view[t] as int == j);
                }
                if ms[u].1.contains(ms[j].0) {
                    let t = choose|t: int| 0 <= t < row_view.len() && #[trigger] row_view[t] as int == j;
                    assert(adj.deep_view()[u][t] as int == j);
                }
            } else {
                assert(adj.deep_view()[u] == before_adj[u]);
                assert(edge(before_adj, u, j) <==> ms[u].1.contains(ms[j].0));
                assert(edge(adj.deep_view(), u, j) == edge(before_adj, u, j));
            }
        }
        i = i + 1;
    }
    adj
}

proof fn lemma_insert_keeps(s: Seq<usize>, pos: int, elt: usize)
    requires
        0 <= pos <= s.len(),
    ensures
        forall|y: usize| s.contains(y) ==> #[trigger] s.insert(pos, elt).contains(y),
        s.insert(pos, elt).contains(elt),
        forall|k: int| 0 <= k < s.insert(pos, elt).len() ==> #[trigger] s.insert(pos, elt)[k] == elt || s.contains(s.insert(pos, elt)[k]),
{
    s.insert_ensures(pos, elt);
    let r = s.insert(pos, elt);
    assert forall|y: usize| s.contains(y) implies #[trigger] r.contains(y) by {
        let k = choose|k: int| 0 <= k < s.len() && s[k] == y;
        if k < pos {
            assert(r[k] == y);
        } else {
            assert(r[k + 1] == y);
        }
    }
    assert(r[pos] == elt);
    assert forall|k: int| 0 <= k < r.len() implies #[trigger] r[k] == elt || s.contains(r[k]) by {
        if k < pos {
            assert(r[k] == s[k]);
        } else if k > pos {
            assert(r[k] == s[k - 1]);
        }
    }
}

/// Module indices with at least one dependency, ordered by how connected
/// they are (incoming plus outgoing edges, most first; saturating counts).
fn start_nodes_by_connectivity(
    modules: &Vec<(String, Vec<String>)>,
    in_degrees: &Vec<usize>,
) -> (r: Vec<usize>)
    requires
        in_degrees@.len() == modules@.len(),
    ensures
        forall|k: int| 0 <= k < r@.len() ==> #[trigger] r@[k] < modules@.len(),
        forall|x: int| 0 <= x < modules@.len() && modules.deep_view()[x].1.len() > 0 ==> #[trigger] r@.contains(
            x as usize,
        ),
{
    let n = modules.len();
    let mut nodes: Vec<usize> = Vec::new();
    let mut conns: Vec<usize> = Vec::new();
    let mut i: usize = 0;
    while i < n
        invariant
            n == modules@.len(),
            in_degrees@.len() == n,
            i <= n,
            nodes@.len() == conns@.len(),
            forall|k: int| 0 <= k < nodes@.len() ==> #[trigger] nodes@[k] < n,
            forall|x: int| 0 <= x < i && modules.deep_view()[x].1.len() > 0 ==> #[trigger] nodes@.contains(
                x as usize,
            ),
        decreases n - i,
    {
        let deps_len = modules[i].1.len();
        assert(modules.deep_view()[i as int].1.len() == deps_len);
        if deps_len > 0 {
            let conn = in_degrees[i].saturating_add(deps_len);
            // Sort in descending order; equal ones keep their order.
            let mut pos: usize = 0;
            while pos < conns.len() && conns[pos] >= conn
                invariant
                    pos <= conns@.len(),
                decreases conns@.len() - pos,
            {
                pos = pos + 1;
            }
            let ghost before = nodes@;
            nodes.insert(pos, i);
            conns.insert(pos, conn);
            proof {
                lemma_insert_keeps(before, pos as int, i);
            }
        }
        i = i + 1;
    }
    nodes
}

fn shortest_index_cycle(modules: &Vec<(String, Vec<String>)>, g: &Vec<Vec<usize>>) -> (r: Vec<usize>)
    requires
        distinct_names(modules.deep_view()),
        graph_of(modules.deep_view(), g.deep_view()),
        modules@.len() < usize::MAX,
    ensures
        r@.len() > 0 ==> is_index_cycle(g.deep_view(), r@.map_values(|v: usize| v as int)),
        r@.len() == 0 ==> forall|v: int| 0 <= v < g@.len() ==> !#[trigger] on_cycle(g.deep_view(), v),
        r@.len() > 3 ==> forall|v: int, len: int|
            0 <= v < g@.len() && 1 <= len < r@.len() ==> !#[trigger] cycle_through(g.deep_view(), v, len),
{
    let ghost gv = g.deep_view();
    let ghost ms = modules.deep_view();
    let n = modules.len();
    assert(g@.len() == n);

    // Count incoming edges.
    let mut in_degrees: Vec<usize> = Vec::new();
    let mut i: usize = 0;
    while i < n
        invariant
            i <= n,
            in_degrees@.len() == i,
        decreases n - i,
    {
        in_degrees.push(0);
        i = i + 1;
    }
    let mut u: usize = 0;
    while u < n
        invariant
            n == g@.len(),
            gv == g.deep_view(),
            well_formed_graph(gv),
            u <= n,
            in_degrees@.len() == n,
            forall|a: int, w: int| 0 <= a < u && #[trigger] edge(gv, a, w) ==> in_degrees@[w] > 0,
        decreases n - u,
    {
        let row = &g[u];
        assert(row@ == gv[u as int]);
        let mut k: usize = 0;
        while k < row.len()
            invariant
                n == g@.len(),
                gv == g.deep_view(),
                well_formed_graph(gv),
                u < n,
                row@ == gv[u as int],
                k <= row@.len(),
                in_degrees@.len() == n,
                forall|a: int, w: int| 0 <= a < u && #[trigger] edge(gv, a, w) ==> in_degrees@[w] > 0,
                forall|t: int| 0 <= t < k ==> in_degrees@[#[trigger] row@[t] as int] > 0,
            decreases row@.len() - k,
        {
            let w = row[k];
            assert(gv[u as int][k as int] == w);
            assert(w < n);
            let d = in_degrees[w].saturating_add(1);
            in_degrees.set(w, d);
            k = k + 1;
        }
        assert forall|a: int, w: int| 0 <= a < u + 1 && #[trigger] edge(gv, a, w) implies in_degrees@[w] > 0 by {
            if a == u {
                let t = choose|t: int| 0 <= t < gv[a].len() && #[trigger] gv[a][t] as int == w;
                assert(row@[t] as int == w);
            }
        }
        u = u + 1;
    }

    let start_nodes = start_nodes_by_connectivity(modules, &in_degrees);

    let mut shortest_cycle: Vec<usize> = Vec::new();
    // The length of the shortest cycle found so far; searches stop below it.
    let mut current_shortest_length: usize = usize::MAX;
    // Nodes known to lie on no cycle.
    let mut no_cycle_cache: Vec<bool> = Vec::new();
    let mut i: usize = 0;
    while i < n
        invariant
            i <= n,
            no_cycle_cache@.len() == i,
            forall|v: int| 0 <= v < i ==> !#[trigger] no_cycle_cache@[v],
        decreases n - i,
    {
        no_cycle_cache.push(false);
        i = i + 1;
    }

    let mut idx: usize = 0;
    while idx < start_nodes.len()
        invariant
            n == g@.len(),
            n < usize::MAX,
            gv == g.deep_view(),
            well_formed_graph(gv),
            in_degrees@.len() == n,
            no_cycle_cache@.len() == n,
            forall|a: int, w: int| 0 <= a < n && #[trigger] edge(gv, a, w) ==> in_degrees@[w] > 0,
            forall|k: int| 0 <= k < start_nodes@.len() ==> #[trigger] start_nodes@[k] < n,
            idx <= start_nodes@.len(),
            current_shortest_length >= 1,
            shortest_cycle@.len() == 0 ==> current_shortest_length == usize::MAX,
            shortest_cycle@.len() > 0 ==> is_index_cycle(gv, shortest_cycle@.map_values(|v: usize| v as int)),
            shortest_cycle@.len() == 0 ==> forall|k: int| 0 <= k < idx ==> !on_cycle(gv, #[trigger] start_nodes@[k] as int),
            shortest_cycle@.len() == 0 ==> forall|v: int| 0 <= v < n && #[trigger] no_cycle_cache@[v] ==> !on_cycle(gv, v),
            shortest_cycle@.len() > 0 ==> current_shortest_length == shortest_cycle@.len(),
            forall|k: int, len: int| 0 <= k < idx && 1 <= len < current_shortest_length
                ==> !#[trigger] cycle_through(gv, start_nodes@[k] as int, len),
            forall|v: int, len: int| 0 <= v < n && no_cycle_cache@[v] && 1 <= len < current_shortest_length
                ==> !#[trigger] cycle_through(gv, v, len),
        ensures
            shortest_cycle@.len() == 0 ==> idx == start_nodes@.len(),
            shortest_cycle@.len() > 3 ==> idx == start_nodes@.len(),
            shortest_cycle@.len() > 0 ==> is_index_cycle(gv, shortest_cycle@.map_values(|v: usize| v as int)),
            shortest_cycle@.len() == 0 ==> forall|k: int| 0 <= k < idx ==> !on_cycle(gv, #[trigger] start_nodes@[k] as int),
            shortest_cycle@.len() > 0 ==> current_shortest_length == shortest_cycle@.len(),
            forall|k: int, len: int| 0 <= k < idx && 1 <= len < current_shortest_length
                ==> !#[trigger] cycle_through(gv, start_nodes@[k] as int, len),
        decreases start_nodes@.len() - idx,
    {
        let start_node = start_nodes[idx];
        // Skip nodes that we know don't have cycles
        if no_cycle_cache[start_node] {
            idx = idx + 1;
            continue;
        }
        // Skip nodes with no incoming edges
        if in_degrees[start_node] == 0 {
            proof {
                if on_cycle(gv, start_node as int) {
                    let p = choose|p: Seq<int>| #[trigger] is_walk(gv, p) && p[0] == start_node as int && edge(gv, p.last(), start_node as int);
                    assert(0 <= p.last() < n);
                }
                assert forall|len: int| 1 <= len implies !#[trigger] cycle_through(gv, start_node as int, len) by {
                    if cycle_through(gv, start_node as int, len) {
                        let p = choose|p: Seq<int>| #[trigger] is_walk(gv, p) && p[0] == start_node as int && p.len() == len
                            && edge(gv, p.last(), start_node as int);
                        assert(on_cycle(gv, start_node as int));
                    }
                }
            }
            no_cycle_cache.set(start_node, true);
            idx = idx + 1;
            continue;
        }
        match find_cycle_bfs(start_node, g, current_shortest_length) {
            Some(cycle) => {
                if shortest_cycle.len() == 0 || cycle.len() < shortest_cycle.len() {
                    current_shortest_length = cycle.len();
                    shortest_cycle = cycle;
                    // A cycle of at most three modules is short enough to report.
                    if current_shortest_length <= 3 {
                        idx = idx + 1;
                        break;
                    }
                }
            },
            None => {
                no_cycle_cache.set(start_node, true);
            },
        }
        idx = idx + 1;
    }
    proof {
        if shortest_cycle@.len() > 3 {
            assert forall|v: int, len: int| 0 <= v < g@.len() && 1 <= len < shortest_cycle@.len()
                implies !#[trigger] cycle_through(gv, v, len) by {
                if ms[v].1.len() == 0 {
                    lemma_no_out_edges_no_cycle(gv, v);
                    if cycle_through(gv, v, len) {
                        let p = choose|p: Seq<int>| #[trigger] is_walk(gv, p) && p[0] == v && p.len() == len
                            && edge(gv, p.last(), v);
                        assert(on_cycle(gv, v));
                    }
                } else {
                    assert(start_nodes@.contains(v as usize));
                    let k = choose|k: int| 0 <= k < start_nodes@.len() && start_nodes@[k] == v as usize;
                    assert(!cycle_through(gv, start_nodes@[k] as int, len));
                }
            }
        }
        if shortest_cycle@.len() == 0 {
            assert forall|v: int| 0 <= v < g@.len() implies !#[trigger] on_cycle(gv, v) by {
                if ms[v].1.len() == 0 {
                    lemma_no_out_edges_no_cycle(gv, v);
                } else {
                    assert(start_nodes@.contains(v as usize));
                    let k = choose|k: int| 0 <= k < start_nodes@.len() && start_nodes@[k] == v as usize;
                    assert(!on_cycle(gv, start_nodes@[k] as int));
                }
            }
        }
    }
    shortest_cycle
}

/// A shortest dependency cycle among the modules (given as name and
/// dependency names), or nothing when there is none. The search stops at the
/// first cycle of at most three modules, so a cycle that long may be reported
/// where a shorter one exists; any longer result is a shortest cycle. The
/// cycle is listed backwards: each module depends on the one before it, and
/// the first on the last.
pub fn find(modules: &Vec<(String, Vec<String>)>) -> (r: Vec<String>)
    requires
        distinct_names(modules.deep_view()),
        modules@.len() < usize::MAX,
    ensures
        r@.len() == 0 <==> !has_dependency_cycle(modules.deep_view()),
        r@.len() > 0 ==> is_dependency_cycle(modules.deep_view(), r.deep_view()),
        r@.len() > 3 ==> forall|c: Seq<Seq<char>>| #[trigger] is_dependency_cycle(modules.deep_view(), c) ==> r@.len() <= c.len(),
{
    find_shortest_cycle(modules)
}

fn find_shortest_cycle(modules: &Vec<(String, Vec<String>)>) -> (r: Vec<String>)
    requires
        distinct_names(modules.deep_view()),
        modules@.len() < usize::MAX,
    ensures
        r@.len() == 0 <==> !has_dependency_cycle(modules.deep_view()),
        r@.len() > 0 ==> is_dependency_cycle(modules.deep_view(), r.deep_view()),
        r@.len() > 3 ==> forall|c: Seq<Seq<char>>| #[trigger] is_dependency_cycle(modules.deep_view(), c) ==> r@.len() <= c.len(),
{
    let ghost ms = modules.deep_view();
    // Build a graph representation for easier traversal
    let g = build_graph(modules);
    let cycle = shortest_index_cycle(modules, &g);
    let mut names: Vec<String> = Vec::new();
    let mut k: usize = 0;
    while k < cycle.len()
        invariant
            ms == modules.deep_view(),
            graph_of(ms, g.deep_view()),
            cycle@.len() > 0 ==> is_index_cycle(g.deep_view(), cycle@.map_values(|v: usize| v as int)),
            k <= cycle@.len(),
            names.deep_view() == cycle@.take(k as int).map_values(|v: usize| ms[v as int].0),
        decreases cycle@.len() - k,
    {
        let v = cycle[k];
        assert(cycle@.map_values(|v: usize| v as int)[k as int] == v as int);
        assert(v < modules@.len());
        let ghost before = names.deep_view();
        names.push(modules[v].0.clone());
        assert(names.deep_view() =~= before.push(ms[v as int].0));
        k = k + 1;
        assert(cycle@.take(k as int).map_values(|v: usize| ms[v as int].0) =~= before.push(ms[v as int].0));
    }
    proof {
        assert(cycle@.take(k as int) =~= cycle@);
        if cycle@.len() > 0 {
            let c = cycle@.map_values(|v: usize| v as int);
            lemma_index_cycle_names(ms, g.deep_view(), c);
            assert(c.map_values(|v: int| ms[v].0) =~= names.deep_view());
        } else {
            if has_dependency_cycle(ms) {
                let c = choose|c: Seq<Seq<char>>| #[trigger] is_dependency_cycle(ms, c);
                lemma_name_cycle_on_index_cycle(ms, g.deep_view(), c);
            }
        }
        if cycle@.len() > 3 {
            assert forall|c: Seq<Seq<char>>| #[trigger] is_dependency_cycle(ms, c) implies names@.len() <= c.len() by {
                lemma_name_cycle_on_index_cycle(ms, g.deep_view(), c);
                if c.len() < cycle@.len() {
                    assert(!cycle_through(g.deep_view(), index_of_name(ms, c[0]), c.len() as int));
                }
            }
        }
    }
    names
}

/// How a cycle reads in a message: listed the other way round (each module
/// followed by one it depends on), closed by its first module again, each
/// name shown as `Namespace.Module`, one per line joined by `→`.
pub open spec fn cycle_text(cycle: Seq<Seq<char>>) -> Seq<char> {
    let closed = cycle.reverse().push(cycle.reverse()[0]);
    join_with(closed.map_values(|m: Seq<char>| namespaced_display(m)), "\n → "@)
}

/// The text that explains a cycle to the user (see `cycle_text`).
pub fn format(cycle: &[String]) -> (r: String)
    requires
        cycle@.len() > 0,
    ensures
        r@ == cycle_text(cycle@.map_values(|s: String| s@)),
{
    let ghost c = cycle@.map_values(|s: String| s@);
    let ghost closed = c.reverse().push(c.reverse()[0]);
    let n = cycle.len();
    let mut shown: Vec<String> = Vec::new();
    let mut i: usize = 0;
    while i < n
        invariant
            n == cycle@.len(),
            n > 0,
            c == cycle@.map_values(|s: String| s@),
            closed == c.reverse().push(c.reverse()[0]),
            i <= n,
            shown.deep_view() == closed.take(i as int).map_values(|m: Seq<char>| namespaced_display(m)),
        decreases n - i,
    {
        let ghost before = shown.deep_view();
        let t = crate::helpers::format_namespaced_module_name(cycle[n - 1 - i].as_str());
        shown.push(t);
        assert(closed[i as int] == c[n - 1 - i]);
        assert(shown.deep_view() =~= before.push(namespaced_display(closed[i as int])));
        i = i + 1;
        assert(closed.take(i as int).map_values(|m: Seq<char>| namespaced_display(m))
            =~= before.push(namespaced_display(closed[i - 1])));
    }
    let ghost before = shown.deep_view();
    let t = crate::helpers::format_namespaced_module_name(cycle[n - 1].as_str());
    shown.push(t);
    assert(closed[n as int] == c[n - 1]);
    assert(closed.len() == n + 1);
    assert(shown.deep_view() =~= before.push(namespaced_display(closed[n as int])));
    assert(closed.map_values(|m: Seq<char>| namespaced_display(m)) =~= closed.take(n as int).map_values(
        |m: Seq<char>| namespaced_display(m),
    ).push(namespaced_display(closed[n as int])));
    crate::text::join_strings(&shown, "\n → ")
}

} // verus!
