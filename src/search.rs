use vstd::prelude::*;
use vstd::string::StringExecFns;
use crate::graph::Graph;

verus! {

/// Why a search gave no path.
#[derive(Debug, Clone, Copy, PartialEq, Eq, Structural)]
pub enum SearchError {
    /// The start or the goal label is not a node of the graph.
    UnknownNode,
    /// No path leads from the start to the goal.
    NoPathFound,
}

/// What holds between two rounds of the search: `dist[v]` is the cost of the
/// best path found so far to `v`, settled nodes hold their least cost, and
/// every edge out of a settled node has been relaxed.
pub open spec fn search_inv(
    g: &Graph,
    start: usize,
    dist: Seq<Option<usize>>,
    settled: Seq<bool>,
) -> bool {
    &&& dist.len() == g.num_nodes()
    &&& settled.len() == g.num_nodes()
    &&& dist[start as int] == Some(0usize)
    &&& forall|v: int| 0 <= v < settled.len() && #[trigger] settled[v] ==> dist[v].is_some()
    &&& forall|v: int, q: Seq<usize>|
        0 <= v < settled.len() && #[trigger] settled[v] && #[trigger] g.is_path_between(q, start, v as usize)
            ==> dist[v].unwrap() <= g.path_cost(q)
    &&& forall|x: int, k: int|
        0 <= x < settled.len() && settled[x] && 0 <= k < g.adj@[x]@.len()
            ==> relaxed(dist, x, #[trigger] g.adj@[x]@[k])
}

/// The edge `e` out of `x` offers nothing better than what `dist` already holds.
pub open spec fn relaxed(dist: Seq<Option<usize>>, x: int, e: (usize, usize)) -> bool {
    dist[x].unwrap() + e.1 > usize::MAX || (dist[e.0 as int].is_some()
        && dist[e.0 as int].unwrap() <= dist[x].unwrap() + e.1)
}

/// Counts the nodes not yet settled.
pub open spec fn num_unsettled(s: Seq<bool>) -> nat
    decreases s.len(),
{
    if s.len() == 0 {
        0
    } else {
        num_unsettled(s.drop_last()) + if s.last() { 0nat } else { 1nat }
    }
}

proof fn lemma_settle_one(s: Seq<bool>, i: int)
    requires
        0 <= i < s.len(),
        !s[i],
    ensures
        num_unsettled(s.update(i, true)) + 1 == num_unsettled(s),
    decreases s.len(),
{
    if i == s.len() - 1 {
        assert(s.update(i, true).drop_last() =~= s.drop_last());
    } else {
        assert(s.update(i, true).drop_last() =~= s.drop_last().update(i, true));
        lemma_settle_one(s.drop_last(), i);
    }
}

/// A path of bounded cost from the start to a node not yet settled passes
/// through an unsettled node whose known cost is at most that of the path.
proof fn lemma_frontier_witness(
    g: &Graph,
    start: usize,
    dist: Seq<Option<usize>>,
    settled: Seq<bool>,
    q: Seq<usize>,
) -> (j: int)
    requires
        g.wf(),
        (start as int) < g.num_nodes(),
        search_inv(g, start, dist, settled),
        g.is_path(q),
        q[0] == start,
        g.path_cost(q) <= usize::MAX,
        !settled[q.last() as int],
    ensures
        0 <= j < q.len(),
        !settled[q[j] as int],
        dist[q[j] as int].is_some(),
        dist[q[j] as int].unwrap() <= g.path_cost(q),
    decreases q.len(),
{
    if q.len() == 1 {
        assert(q.last() == q[0]);
        0
    } else {
        let p = q.drop_last();
        let x = q[q.len() - 2];
        let v = q.last();
        g.lemma_path_drop_last(q);
        g.lemma_cost_nonneg(p);
        let k = choose|k: int| 0 <= k < g.adj@[x as int]@.len() && #[trigger] g.adj@[x as int]@[k].0 == v;
        g.lemma_weight(x, k);
        assert(p[0] == start && p.last() == x);
        if settled[x as int] {
            assert(g.is_path_between(p, start, x));
            assert(settled[(x as int)] && g.is_path_between(p, start, (x as int) as usize));
            assert(relaxed(dist, x as int, g.adj@[x as int]@[k]));
            (q.len() - 1) as int
        } else {
            lemma_frontier_witness(g, start, dist, settled, p)
        }
    }
}

/// The position of the unsettled node with the least known cost, the lowest
/// position among equals; `None` where every node with a known cost is settled.
fn pick_next(dist: &Vec<Option<usize>>, settled: &Vec<bool>) -> (r: Option<usize>)
    requires
        dist@.len() == settled@.len(),
    ensures
        match r {
            Some(b) => {
                &&& b < dist@.len()
                &&& !settled@[b as int]
                &&& dist@[b as int].is_some()
                &&& forall|j: int|
                    0 <= j < dist@.len() && !settled@[j] && #[trigger] dist@[j].is_some()
                        ==> dist@[b as int].unwrap() <= dist@[j].unwrap()
            },
            None => forall|j: int|
                0 <= j < dist@.len() && !settled@[j] ==> #[trigger] dist@[j].is_none(),
        },
{
    let n = dist.len();
    let mut best: Option<usize> = None;
    let mut best_d: usize = 0;
    let mut i: usize = 0;
    while i < n
        invariant
            n == dist@.len(),
            n == settled@.len(),
            i <= n,
            match best {
                Some(b) => {
                    &&& b < i
                    &&& !settled@[b as int]
                    &&& dist@[b as int] == Some(best_d)
                    &&& forall|j: int|
                        0 <= j < i && !settled@[j] && #[trigger] dist@[j].is_some()
                            ==> best_d <= dist@[j].unwrap()
                },
                None => forall|j: int| 0 <= j < i && !settled@[j] ==> !(#[trigger] dist@[j].is_some()),
            },
        decreases n - i,
    {
        if !settled[i] {
            if let Some(d) = dist[i] {
                if best.is_none() || d < best_d {
                    best = Some(i);
                    best_d = d;
                }
                assert(dist@[i as int].is_some() && best_d <= d);
            }
        }
        assert(dist@[i as int].is_some() || dist@[i as int].is_none());
        i = i + 1;
    }
    best
}

/// A least-cost path from `start` to `goal`, as a sequence of node positions.
///
/// Nodes are settled in order of their known cost, ties going to the lower
/// position; each node remembers the node it was last reached from, and when
/// the goal is settled the path is read back along those links.
pub fn find(g: &Graph, start: usize, goal: usize) -> (r: Result<Vec<usize>, SearchError>)
    requires
        g.wf(),
        (start as int) < g.num_nodes(),
        (goal as int) < g.num_nodes(),
    ensures
        r.is_ok() <==> g.reachable(start, goal),
        match r {
            Ok(p) => g.is_shortest_path(start, goal, p@),
            Err(e) => e == SearchError::NoPathFound,
        },
        start == goal ==> (r matches Ok(p) && p@ == seq![start] && g.path_cost(p@) == 0),
{
    let n = g.labels.len();
    let mut dist: Vec<Option<usize>> = Vec::new();
    let mut settled: Vec<bool> = Vec::new();
    let mut origin: Vec<usize> = Vec::new();
    // `paths[v]` is a path to `v` of cost `dist[v]`; `rank[v]` orders the settled nodes.
    let ghost mut paths: Seq<Seq<usize>> = Seq::empty();
    let ghost mut rank: Seq<int> = Seq::empty();
    let ghost mut round: int = 0;
    let mut i: usize = 0;
    while i < n
        invariant
            n == g.num_nodes(),
            i <= n,
            dist@.len() == i,
            settled@.len() == i,
            origin@.len() == i,
            paths.len() == i,
            rank.len() == i,
            forall|j: int| 0 <= j < i ==> #[trigger] dist@[j] == (if j == start as int { Some(0usize) } else { None }),
            forall|j: int| 0 <= j < i ==> !#[trigger] settled@[j],
            forall|j: int| 0 <= j < i && j == start as int ==> #[trigger] paths[j] == seq![start],
        decreases n - i,
    {
        if i == start {
            dist.push(Some(0));
        } else {
            dist.push(None);
        }
        settled.push(false);
        origin.push(i);
        proof {
            paths = paths.push(seq![start]);
            rank = rank.push(0);
        }
        i = i + 1;
    }
    proof {
        assert forall|v: int, q: Seq<usize>|
            0 <= v < settled@.len() && #[trigger] settled@[v] && #[trigger] g.is_path_between(q, start, v as usize)
                implies dist@[v].unwrap() <= g.path_cost(q) by {}
    }
    loop
        invariant
            g.wf(),
            n == g.num_nodes(),
            (start as int) < n,
            (goal as int) < n,
            search_inv(g, start, dist@, settled@),
            origin@.len() == n,
            paths.len() == n,
            rank.len() == n,
            !settled@[goal as int],
            start == goal ==> forall|v: int| 0 <= v < n && v != start ==> (#[trigger] dist@[v]).is_none(),
            forall|v: int|
                0 <= v < n && (#[trigger] dist@[v]).is_some() ==> {
                    &&& g.is_path_between(paths[v], start, v as usize)
                    &&& g.path_cost(paths[v]) == dist@[v].unwrap() as int
                },
            origin_inv(g, start, dist@, settled@, origin@, rank, round),
            0 <= round,
        decreases num_unsettled(settled@),
    {
        let next = pick_next(&dist, &settled);
        let u = match next {
            None => {
                proof {
                    if g.reachable(start, goal) {
                        let q = choose|q: Seq<usize>| #[trigger] g.is_path_between(q, start, goal) && g.path_cost(q) <= usize::MAX;
                        let j = lemma_frontier_witness(g, start, dist@, settled@, q);
                        assert(dist@[q[j] as int].is_none());
                    }
                }
                return Err(SearchError::NoPathFound);
            },
            Some(u) => u,
        };
        let du = dist[u].unwrap();
        proof {
            assert forall|q: Seq<usize>| #[trigger] g.is_path_between(q, start, u) implies du <= g.path_cost(q) by {
                if g.path_cost(q) <= usize::MAX {
                    let j = lemma_frontier_witness(g, start, dist@, settled@, q);
                }
            }
        }
        if u == goal {
            return Ok(walk_back(g, start, goal, &dist, &settled, &origin, Ghost(rank), Ghost(round)));
        }
        assert(start != goal);
        let ghost s0 = settled@;
        let ghost r0 = rank;
        proof {
            lemma_settle_one(settled@, u as int);
            rank = rank.update(u as int, round);
            round = round + 1;
        }
        settled.set(u, true);
        proof {
            assert forall|v: int|
                0 <= v < n && v != start && (#[trigger] dist@[v]).is_some() implies origin_link(
                    g, start, dist@, settled@, origin@, rank, v) by {
                assert(origin_link(g, start, dist@, s0, origin@, r0, v));
                assert(origin@[v] != u);
            }
            assert forall|v: int| 0 <= v < n && #[trigger] settled@[v] implies 0 <= rank[v] < round by {
                if v != u {
                    assert(s0[v]);
                }
            }
        }
        let edges = &g.adj[u];
        let mut k: usize = 0;
        while k < edges.len()
            invariant
                g.wf(),
                n == g.num_nodes(),
                (start as int) < n,
                (goal as int) < n,
                (u as int) < n,
                u != goal,
                start != goal,
                edges@ == g.adj@[u as int]@,
                k <= edges@.len(),
                dist@.len() == n,
                settled@.len() == n,
                origin@.len() == n,
                paths.len() == n,
                rank.len() == n,
                settled@[u as int],
                !settled@[goal as int],
                dist@[u as int] == Some(du),
                dist@[start as int] == Some(0usize),
                forall|v: int| 0 <= v < n && #[trigger] settled@[v] ==> dist@[v].is_some(),
                forall|v: int, q: Seq<usize>|
                    0 <= v < n && #[trigger] settled@[v] && #[trigger] g.is_path_between(q, start, v as usize)
                        ==> dist@[v].unwrap() <= g.path_cost(q),
                forall|x: int, k2: int|
                    0 <= x < n && settled@[x] && x != u && 0 <= k2 < g.adj@[x]@.len()
                        ==> relaxed(dist@, x, #[trigger] g.adj@[x]@[k2]),
                forall|k2: int| 0 <= k2 < k ==> relaxed(dist@, u as int, #[trigger] g.adj@[u as int]@[k2]),
                forall|v: int|
                    0 <= v < n && (#[trigger] dist@[v]).is_some() ==> {
                        &&& g.is_path_between(paths[v], start, v as usize)
                        &&& g.path_cost(paths[v]) == dist@[v].unwrap() as int
                    },
                origin_inv(g, start, dist@, settled@, origin@, rank, round),
            decreases edges@.len() - k,
        {
            let (v, w) = edges[k];
            proof {
                g.lemma_weight(u, k as int);
            }
            if w <= usize::MAX - du {
                let nd = du + w;
                let better = match dist[v] {
                    None => true,
                    Some(dv) => nd < dv,
                };
                if better {
                    assert(v != start);
                    proof {
                        assert(g.is_path_between(paths[u as int], start, u));
                        g.lemma_path_push(paths[u as int], v);
                        let q = paths[u as int].push(v);
                        assert(g.is_path_between(q, start, v));
                        if settled@[v as int] {
                            assert(dist@[v as int].unwrap() <= g.path_cost(q));
                        }
                    }
                    let ghost d1 = dist@;
                    let ghost o1 = origin@;
                    dist.set(v, Some(nd));
                    origin.set(v, u);
                    proof {
                        paths = paths.update(v as int, paths[u as int].push(v));
                        assert forall|x: int, k2: int|
                            0 <= x < n && settled@[x] && x != u && 0 <= k2 < g.adj@[x]@.len()
                                implies relaxed(dist@, x, #[trigger] g.adj@[x]@[k2]) by {
                            assert(relaxed(d1, x, g.adj@[x]@[k2]));
                        }
                        assert forall|k2: int| 0 <= k2 < k + 1 implies relaxed(dist@, u as int, #[trigger] g.adj@[u as int]@[k2]) by {
                            if k2 < k {
                                assert(relaxed(d1, u as int, g.adj@[u as int]@[k2]));
                            }
                        }
                        assert forall|x: int|
                            0 <= x < n && x != start && (#[trigger] dist@[x]).is_some() implies origin_link(
                                g, start, dist@, settled@, origin@, rank, x) by {
                            if x != v {
                                assert(origin_link(g, start, d1, settled@, o1, rank, x));
                                assert(o1[x] != v);
                            }
                        }
                    }
                }
            }
            k = k + 1;
        }
    }
}

/// Node `v` was reached from the settled node `origin[v]` along an edge, at
/// the cost of that node plus the edge's weight.
pub open spec fn origin_link(
    g: &Graph,
    start: usize,
    dist: Seq<Option<usize>>,
    settled: Seq<bool>,
    origin: Seq<usize>,
    rank: Seq<int>,
    v: int,
) -> bool {
    let o = origin[v] as int;
    &&& 0 <= o < g.num_nodes()
    &&& settled[o]
    &&& g.has_edge(o as usize, v as usize)
    &&& dist[v].unwrap() == dist[o].unwrap() + g.weight(o as usize, v as usize)
    &&& settled[v] ==> rank[o] < rank[v]
}

/// Every node with a known cost other than the start has an origin link,
/// and settled nodes are ranked in the order they were settled.
pub open spec fn origin_inv(
    g: &Graph,
    start: usize,
    dist: Seq<Option<usize>>,
    settled: Seq<bool>,
    origin: Seq<usize>,
    rank: Seq<int>,
    round: int,
) -> bool {
    &&& origin.len() == g.num_nodes()
    &&& rank.len() == g.num_nodes()
    &&& forall|v: int| 0 <= v < g.num_nodes() && #[trigger] settled[v] ==> 0 <= rank[v] < round
    &&& forall|v: int|
        0 <= v < g.num_nodes() && v != start && (#[trigger] dist[v]).is_some() ==> origin_link(
            g, start, dist, settled, origin, rank, v)
}

/// Reads the path to `goal` back along the origin links, from the goal to
/// the start.
#[verifier::loop_isolation(false)]
fn walk_back(
    g: &Graph,
    start: usize,
    goal: usize,
    dist: &Vec<Option<usize>>,
    settled: &Vec<bool>,
    origin: &Vec<usize>,
    rank: Ghost<Seq<int>>,
    round: Ghost<int>,
) -> (p: Vec<usize>)
    requires
        g.wf(),
        (start as int) < g.num_nodes(),
        (goal as int) < g.num_nodes(),
        dist@.len() == g.num_nodes(),
        settled@.len() == g.num_nodes(),
        origin@.len() == g.num_nodes(),
        rank@.len() == g.num_nodes(),
        dist@[start as int] == Some(0usize),
        dist@[goal as int].is_some(),
        !settled@[goal as int],
        forall|v: int| 0 <= v < g.num_nodes() && #[trigger] settled@[v] ==> dist@[v].is_some(),
        origin_inv(g, start, dist@, settled@, origin@, rank@, round@),
    ensures
        g.is_path_between(p@, start, goal),
        g.path_cost(p@) == dist@[goal as int].unwrap() as int,
        start == goal ==> p@ == seq![start],
{
    let mut p: Vec<usize> = Vec::new();
    p.push(goal);
    let mut node = goal;
    assert(p@ == seq![goal]);
    assert(g.path_cost(p@) == 0);
    while node != start
        invariant
            g.wf(),
            (start as int) < g.num_nodes(),
            dist@.len() == g.num_nodes(),
            settled@.len() == g.num_nodes(),
            origin@.len() == g.num_nodes(),
            rank@.len() == g.num_nodes(),
            (node as int) < g.num_nodes(),
            dist@[node as int].is_some(),
            node == goal || settled@[node as int],
            start == goal ==> node == goal && p@ == seq![goal],
            g.is_path_between(p@, node, goal),
            g.path_cost(p@) + dist@[node as int].unwrap() == dist@[goal as int].unwrap(),
        decreases if settled@[node as int] { rank@[node as int] } else { round@ },
    {
        let o = origin[node];
        proof {
            assert(origin_link(g, start, dist@, settled@, origin@, rank@, node as int));
            g.lemma_path_prepend(o, p@);
            assert(p@.insert(0, o) =~= seq![o] + p@);
        }
        p.insert(0, o);
        node = o;
    }
    p
}

/// Least costs obey the triangle inequality: the cost of a least-cost path
/// from `x` to `z` is at most the cost of one from `x` to `y` plus the cost
/// of one from `y` to `z`.
pub proof fn lemma_triangle(
    g: &Graph,
    x: usize,
    y: usize,
    z: usize,
    pxy: Seq<usize>,
    pyz: Seq<usize>,
    pxz: Seq<usize>,
)
    requires
        g.wf(),
        g.is_shortest_path(x, y, pxy),
        g.is_shortest_path(y, z, pyz),
        g.is_shortest_path(x, z, pxz),
    ensures
        g.path_cost(pxz) <= g.path_cost(pxy) + g.path_cost(pyz),
{
    g.lemma_path_concat(pxy, pyz);
    assert(g.is_path_between(pxy + pyz.drop_first(), x, z));
}

/// The position of the node labelled `l`, where there is one.
pub open spec fn label_pos(g: &Graph, l: Seq<char>) -> usize {
    (choose|i: int| 0 <= i < g.labels@.len() && #[trigger] g.labels@[i]@ == l) as usize
}

/// The position of the node labelled `label`, if any.
pub fn index_of(g: &Graph, label: &str) -> (r: Option<usize>)
    requires
        g.wf(),
    ensures
        r.is_some() == g.has_label(label@),
        r matches Some(i) ==> i == label_pos(g, label@) && (i as int) < g.num_nodes()
            && g.labels@[i as int]@ == label@,
{
    let wanted = label.to_owned();
    let mut i: usize = 0;
    while i < g.labels.len()
        invariant
            g.wf(),
            wanted@ == label@,
            i <= g.labels@.len(),
            forall|j: int| 0 <= j < i ==> #[trigger] g.labels@[j]@ != label@,
        decreases g.labels@.len() - i,
    {
        if g.labels[i] == wanted {
            proof {
                let c = choose|c: int| 0 <= c < g.labels@.len() && #[trigger] g.labels@[c]@ == label@;
                if c < i as int {
                    assert(g.labels@[c]@ != g.labels@[i as int]@);
                } else if c > i as int {
                    assert(g.labels@[i as int]@ != g.labels@[c]@);
                }
            }
            return Some(i);
        }
        i = i + 1;
    }
    None
}

/// The labels of the nodes along `p`.
fn labels_along(g: &Graph, p: &Vec<usize>) -> (r: Vec<String>)
    requires
        forall|i: int| 0 <= i < p@.len() ==> (#[trigger] p@[i] as int) < g.num_nodes(),
    ensures
        r.deep_view() == g.labels_of(p@),
{
    let mut r: Vec<String> = Vec::new();
    let mut i: usize = 0;
    while i < p.len()
        invariant
            i <= p@.len(),
            forall|j: int| 0 <= j < p@.len() ==> (#[trigger] p@[j] as int) < g.num_nodes(),
            r@.len() == i,
            forall|j: int| 0 <= j < i ==> (#[trigger] r@[j])@ == g.labels@[p@[j] as int]@,
        decreases p@.len() - i,
    {
        let l = g.labels[p[i]].clone();
        r.push(l);
        i = i + 1;
    }
    assert(r.deep_view() =~= g.labels_of(p@));
    r
}

/// A least-cost path between the nodes labelled `start` and `goal`, as the
/// labels along it.
pub fn dijakstra(graph: &Graph, start: &str, goal: &str) -> (r: Result<Vec<String>, SearchError>)
    requires
        graph.wf(),
    ensures
        r == Err::<Vec<String>, SearchError>(SearchError::UnknownNode) <==> !graph.has_label(start@)
            || !graph.has_label(goal@),
        graph.has_label(start@) && graph.has_label(goal@) ==> {
            let s = label_pos(graph, start@);
            let t = label_pos(graph, goal@);
            &&& r.is_ok() <==> graph.reachable(s, t)
            &&& r matches Ok(p) ==> exists|q: Seq<usize>|
                #[trigger] graph.is_shortest_path(s, t, q) && p.deep_view() == graph.labels_of(q)
            &&& r matches Err(e) ==> e == SearchError::NoPathFound
            &&& start@ == goal@ ==> (r matches Ok(p) && p.deep_view() == seq![start@])
        },
{
    let s = match index_of(graph, start) {
        Some(s) => s,
        None => return Err(SearchError::UnknownNode),
    };
    let t = match index_of(graph, goal) {
        Some(t) => t,
        None => return Err(SearchError::UnknownNode),
    };
    match find(graph, s, t) {
        Ok(p) => {
            let labels = labels_along(graph, &p);
            proof {
                assert(graph.is_shortest_path(s, t, p@));
                if start@ == goal@ {
                    assert(p@ == seq![s]);
                    assert(graph.labels_of(p@)[0] == start@);
                    assert(graph.labels_of(p@) =~= seq![start@]);
                }
            }
            Ok(labels)
        },
        Err(e) => Err(e),
    }
}

/// The labels joined by ` -> `.
pub open spec fn joined(s: Seq<Seq<char>>) -> Seq<char>
    decreases s.len(),
{
    if s.len() == 0 {
        Seq::empty()
    } else if s.len() == 1 {
        s[0]
    } else {
        joined(s.drop_last()) + " -> "@ + s.last()
    }
}

/// A path's labels joined by ` -> `, as it is shown to a reader.
pub fn path_text(path: &Vec<String>) -> (r: String)
    ensures
        r@ == joined(path.deep_view()),
{
    let mut r = String::new();
    let mut i: usize = 0;
    while i < path.len()
        invariant
            i <= path@.len(),
            r@ == joined(path.deep_view().take(i as int)),
        decreases path@.len() - i,
    {
        proof {
            reveal_strlit(" -> ");
            assert(path.deep_view().take(i as int + 1).drop_last() =~= path.deep_view().take(i as int));
        }
        if i > 0 {
            r.append(" -> ");
        }
        r.append(path[i].as_str());
        proof {
            if i == 0 {
                assert(r@ =~= path.deep_view().take(1)[0]);
            }
        }
        i = i + 1;
    }
    assert(path.deep_view().take(path@.len() as int) =~= path.deep_view());
    r
}

} // verus!
