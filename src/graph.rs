use vstd::prelude::*;

verus! {

/// A node label with its outgoing edges, each as a neighbour label and a weight.
pub type Entry = (String, Vec<(String, usize)>);

/// The mathematical form of a list of entries.
pub type EntriesView = Seq<(Seq<char>, Seq<(Seq<char>, usize)>)>;

/// Why a list of entries does not describe a graph.
#[derive(Debug, Clone, Copy, PartialEq, Eq, Structural)]
pub enum GraphError {
    /// Two entries carry the same label.
    DuplicateNode,
    /// An edge names a neighbour that no entry carries.
    UnknownNeighbour,
    /// A node lists the same neighbour twice.
    DuplicateEdge,
    /// The text is not a map from labels to maps from labels to weights.
    Malformed,
}

/// No two entries carry the same label.
pub open spec fn labels_distinct(e: EntriesView) -> bool {
    forall|i: int, j: int| 0 <= i < j < e.len() ==> (#[trigger] e[i]).0 != (#[trigger] e[j]).0
}

/// Every neighbour label is the label of some entry.
pub open spec fn neighbours_known(e: EntriesView) -> bool {
    forall|i: int, k: int|
        0 <= i < e.len() && 0 <= k < e[i].1.len() ==> exists|j: int|
            0 <= j < e.len() && (#[trigger] e[j]).0 == (#[trigger] e[i].1[k]).0
}

/// No entry lists a neighbour twice.
pub open spec fn edges_distinct(e: EntriesView) -> bool {
    forall|i: int, k1: int, k2: int|
        0 <= i < e.len() && 0 <= k1 < e[i].1.len() && 0 <= k2 < e[i].1.len() && k1 != k2
            ==> (#[trigger] e[i].1[k1]).0 != (#[trigger] e[i].1[k2]).0
}

/// The entries describe a graph.
pub open spec fn valid_entries(e: EntriesView) -> bool {
    labels_distinct(e) && neighbours_known(e) && edges_distinct(e)
}

/// The position of the label `l` in `labels`, if it is there.
fn find_label(labels: &Vec<String>, l: &String) -> (r: Option<usize>)
    ensures
        r matches Some(i) ==> i < labels@.len() && labels@[i as int]@ == l@,
        r is None ==> forall|j: int| 0 <= j < labels@.len() ==> (#[trigger] labels@[j])@ != l@,
{
    let mut i: usize = 0;
    while i < labels.len()
        invariant
            i <= labels@.len(),
            forall|j: int| 0 <= j < i ==> (#[trigger] labels@[j])@ != l@,
        decreases labels@.len() - i,
    {
        if labels[i] == *l {
            return Some(i);
        }
        i = i + 1;
    }
    None
}

/// A weighted directed graph over labelled nodes.
///
/// Node `i` carries the label `labels[i]`; `adj[i]` lists its outgoing edges
/// as `(target, weight)` pairs.
pub struct Graph {
    pub labels: Vec<String>,
    pub adj: Vec<Vec<(usize, usize)>>,
}

impl Graph {
    /// Number of nodes.
    pub open spec fn num_nodes(&self) -> int {
        self.labels@.len() as int
    }

    /// Labels are unique, every edge points at a node of the graph, and a
    /// node has at most one edge to any given neighbour.
    pub open spec fn wf(&self) -> bool {
        &&& self.adj@.len() == self.labels@.len()
        &&& forall|i: int, j: int|
            0 <= i < j < self.labels@.len() ==> self.labels@[i]@ != self.labels@[j]@
        &&& forall|u: int, k: int|
            0 <= u < self.adj@.len() && 0 <= k < self.adj@[u]@.len()
                ==> (#[trigger] self.adj@[u]@[k]).0 < self.labels@.len()
        &&& forall|u: int, k1: int, k2: int|
            0 <= u < self.adj@.len() && 0 <= k1 < self.adj@[u]@.len() && 0 <= k2
                < self.adj@[u]@.len() && k1 != k2 ==> (#[trigger] self.adj@[u]@[k1]).0
                != (#[trigger] self.adj@[u]@[k2]).0
    }

    /// The outgoing edges of node `i`, by neighbour label.
    pub open spec fn edges_view(&self, i: int) -> Seq<(Seq<char>, usize)> {
        Seq::new(
            self.adj@[i]@.len(),
            |k: int| (self.labels@[self.adj@[i]@[k].0 as int]@, self.adj@[i]@[k].1),
        )
    }

    /// The graph as labelled entries, one per node in position order.
    pub open spec fn entries_view(&self) -> EntriesView {
        Seq::new(self.labels@.len(), |i: int| (self.labels@[i]@, self.edges_view(i)))
    }

    /// Builds a graph from labelled entries; node `i` is entry `i`.
    #[verifier::loop_isolation(false)]
    pub fn from_entries(e: &Vec<Entry>) -> (r: Result<Graph, GraphError>)
        ensures
            r.is_ok() <==> valid_entries(e.deep_view()),
            r matches Ok(g) ==> g.wf() && g.entries_view() == e.deep_view(),
            r == Err::<Graph, GraphError>(GraphError::DuplicateNode) <==> !labels_distinct(e.deep_view()),
            r == Err::<Graph, GraphError>(GraphError::UnknownNeighbour) <==> labels_distinct(e.deep_view())
                && !neighbours_known(e.deep_view()),
            r == Err::<Graph, GraphError>(GraphError::DuplicateEdge) <==> labels_distinct(e.deep_view())
                && neighbours_known(e.deep_view()) && !edges_distinct(e.deep_view()),
    {
        let ghost ev = e.deep_view();
        let n = e.len();
        let mut labels: Vec<String> = Vec::new();
        let mut i: usize = 0;
        while i < n
            invariant
                n == e@.len(),
                ev == e.deep_view(),
                i <= n,
                labels@.len() == i,
                forall|j: int| 0 <= j < i ==> (#[trigger] labels@[j])@ == ev[j].0,
            decreases n - i,
        {
            labels.push(e[i].0.clone());
            i = i + 1;
        }
        i = 0;
        while i < n
            invariant
                n == e@.len(),
                ev == e.deep_view(),
                i <= n,
                labels@.len() == n,
                forall|j: int| 0 <= j < n ==> (#[trigger] labels@[j])@ == ev[j].0,
                forall|a: int, b: int| 0 <= a < b < i ==> (#[trigger] ev[a]).0 != (#[trigger] ev[b]).0,
            decreases n - i,
        {
            let mut j: usize = 0;
            while j < i
                invariant
                    n == e@.len(),
                    ev == e.deep_view(),
                    j <= i < n,
                    labels@.len() == n,
                    forall|c: int| 0 <= c < n ==> (#[trigger] labels@[c])@ == ev[c].0,
                    forall|a: int| 0 <= a < j ==> (#[trigger] ev[a]).0 != ev[i as int].0,
                decreases i - j,
            {
                if labels[j] == labels[i] {
                    assert(ev[j as int].0 == ev[i as int].0);
                    return Err(GraphError::DuplicateNode);
                }
                j = j + 1;
            }
            i = i + 1;
        }
        assert(labels_distinct(ev));
        let mut adj: Vec<Vec<(usize, usize)>> = Vec::new();
        i = 0;
        while i < n
            invariant
                n == e@.len(),
                ev == e.deep_view(),
                i <= n,
                labels@.len() == n,
                labels_distinct(ev),
                forall|j: int| 0 <= j < n ==> (#[trigger] labels@[j])@ == ev[j].0,
                adj@.len() == i,
                forall|a: int| 0 <= a < i ==> (#[trigger] adj@[a])@.len() == ev[a].1.len(),
                forall|a: int, k: int| 0 <= a < i && 0 <= k < ev[a].1.len() ==> {
                    &&& (#[trigger] adj@[a]@[k]).0 < n
                    &&& labels@[adj@[a]@[k].0 as int]@ == ev[a].1[k].0
                    &&& adj@[a]@[k].1 == ev[a].1[k].1
                },
            decreases n - i,
        {
            let edges = &e[i].1;
            let mut row: Vec<(usize, usize)> = Vec::new();
            let mut k: usize = 0;
            while k < edges.len()
                invariant
                    n == e@.len(),
                    ev == e.deep_view(),
                    i < n,
                    labels@.len() == n,
                    edges.deep_view() == ev[i as int].1,
                    forall|j: int| 0 <= j < n ==> (#[trigger] labels@[j])@ == ev[j].0,
                    k <= edges@.len(),
                    row@.len() == k,
                    forall|k2: int| 0 <= k2 < k ==> {
                        &&& (#[trigger] row@[k2]).0 < n
                        &&& labels@[row@[k2].0 as int]@ == ev[i as int].1[k2].0
                        &&& row@[k2].1 == ev[i as int].1[k2].1
                    },
                decreases edges@.len() - k,
            {
                match find_label(&labels, &edges[k].0) {
                    Some(t) => {
                        row.push((t, edges[k].1));
                    },
                    None => {
                        proof {
                            assert(ev[i as int].1[k as int].0 == edges@[k as int].0@);
                            assert forall|j: int| 0 <= j < ev.len() implies (#[trigger] ev[j]).0 != ev[i as int].1[k as int].0 by {
                                assert(labels@[j]@ == ev[j].0);
                            }
                        }
                        return Err(GraphError::UnknownNeighbour);
                    },
                }
                k = k + 1;
            }
            adj.push(row);
            i = i + 1;
        }
        assert(neighbours_known(ev)) by {
            assert forall|a: int, k: int| 0 <= a < ev.len() && 0 <= k < ev[a].1.len() implies exists|j: int|
                0 <= j < ev.len() && (#[trigger] ev[j]).0 == (#[trigger] ev[a].1[k]).0 by {
                let j = adj@[a]@[k].0 as int;
                assert(ev[j].0 == labels@[j]@);
            }
        }
        i = 0;
        while i < n
            invariant
                n == e@.len(),
                ev == e.deep_view(),
                i <= n,
                labels@.len() == n,
                labels_distinct(ev),
                forall|j: int| 0 <= j < n ==> (#[trigger] labels@[j])@ == ev[j].0,
                adj@.len() == n,
                forall|a: int| 0 <= a < n ==> (#[trigger] adj@[a])@.len() == ev[a].1.len(),
                forall|a: int, k: int| 0 <= a < n && 0 <= k < ev[a].1.len() ==> {
                    &&& (#[trigger] adj@[a]@[k]).0 < n
                    &&& labels@[adj@[a]@[k].0 as int]@ == ev[a].1[k].0
                    &&& adj@[a]@[k].1 == ev[a].1[k].1
                },
                forall|a: int, k1: int, k2: int|
                    0 <= a < i && 0 <= k1 < k2 < adj@[a]@.len() ==> (#[trigger] adj@[a]@[k1]).0
                        != (#[trigger] adj@[a]@[k2]).0,
            decreases n - i,
        {
            let row = &adj[i];
            let mut k1: usize = 0;
            while k1 < row.len()
                invariant
                    i < n,
                    adj@.len() == n,
                    row == adj@[i as int],
                    k1 <= row@.len(),
                    forall|x: int, y: int| 0 <= x < y < k1 ==> (#[trigger] row@[x]).0 != (#[trigger] row@[y]).0,
                decreases row@.len() - k1,
            {
                let mut k2: usize = 0;
                while k2 < k1
                    invariant
                        i < n,
                        adj@.len() == n,
                        row == adj@[i as int],
                        k2 <= k1 < row@.len(),
                        forall|x: int| 0 <= x < k2 ==> (#[trigger] row@[x]).0 != row@[k1 as int].0,
                    decreases k1 - k2,
                {
                    if row[k2].0 == row[k1].0 {
                        proof {
                            assert(ev[i as int].1[k2 as int].0 == ev[i as int].1[k1 as int].0);
                            assert(!edges_distinct(ev));
                        }
                        return Err(GraphError::DuplicateEdge);
                    }
                    k2 = k2 + 1;
                }
                k1 = k1 + 1;
            }
            i = i + 1;
        }
        let g = Graph { labels, adj };
        proof {
            assert forall|a: int, k1: int, k2: int|
                0 <= a < ev.len() && 0 <= k1 < ev[a].1.len() && 0 <= k2 < ev[a].1.len() && k1 != k2
                    implies (#[trigger] ev[a].1[k1]).0 != (#[trigger] ev[a].1[k2]).0 by {
                let (x, y) = if k1 < k2 { (k1, k2) } else { (k2, k1) };
                assert(adj@[a]@[x].0 != adj@[a]@[y].0);
                assert(labels@[adj@[a]@[k1].0 as int]@ == ev[a].1[k1].0);
                assert(labels@[adj@[a]@[k2].0 as int]@ == ev[a].1[k2].0);
            }
            assert forall|a: int, b: int| 0 <= a < b < n implies g.labels@[a]@ != g.labels@[b]@ by {
                assert(ev[a].0 != ev[b].0);
            }
            assert forall|a: int, k1: int, k2: int|
                0 <= a < n && 0 <= k1 < g.adj@[a]@.len() && 0 <= k2 < g.adj@[a]@.len() && k1 != k2
                    implies (#[trigger] g.adj@[a]@[k1]).0 != (#[trigger] g.adj@[a]@[k2]).0 by {
                if k1 < k2 {
                    assert(adj@[a]@[k1].0 != adj@[a]@[k2].0);
                } else {
                    assert(adj@[a]@[k2].0 != adj@[a]@[k1].0);
                }
            }
            assert forall|a: int| 0 <= a < n implies #[trigger] g.entries_view()[a] == ev[a] by {
                assert(g.edges_view(a) =~= ev[a].1);
            }
            assert(g.entries_view() =~= ev);
        }
        Ok(g)
    }

    /// The graph as labelled entries, one per node in position order.
    pub fn entries(&self) -> (r: Vec<Entry>)
        requires
            self.wf(),
        ensures
            r.deep_view() == self.entries_view(),
    {
        let n = self.labels.len();
        let mut r: Vec<Entry> = Vec::new();
        let mut i: usize = 0;
        while i < n
            invariant
                self.wf(),
                n == self.labels@.len(),
                i <= n,
                r@.len() == i,
                forall|a: int| 0 <= a < i ==> (#[trigger] r@[a]).deep_view() == self.entries_view()[a],
            decreases n - i,
        {
            let edges = &self.adj[i];
            let mut row: Vec<(String, usize)> = Vec::new();
            let mut k: usize = 0;
            while k < edges.len()
                invariant
                    self.wf(),
                    n == self.labels@.len(),
                    i < n,
                    edges == self.adj@[i as int],
                    k <= edges@.len(),
                    row@.len() == k,
                    forall|k2: int| 0 <= k2 < k ==> (#[trigger] row@[k2]).deep_view() == self.edges_view(i as int)[k2],
                decreases edges@.len() - k,
            {
                let (t, w) = edges[k];
                row.push((self.labels[t].clone(), w));
                k = k + 1;
            }
            assert(row.deep_view() =~= self.edges_view(i as int));
            r.push((self.labels[i].clone(), row));
            i = i + 1;
        }
        assert(r.deep_view() =~= self.entries_view());
        r
    }

    /// Two well-formed graphs with the same entries have the same labels and
    /// the same edges in the same order.
    pub proof fn lemma_entries_determine(&self, other: &Graph)
        requires
            self.wf(),
            other.wf(),
            self.entries_view() == other.entries_view(),
        ensures
            self.labels@.map_values(|s: String| s@) == other.labels@.map_values(|s: String| s@),
            forall|i: int| 0 <= i < self.num_nodes() ==> (#[trigger] self.adj@[i])@ == other.adj@[i]@,
    {
        let n = self.num_nodes();
        assert(self.entries_view().len() == n);
        assert(other.entries_view().len() == other.num_nodes());
        assert(other.num_nodes() == n);
        assert forall|i: int| 0 <= i < n implies self.labels@[i]@ == other.labels@[i]@ by {
            assert(self.entries_view()[i].0 == other.entries_view()[i].0);
        }
        assert(self.labels@.map_values(|s: String| s@) =~= other.labels@.map_values(|s: String| s@));
        assert forall|i: int| 0 <= i < n implies (#[trigger] self.adj@[i])@ == other.adj@[i]@ by {
            assert(self.entries_view()[i] == other.entries_view()[i]);
            assert(self.entries_view()[i].1 == self.edges_view(i));
            assert(other.entries_view()[i].1 == other.edges_view(i));
            assert(self.edges_view(i).len() == self.adj@[i]@.len());
            assert forall|k: int| 0 <= k < self.adj@[i]@.len() implies self.adj@[i]@[k] == other.adj@[i]@[k] by {
                assert(self.edges_view(i)[k] == other.edges_view(i)[k]);
                let a = self.adj@[i]@[k].0 as int;
                let b = other.adj@[i]@[k].0 as int;
                assert(self.labels@[a]@ == other.labels@[b]@);
                assert(self.labels@[b]@ == other.labels@[b]@);
                if a < b {
                    assert(self.labels@[a]@ != self.labels@[b]@);
                } else if b < a {
                    assert(self.labels@[b]@ != self.labels@[a]@);
                }
            }
            assert(self.adj@[i]@ =~= other.adj@[i]@);
        }
    }

    /// The entries of a well-formed graph are valid: writing a graph out as
    /// entries and building a graph from them again always succeeds.
    pub proof fn lemma_entries_valid(&self)
        requires
            self.wf(),
        ensures
            valid_entries(self.entries_view()),
    {
        let e = self.entries_view();
        assert forall|i: int, k: int| 0 <= i < e.len() && 0 <= k < e[i].1.len() implies exists|j: int|
            0 <= j < e.len() && (#[trigger] e[j]).0 == (#[trigger] e[i].1[k]).0 by {
            let j = self.adj@[i]@[k].0 as int;
            assert(e[j].0 == e[i].1[k].0);
        }
        assert forall|i: int, k1: int, k2: int|
            0 <= i < e.len() && 0 <= k1 < e[i].1.len() && 0 <= k2 < e[i].1.len() && k1 != k2
                implies (#[trigger] e[i].1[k1]).0 != (#[trigger] e[i].1[k2]).0 by {
            let a = self.adj@[i]@[k1].0 as int;
            let b = self.adj@[i]@[k2].0 as int;
            assert(self.adj@[i]@[k1].0 != self.adj@[i]@[k2].0);
            if a < b {
                assert(self.labels@[a]@ != self.labels@[b]@);
            } else {
                assert(self.labels@[b]@ != self.labels@[a]@);
            }
        }
    }

    /// The sample graph: six nodes `A` to `F` at positions 0 to 5, with edges
    /// A-B 3, A-C 5, B-C 2, B-D 6, B-E 4, C-D 1, C-F 8 and D-E 4, each in
    /// both directions.
    pub fn sample() -> (g: Graph)
        ensures
            g.wf(),
            g.num_nodes() == 6,
            g.labels@[0]@ == "A"@,
            g.labels@[1]@ == "B"@,
            g.labels@[2]@ == "C"@,
            g.labels@[3]@ == "D"@,
            g.labels@[4]@ == "E"@,
            g.labels@[5]@ == "F"@,
            g.adj@[0]@ == seq![(1usize, 3usize), (2usize, 5usize)],
            g.adj@[1]@ == seq![(0usize, 3usize), (2usize, 2usize), (3usize, 6usize), (4usize, 4usize)],
            g.adj@[2]@ == seq![(0usize, 5usize), (1usize, 2usize), (3usize, 1usize), (5usize, 8usize)],
            g.adj@[3]@ == seq![(1usize, 6usize), (2usize, 1usize), (4usize, 4usize)],
            g.adj@[4]@ == seq![(1usize, 4usize), (3usize, 4usize)],
            g.adj@[5]@ == seq![(2usize, 8usize)],
    {
        let mut labels: Vec<String> = Vec::new();
        labels.push("A".to_owned());
        labels.push("B".to_owned());
        labels.push("C".to_owned());
        labels.push("D".to_owned());
        labels.push("E".to_owned());
        labels.push("F".to_owned());
        let mut a: Vec<(usize, usize)> = Vec::new();
        a.push((1, 3));
        a.push((2, 5));
        let mut b: Vec<(usize, usize)> = Vec::new();
        b.push((0, 3));
        b.push((2, 2));
        b.push((3, 6));
        b.push((4, 4));
        let mut c: Vec<(usize, usize)> = Vec::new();
        c.push((0, 5));
        c.push((1, 2));
        c.push((3, 1));
        c.push((5, 8));
        let mut d: Vec<(usize, usize)> = Vec::new();
        d.push((1, 6));
        d.push((2, 1));
        d.push((4, 4));
        let mut e: Vec<(usize, usize)> = Vec::new();
        e.push((1, 4));
        e.push((3, 4));
        let mut f: Vec<(usize, usize)> = Vec::new();
        f.push((2, 8));
        let mut adj: Vec<Vec<(usize, usize)>> = Vec::new();
        adj.push(a);
        adj.push(b);
        adj.push(c);
        adj.push(d);
        adj.push(e);
        adj.push(f);
        let g = Graph { labels, adj };
        proof {
            reveal_strlit("A");
            reveal_strlit("B");
            reveal_strlit("C");
            reveal_strlit("D");
            reveal_strlit("E");
            reveal_strlit("F");
            assert forall|i: int, j: int| 0 <= i < j < 6 implies g.labels@[i]@ != g.labels@[j]@ by {
                assert(g.labels@[i]@[0] != g.labels@[j]@[0]);
            }
        }
        g
    }

    /// There is an edge from `u` to `v`.
    pub open spec fn has_edge(&self, u: usize, v: usize) -> bool {
        exists|k: int| 0 <= k < self.adj@[u as int]@.len() && #[trigger] self.adj@[u as int]@[k].0 == v
    }

    /// The weight of the edge from `u` to `v`.
    pub open spec fn weight(&self, u: usize, v: usize) -> int {
        let k = choose|k: int|
            0 <= k < self.adj@[u as int]@.len() && #[trigger] self.adj@[u as int]@[k].0 == v;
        self.adj@[u as int]@[k].1 as int
    }

    /// `p` is a non-empty sequence of nodes, each joined to the next by an edge.
    pub open spec fn is_path(&self, p: Seq<usize>) -> bool {
        &&& p.len() >= 1
        &&& forall|i: int| 0 <= i < p.len() ==> (#[trigger] p[i] as int) < self.num_nodes()
        &&& forall|i: int| 0 <= i < p.len() - 1 ==> #[trigger] self.has_edge(p[i], p[i + 1])
    }

    /// `p` is a path that begins at `s` and ends at `t`.
    pub open spec fn is_path_between(&self, p: Seq<usize>, s: usize, t: usize) -> bool {
        self.is_path(p) && p[0] == s && p.last() == t
    }

    /// The total weight of the edges along `p`.
    pub open spec fn path_cost(&self, p: Seq<usize>) -> int
        decreases p.len(),
    {
        if p.len() <= 1 {
            0
        } else {
            self.path_cost(p.drop_last()) + self.weight(p[p.len() - 2], p.last())
        }
    }

    /// Some path from `s` to `t` has a total weight that fits in a `usize`.
    pub open spec fn reachable(&self, s: usize, t: usize) -> bool {
        exists|p: Seq<usize>| #[trigger] self.is_path_between(p, s, t) && self.path_cost(p) <= usize::MAX
    }

    /// `p` is a path from `s` to `t` whose weight fits in a `usize` and is no
    /// greater than that of any other path from `s` to `t`.
    pub open spec fn is_shortest_path(&self, s: usize, t: usize, p: Seq<usize>) -> bool {
        &&& self.is_path_between(p, s, t)
        &&& self.path_cost(p) <= usize::MAX
        &&& forall|q: Seq<usize>| #[trigger] self.is_path_between(q, s, t) ==> self.path_cost(p) <= self.path_cost(q)
    }

    /// The labels of the nodes along `p`.
    pub open spec fn labels_of(&self, p: Seq<usize>) -> Seq<Seq<char>> {
        p.map_values(|i: usize| self.labels@[i as int]@)
    }

    /// Some node carries the label `l`.
    pub open spec fn has_label(&self, l: Seq<char>) -> bool {
        exists|i: int| 0 <= i < self.labels@.len() && #[trigger] self.labels@[i]@ == l
    }

    pub proof fn lemma_weight(&self, u: usize, k: int)
        requires
            self.wf(),
            0 <= u < self.num_nodes(),
            0 <= k < self.adj@[u as int]@.len(),
        ensures
            self.has_edge(u, self.adj@[u as int]@[k].0),
            self.weight(u, self.adj@[u as int]@[k].0) == self.adj@[u as int]@[k].1 as int,
    {
        let v = self.adj@[u as int]@[k].0;
        assert(0 <= k < self.adj@[u as int]@.len() && self.adj@[u as int]@[k].0 == v);
        let k2 = choose|k2: int|
            0 <= k2 < self.adj@[u as int]@.len() && #[trigger] self.adj@[u as int]@[k2].0 == v;
        assert(k2 == k);
    }

    pub proof fn lemma_cost_nonneg(&self, p: Seq<usize>)
        requires
            self.wf(),
            self.is_path(p),
        ensures
            self.path_cost(p) >= 0,
        decreases p.len(),
    {
        if p.len() > 1 {
            self.lemma_path_drop_last(p);
            self.lemma_cost_nonneg(p.drop_last());
            self.lemma_edge_weight_nonneg(p[p.len() - 2], p.last());
        }
    }

    pub proof fn lemma_edge_weight_nonneg(&self, u: usize, v: usize)
        requires
            self.wf(),
            0 <= u < self.num_nodes(),
            self.has_edge(u, v),
        ensures
            self.weight(u, v) >= 0,
    {
        let k = choose|k: int| 0 <= k < self.adj@[u as int]@.len() && #[trigger] self.adj@[u as int]@[k].0 == v;
        self.lemma_weight(u, k);
    }

    /// Dropping the last node of a path of two or more nodes leaves a path.
    pub proof fn lemma_path_drop_last(&self, p: Seq<usize>)
        requires
            self.is_path(p),
            p.len() >= 2,
        ensures
            self.is_path(p.drop_last()),
            self.has_edge(p[p.len() - 2], p.last()),
            self.path_cost(p) == self.path_cost(p.drop_last()) + self.weight(p[p.len() - 2], p.last()),
    {
        let q = p.drop_last();
        assert forall|i: int| 0 <= i < q.len() - 1 implies #[trigger] self.has_edge(q[i], q[i + 1]) by {
            assert(self.has_edge(p[i], p[i + 1]));
        }
        assert(self.has_edge(p[p.len() - 2], p[p.len() - 2 + 1]));
    }

    /// Extending a path by an edge gives a path, whose cost grows by the edge's weight.
    pub proof fn lemma_path_push(&self, p: Seq<usize>, v: usize)
        requires
            self.is_path(p),
            (v as int) < self.num_nodes(),
            self.has_edge(p.last(), v),
        ensures
            self.is_path(p.push(v)),
            p.push(v)[0] == p[0],
            p.push(v).last() == v,
            self.path_cost(p.push(v)) == self.path_cost(p) + self.weight(p.last(), v),
    {
        let q = p.push(v);
        assert(q.drop_last() =~= p);
        assert forall|i: int| 0 <= i < q.len() - 1 implies #[trigger] self.has_edge(q[i], q[i + 1]) by {
            if i < p.len() - 1 {
                assert(self.has_edge(p[i], p[i + 1]));
            }
        }
    }

    /// Putting a node with an edge to the start of a path in front of it gives
    /// a path, whose cost grows by that edge's weight.
    pub proof fn lemma_path_prepend(&self, x: usize, p: Seq<usize>)
        requires
            self.is_path(p),
            (x as int) < self.num_nodes(),
            self.has_edge(x, p[0]),
        ensures
            self.is_path(seq![x] + p),
            (seq![x] + p).last() == p.last(),
            self.path_cost(seq![x] + p) == self.weight(x, p[0]) + self.path_cost(p),
    {
        let e = seq![x, p[0]];
        assert(self.has_edge(e[0], e[0int + 1]));
        assert(self.is_path(e));
        assert(e.drop_last() =~= seq![x]);
        assert(self.path_cost(seq![x]) == 0);
        assert(e.len() == 2 && e[e.len() - 2] == x && e.last() == p[0]);
        assert(self.path_cost(e) == self.weight(x, p[0]));
        self.lemma_path_concat(e, p);
        assert(e + p.drop_first() =~= seq![x] + p);
    }

    /// Joining a path ending at `y` with a path starting at `y` gives a path
    /// whose cost is the sum of the two.
    pub proof fn lemma_path_concat(&self, p: Seq<usize>, q: Seq<usize>)
        requires
            self.is_path(p),
            self.is_path(q),
            p.last() == q[0],
        ensures
            self.is_path(p + q.drop_first()),
            (p + q.drop_first())[0] == p[0],
            (p + q.drop_first()).last() == q.last(),
            self.path_cost(p + q.drop_first()) == self.path_cost(p) + self.path_cost(q),
        decreases q.len(),
    {
        if q.len() == 1 {
            assert(p + q.drop_first() =~= p);
        } else {
            self.lemma_path_drop_last(q);
            let q1 = q.drop_last();
            self.lemma_path_concat(p, q1);
            let r1 = p + q1.drop_first();
            assert(q1.last() == q[q.len() - 2]);
            self.lemma_path_push(r1, q.last());
            assert(r1.push(q.last()) =~= p + q.drop_first());
        }
    }
}

} // verus!
