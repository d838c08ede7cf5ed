//! Canonical undirected edge sets and the directed half-edge graph used to
//! trace the faces of a spherical overlay.

use vstd::prelude::*;

verus! {

/// An undirected edge between two overlay vertices. Inside an [`EdgeList`]
/// every edge is stored in canonical orientation, `from < to`.
#[derive(Clone, Copy, Debug, PartialEq, Eq, Structural)]
pub struct Edge {
    pub from: usize,
    pub to: usize,
}

impl Edge {
    pub fn new(from: usize, to: usize) -> (e: Edge)
        ensures
            e.from == from,
            e.to == to,
    {
        Edge { from, to }
    }
}

/// Strict lexicographic order on edges by `(from, to)`.
pub open spec fn edge_lt(a: Edge, b: Edge) -> bool {
    a.from < b.from || (a.from == b.from && a.to < b.to)
}

/// The canonical representative of the undirected pair `{from, to}`:
/// endpoints sorted ascending.
pub open spec fn canonical_edge(from: usize, to: usize) -> Edge {
    if from < to {
        Edge { from, to }
    } else {
        Edge { from: to, to: from }
    }
}

/// A set of undirected edges with canonical keys: the pair `(min, max)`
/// stands for the edge, self-loops are rejected, duplicates are rejected.
/// The entries are kept strictly sorted, so iteration order is the
/// lexicographic order of the canonical pairs.
#[derive(Clone, Debug)]
pub struct EdgeList(Vec<Edge>);

impl View for EdgeList {
    type V = Seq<Edge>;

    closed spec fn view(&self) -> Seq<Edge> {
        self.0@
    }
}

/// A sequence of canonical edges is well-formed when it is strictly
/// ascending (hence duplicate-free) and every entry has `from < to`.
pub open spec fn edge_seq_wf(s: Seq<Edge>) -> bool {
    &&& forall|i: int, j: int| 0 <= i < j < s.len() ==> edge_lt(s[i], s[j])
    &&& forall|i: int| 0 <= i < s.len() ==> s[i].from < #[trigger] s[i].to
}

impl EdgeList {
    /// Well-formed: entries strictly ascending (hence duplicate-free) and
    /// each stored with `from < to`.
    pub open spec fn wf(&self) -> bool {
        edge_seq_wf(self@)
    }

    /// The edge set holds the canonical edge `e`.
    pub open spec fn has(&self, e: Edge) -> bool {
        self@.contains(e)
    }

    pub fn new() -> (el: EdgeList)
        ensures
            el.wf(),
            el@.len() == 0,
    {
        EdgeList(Vec::new())
    }

    pub fn len(&self) -> (n: usize)
        ensures
            n == self@.len(),
    {
        self.0.len()
    }

    pub fn get(&self, i: usize) -> (e: Edge)
        requires
            i < self@.len(),
        ensures
            e == self@[i as int],
    {
        self.0[i]
    }

    /// Insert the undirected pair `{from, to}` under its canonical key.
    /// A self-loop or an already-present pair is rejected.
    #[verifier::loop_isolation(false)]
    pub fn add(&mut self, from: usize, to: usize) -> (added: bool)
        requires
            old(self).wf(),
        ensures
            final(self).wf(),
            added == (from != to && !old(self).has(canonical_edge(from, to))),
            !added ==> final(self)@ == old(self)@,
            forall|x: Edge|
                final(self).has(x) <==> (old(self).has(x) || (from != to && x
                    == canonical_edge(from, to))),
            final(self)@.len() == old(self)@.len() + (if added {
                1int
            } else {
                0int
            }),
    {
        if from == to {
            return false;
        }
        let e = if from < to {
            Edge::new(from, to)
        } else {
            Edge::new(to, from)
        };
        assert(e == canonical_edge(from, to));
        let mut i: usize = 0;
        while i < self.0.len() && edge_before(&self.0[i], &e)
            invariant
                self@ == old(self)@,
                i <= self@.len(),
                forall|j: int| 0 <= j < i ==> edge_lt(self@[j], e),
            decreases self@.len() - i,
        {
            i = i + 1;
        }
        if i < self.0.len() && self.0[i].from == e.from && self.0[i].to == e.to {
            proof {
                assert(self@[i as int] == e);
                assert(self.has(e));
            }
            return false;
        }
        proof {
            let s0 = self@;
            assert forall|k: int| 0 <= k < s0.len() implies s0[k] != e by {
                if k < i {
                    assert(edge_lt(s0[k], e));
                } else if k == i {
                } else {
                    assert(edge_lt(s0[i as int], s0[k]));
                }
            }
            assert(!old(self).has(e));
        }
        self.0.insert(i, e);
        proof {
            let s0 = old(self)@;
            let s1 = self@;
            assert forall|x: Edge| s1.contains(x) implies (s0.contains(x) || x == e) by {
                let k = choose|k: int| 0 <= k < s1.len() && s1[k] == x;
                if k < i {
                    assert(s0[k] == x);
                } else if k > i {
                    assert(s0[k - 1] == x);
                }
            }
            assert forall|x: Edge| s0.contains(x) || x == e implies s1.contains(x) by {
                if x == e {
                    assert(s1[i as int] == x);
                } else {
                    let k = choose|k: int| 0 <= k < s0.len() && s0[k] == x;
                    if k < i {
                        assert(s1[k] == x);
                    } else {
                        assert(s1[k + 1] == x);
                    }
                }
            }
            assert forall|p: int, q: int| 0 <= p < q < s1.len() implies edge_lt(s1[p], s1[q]) by {
                if q == i {
                    assert(edge_lt(s1[p], e));
                } else if p == i {
                    assert(s1[q] == s0[q - 1]);
                    if q - 1 == i {
                        assert(!edge_lt(s0[i as int], e));
                        assert(s0[i as int] != e);
                    } else {
                        assert(edge_lt(s0[i as int], s0[q - 1]));
                        assert(!edge_lt(s0[i as int], e));
                        assert(s0[i as int] != e);
                    }
                } else if p < i && q > i {
                    assert(edge_lt(s0[p], e));
                    assert(s1[q] == s0[q - 1]);
                    if q - 1 == i {
                    } else {
                        assert(edge_lt(s0[i as int], s0[q - 1]));
                    }
                    assert(!edge_lt(s0[i as int], e));
                    assert(s0[i as int] != e);
                } else if q < i {
                    assert(edge_lt(s0[p], s0[q]));
                } else {
                    assert(edge_lt(s0[p - 1], s0[q - 1]));
                }
            }
        }
        true
    }

    /// Remove the undirected pair `{from, to}` if present.
    #[verifier::loop_isolation(false)]
    pub fn remove(&mut self, from: usize, to: usize) -> (removed: bool)
        requires
            old(self).wf(),
        ensures
            final(self).wf(),
            removed == old(self).has(canonical_edge(from, to)),
            !removed ==> final(self)@ == old(self)@,
            forall|x: Edge|
                final(self).has(x) <==> (old(self).has(x) && x != canonical_edge(from, to)),
            final(self)@.len() == old(self)@.len() - (if removed {
                1int
            } else {
                0int
            }),
    {
        let e = if from < to {
            Edge::new(from, to)
        } else {
            Edge::new(to, from)
        };
        assert(e == canonical_edge(from, to));
        let mut i: usize = 0;
        while i < self.0.len() && edge_before(&self.0[i], &e)
            invariant
                self@ == old(self)@,
                i <= self@.len(),
                forall|j: int| 0 <= j < i ==> edge_lt(self@[j], e),
            decreases self@.len() - i,
        {
            i = i + 1;
        }
        if i < self.0.len() && self.0[i].from == e.from && self.0[i].to == e.to {
            proof {
                assert(self@[i as int] == e);
            }
            self.0.remove(i);
            proof {
                let s0 = old(self)@;
                let s1 = self@;
                assert forall|x: Edge| s1.contains(x) implies (s0.contains(x) && x != e) by {
                    let k = choose|k: int| 0 <= k < s1.len() && s1[k] == x;
                    if k < i {
                        assert(s0[k] == x);
                        assert(edge_lt(s0[k], e));
                    } else {
                        assert(s0[k + 1] == x);
                        assert(edge_lt(s0[i as int], s0[k + 1]));
                    }
                }
                assert forall|x: Edge| s0.contains(x) && x != e implies s1.contains(x) by {
                    let k = choose|k: int| 0 <= k < s0.len() && s0[k] == x;
                    if k < i {
                        assert(s1[k] == x);
                    } else if k > i {
                        assert(s1[k - 1] == x);
                    }
                }
                assert forall|p: int, q: int| 0 <= p < q < s1.len() implies edge_lt(s1[p], s1[q])
                    by {
                    if q < i {
                        assert(edge_lt(s0[p], s0[q]));
                    } else if p >= i {
                        assert(edge_lt(s0[p + 1], s0[q + 1]));
                    } else {
                        assert(edge_lt(s0[p], s0[q + 1]));
                    }
                }
            }
            return true;
        }
        proof {
            let s0 = self@;
            assert forall|k: int| 0 <= k < s0.len() implies s0[k] != e by {
                if k < i {
                    assert(edge_lt(s0[k], e));
                } else if k == i {
                } else {
                    assert(edge_lt(s0[i as int], s0[k]));
                }
            }
            assert(!old(self).has(e));
            assert forall|x: Edge| self.has(x) implies (old(self).has(x) && x != e) by {}
        }
        false
    }

    /// Membership test for the undirected pair `{from, to}`.
    #[verifier::loop_isolation(false)]
    pub fn contains_pair(&self, from: usize, to: usize) -> (r: bool)
        requires
            self.wf(),
        ensures
            r == self.has(canonical_edge(from, to)),
    {
        let e = if from < to {
            Edge::new(from, to)
        } else {
            Edge::new(to, from)
        };
        assert(e == canonical_edge(from, to));
        let mut i: usize = 0;
        while i < self.0.len()
            invariant
                i <= self@.len(),
                forall|j: int| 0 <= j < i ==> self@[j] != e,
            decreases self@.len() - i,
        {
            if self.0[i].from == e.from && self.0[i].to == e.to {
                proof {
                    assert(self@[i as int] == e);
                    assert(self.has(e));
                }
                return true;
            }
            i = i + 1;
        }
        false
    }
}

/// Exec mirror of [`edge_lt`].
fn edge_before(a: &Edge, b: &Edge) -> (r: bool)
    ensures
        r == edge_lt(*a, *b),
{
    a.from < b.from || (a.from == b.from && a.to < b.to)
}

/// A directed half-edge record. `oppo` and `next` are indices into the
/// graph's edge arena; both start unset. `next` points to the following
/// outgoing edge of the same source vertex in angular order.
#[derive(Clone, Copy, Debug)]
pub struct GraphEdge {
    pub from: usize,
    pub to: usize,
    pub oppo: Option<usize>,
    pub next: Option<usize>,
    pub visited: bool,
}

impl GraphEdge {
    pub fn new(from: usize, to: usize) -> (e: GraphEdge)
        ensures
            e.from == from,
            e.to == to,
            e.oppo is None,
            e.next is None,
            !e.visited,
    {
        GraphEdge { from, to, oppo: None, next: None, visited: false }
    }
}

/// The directed half-edge multigraph of the overlay. Every undirected edge
/// contributes two directed records, cross-linked through `oppo`; directed
/// records live in one arena and each vertex keeps the arena indices of its
/// outgoing records.
pub struct Graph {
    edges: Vec<GraphEdge>,
    adjacent: Vec<Vec<usize>>,
    index_map: Vec<usize>,
    nr_nodes: usize,
    unique_edges: EdgeList,
}

impl Graph {
    /// The arena of directed edge records.
    pub closed spec fn arena(&self) -> Seq<GraphEdge> {
        self.edges@
    }

    /// Arena indices of the outgoing edges of vertex `v`.
    pub closed spec fn adj(&self, v: int) -> Seq<usize> {
        self.adjacent@[v]@
    }

    /// Number of adjacency lists.
    pub closed spec fn adj_count(&self) -> nat {
        self.adjacent@.len()
    }

    /// Number of vertices.
    pub closed spec fn node_count(&self) -> nat {
        self.nr_nodes as nat
    }

    /// The vertex-identification map: vertex `i` stands for vertex
    /// `index_map[i]` (coincident vertices share one representative).
    pub closed spec fn index_map_spec(&self) -> Seq<usize> {
        self.index_map@
    }

    /// The canonical undirected edges added so far.
    pub closed spec fn unique_view(&self) -> Seq<Edge> {
        self.unique_edges@
    }

    /// The canonical pair `e` has been added to the graph.
    pub open spec fn has_pair(&self, e: Edge) -> bool {
        self.unique_view().contains(e)
    }

    /// Record `k` of the arena is sound: endpoints are vertices, its
    /// opposite exists, mirrors its endpoints and points back, and its
    /// `next`, when wired, is outgoing from the same source.
    pub open spec fn edge_ok(&self, k: int) -> bool {
        let a = self.arena();
        let e = a[k];
        &&& e.from < self.node_count()
        &&& e.to < self.node_count()
        &&& e.oppo matches Some(o) && o < a.len() && o != k && a[o as int].from == e.to
            && a[o as int].to == e.from && a[o as int].oppo == Some(k as usize)
        &&& e.next matches Some(nx) ==> nx < a.len() && a[nx as int].from == e.from
    }

    /// The adjacency lists are sound: every listed record is outgoing from
    /// its vertex, no record is listed twice, and every arena record is
    /// listed at its source vertex.
    pub open spec fn adj_ok(&self) -> bool {
        let a = self.arena();
        &&& self.adj_count() == self.node_count()
        &&& forall|v: int, j: int|
            0 <= v < self.node_count() && 0 <= j < self.adj(v).len() ==> (#[trigger] self.adj(
                v,
            )[j]) < a.len() && a[self.adj(v)[j] as int].from == v
        &&& forall|v: int, j1: int, j2: int|
            0 <= v < self.node_count() && 0 <= j1 < j2 < self.adj(v).len() ==> self.adj(v)[j1]
                != self.adj(v)[j2]
        &&& forall|k: int|
            0 <= k < a.len() ==> #[trigger] self.adj(a[k].from as int).contains(k as usize)
    }

    /// Structural invariant of the whole graph.
    pub open spec fn wf(&self) -> bool {
        &&& self.index_map_spec().len() == self.node_count()
        &&& forall|i: int| 0 <= i < self.node_count() ==> #[trigger] self.index_map_spec()[i] <= i
        &&& self.adj_ok()
        &&& forall|k: int| 0 <= k < self.arena().len() ==> #[trigger] self.edge_ok(k)
        &&& edge_seq_wf(self.unique_view())
    }

    /// A graph whose views all coincide with those of a well-formed graph is
    /// itself well-formed.
    proof fn lemma_wf_stable(g1: &Graph, g2: &Graph)
        requires
            g1.wf(),
            g2.arena() == g1.arena(),
            g2.adj_count() == g1.adj_count(),
            forall|v: int| 0 <= v < g2.adj_count() ==> g2.adj(v) == g1.adj(v),
            g2.node_count() == g1.node_count(),
            g2.index_map_spec() == g1.index_map_spec(),
            g2.unique_view() == g1.unique_view(),
        ensures
            g2.wf(),
    {
        assert forall|k: int| 0 <= k < g2.arena().len() implies #[trigger] g2.edge_ok(k) by {
            assert(g1.edge_ok(k));
        }
        assert forall|v: int, j: int|
            0 <= v < g2.node_count() && 0 <= j < g2.adj(v).len() implies (#[trigger] g2.adj(v)[j])
            < g2.arena().len() && g2.arena()[g2.adj(v)[j] as int].from == v by {
            assert(g2.adj(v)[j] == g1.adj(v)[j]);
        }
        assert forall|v: int, j1: int, j2: int|
            0 <= v < g2.node_count() && 0 <= j1 < j2 < g2.adj(v).len() implies g2.adj(v)[j1]
            != g2.adj(v)[j2] by {
            assert(g1.adj(v)[j1] != g1.adj(v)[j2]);
        }
        assert forall|k: int|
            0 <= k < g2.arena().len() implies #[trigger] g2.adj(g2.arena()[k].from as int).contains(
            k as usize,
        ) by {
            assert(g1.edge_ok(k));
            assert(g1.adj(g1.arena()[k].from as int).contains(k as usize));
            assert(g2.adj(g2.arena()[k].from as int) == g1.adj(g1.arena()[k].from as int));
        }
    }

    /// Build an empty graph over `index_map.len()` vertices. The caller
    /// supplies the vertex-identification map: `index_map[i]` is the first
    /// index whose position coincides with vertex `i`'s (positions are
    /// compared by the geometric front end, which owns the coordinates).
    pub fn new(index_map: Vec<usize>) -> (g: Graph)
        requires
            forall|i: int| 0 <= i < index_map@.len() ==> #[trigger] index_map@[i] <= i,
        ensures
            g.wf(),
            g.node_count() == index_map@.len(),
            g.index_map_spec() == index_map@,
            g.arena().len() == 0,
            forall|v: int| 0 <= v < g.node_count() ==> g.adj(v).len() == 0,
            g.unique_view().len() == 0,
    {
        let n = index_map.len();
        let mut adjacent: Vec<Vec<usize>> = Vec::new();
        let mut i: usize = 0;
        while i < n
            invariant
                i <= n,
                adjacent@.len() == i,
                forall|v: int| 0 <= v < i ==> adjacent@[v]@.len() == 0,
            decreases n - i,
        {
            adjacent.push(Vec::new());
            i = i + 1;
        }
        Graph {
            edges: Vec::new(),
            adjacent,
            index_map,
            nr_nodes: n,
            unique_edges: EdgeList::new(),
        }
    }

    /// Add the undirected edge `{from, to}` (after vertex identification):
    /// if its canonical pair is new and no self-loop, two cross-linked
    /// directed records are appended and listed at their source vertices.
    pub fn add_pair(&mut self, from: usize, to: usize)
        requires
            old(self).wf(),
            from < old(self).node_count(),
            to < old(self).node_count(),
        ensures
            final(self).wf(),
            final(self).node_count() == old(self).node_count(),
            final(self).index_map_spec() == old(self).index_map_spec(),
            ({
                let f = old(self).index_map_spec()[from as int];
                let t = old(self).index_map_spec()[to as int];
                let e = canonical_edge(f, t);
                let l = old(self).arena().len();
                if f == t || old(self).has_pair(e) {
                    &&& final(self).arena() == old(self).arena()
                    &&& final(self).unique_view() == old(self).unique_view()
                    &&& forall|v: int|
                        0 <= v < final(self).node_count() ==> final(self).adj(v) == old(self).adj(
                            v,
                        )
                } else {
                    &&& final(self).arena().len() == l + 2
                    &&& final(self).arena() == old(self).arena().push(
                        (GraphEdge {
                            from: f,
                            to: t,
                            oppo: Some((l + 1) as usize),
                            next: None,
                            visited: false,
                        }),
                    ).push(
                        (GraphEdge {
                            from: t,
                            to: f,
                            oppo: Some(l as usize),
                            next: None,
                            visited: false,
                        }),
                    )
                    &&& final(self).adj(f as int) == old(self).adj(f as int).push(l as usize)
                    &&& final(self).adj(t as int) == old(self).adj(t as int).push((l + 1) as usize)
                    &&& forall|v: int|
                        0 <= v < final(self).node_count() && v != f && v != t ==> final(self).adj(v)
                            == old(self).adj(v)
                    &&& forall|x: Edge|
                        final(self).has_pair(x) <==> (old(self).has_pair(x) || x == e)
                }
            }),
    {
        let f = self.index_map[from];
        let t = self.index_map[to];
        if !self.unique_edges.add(f, t) {
            proof {
                Graph::lemma_wf_stable(old(self), self);
            }
            return;
        }
        let id1 = self.edges.len();
        self.edges.push(GraphEdge::new(f, t));
        self.edges.push(GraphEdge::new(t, f));
        let id2 = self.edges.len() - 1;
        assert(id2 == id1 + 1);
        self.edges[id1].oppo = Some(id2);
        self.edges[id2].oppo = Some(id1);
        self.adjacent[f].push(id1);
        self.adjacent[t].push(id2);
        proof {
            let g0 = old(self);
            let a0 = g0.arena();
            let a1 = self.arena();
            let l = a0.len();
            assert(self.adj(f as int) =~= g0.adj(f as int).push(id1));
            assert(self.adj(t as int) =~= g0.adj(t as int).push(id2));
            assert forall|v: int|
                0 <= v < self.node_count() && v != f && v != t implies self.adj(v) == g0.adj(
                v,
            ) by {}
            assert forall|k: int| 0 <= k < a1.len() implies #[trigger] self.edge_ok(k) by {
                if k < l {
                    assert(g0.edge_ok(k));
                    assert(a1[k] == a0[k]);
                    let o = a0[k].oppo->Some_0;
                    assert(a1[o as int] == a0[o as int]);
                } else {
                }
            }
            assert forall|v: int, j: int|
                0 <= v < self.node_count() && 0 <= j < self.adj(v).len() implies (
            #[trigger] self.adj(v)[j]) < a1.len() && a1[self.adj(v)[j] as int].from == v by {
                let is_last = (v == f as int && j == self.adj(v).len() - 1) || (v == t as int && j
                    == self.adj(v).len() - 1);
                if !is_last {
                    assert(self.adj(v)[j] == g0.adj(v)[j]);
                    assert(g0.adj(v)[j] < a0.len() && a0[g0.adj(v)[j] as int].from == v);
                    assert(a1[g0.adj(v)[j] as int] == a0[g0.adj(v)[j] as int]);
                }
            }
            assert forall|v: int, j1: int, j2: int|
                0 <= v < self.node_count() && 0 <= j1 < j2 < self.adj(v).len() implies self.adj(
                v,
            )[j1] != self.adj(v)[j2] by {
                if (v == f as int || v == t as int) && j2 == self.adj(v).len() - 1 {
                    assert(self.adj(v)[j1] == g0.adj(v)[j1]);
                    assert(g0.adj(v)[j1] < a0.len() && a0[g0.adj(v)[j1] as int].from == v);
                } else {
                    assert(self.adj(v)[j1] == g0.adj(v)[j1]);
                    assert(self.adj(v)[j2] == g0.adj(v)[j2]);
                    assert(g0.adj(v)[j1] != g0.adj(v)[j2]);
                }
            }
            assert forall|k: int|
                0 <= k < a1.len() implies #[trigger] self.adj(a1[k].from as int).contains(
                k as usize,
            ) by {
                if k < l {
                    assert(a1[k] == a0[k]);
                    assert(g0.edge_ok(k));
                    let v = a0[k].from as int;
                    assert(g0.adj(v).contains(k as usize));
                    let j = choose|j: int| 0 <= j < g0.adj(v).len() && g0.adj(v)[j] == k as usize;
                    if v == f as int {
                        assert(self.adj(v) == g0.adj(v).push(id1));
                        assert(self.adj(v)[j] == k as usize);
                    } else if v == t as int {
                        assert(self.adj(v) == g0.adj(v).push(id2));
                        assert(self.adj(v)[j] == k as usize);
                    } else {
                        assert(self.adj(v) == g0.adj(v));
                        assert(self.adj(v)[j] == k as usize);
                    }
                } else if k == l {
                    assert(self.adj(f as int)[self.adj(f as int).len() - 1] == k as usize);
                } else {
                    assert(self.adj(t as int)[self.adj(t as int).len() - 1] == k as usize);
                }
            }
            assert forall|x: Edge|
                self.has_pair(x) <==> (g0.has_pair(x) || x == canonical_edge(f, t)) by {
                assert(self.unique_edges.has(x) <==> (g0.unique_edges.has(x) || x
                    == canonical_edge(f, t)));
            }
        }
    }

    /// Number of outgoing directed edges at `index`.
    pub fn neighbors_count(&self, index: usize) -> (n: usize)
        requires
            self.wf(),
            index < self.node_count(),
        ensures
            n == self.adj(index as int).len(),
    {
        self.adjacent[index].len()
    }

    /// The arena indices of the outgoing directed edges at `index`.
    pub fn neighbors(&self, index: usize) -> (r: &Vec<usize>)
        requires
            self.wf(),
            index < self.node_count(),
        ensures
            r@ == self.adj(index as int),
    {
        &self.adjacent[index]
    }

    /// Read the directed edge record `id`.
    pub fn edge(&self, id: usize) -> (e: GraphEdge)
        requires
            id < self.arena().len(),
        ensures
            e == self.arena()[id as int],
    {
        self.edges[id]
    }

    /// Number of directed edge records.
    pub fn edge_count(&self) -> (n: usize)
        ensures
            n == self.arena().len(),
    {
        self.edges.len()
    }

    /// A graph that differs from a well-formed one only in `next` and
    /// `visited` fields stays well-formed, provided every wired `next` is a
    /// same-source arena index.
    proof fn lemma_wf_statics(g1: &Graph, g2: &Graph)
        requires
            g1.wf(),
            g2.arena().len() == g1.arena().len(),
            forall|k: int|
                0 <= k < g2.arena().len() ==> edge_statics_eq(
                    #[trigger] g2.arena()[k],
                    g1.arena()[k],
                ),
            forall|k: int|
                0 <= k < g2.arena().len() ==> ((#[trigger] g2.arena()[k].next) matches Some(nx)
                    ==> nx < g2.arena().len() && g2.arena()[nx as int].from == g2.arena()[k].from),
            g2.adj_count() == g1.adj_count(),
            forall|v: int| 0 <= v < g2.adj_count() ==> g2.adj(v) == g1.adj(v),
            g2.node_count() == g1.node_count(),
            g2.index_map_spec() == g1.index_map_spec(),
            g2.unique_view() == g1.unique_view(),
        ensures
            g2.wf(),
    {
        assert forall|k: int| 0 <= k < g2.arena().len() implies #[trigger] g2.edge_ok(k) by {
            assert(g1.edge_ok(k));
            let o = g1.arena()[k].oppo->Some_0;
            assert(edge_statics_eq(g2.arena()[o as int], g1.arena()[o as int]));
        }
        assert forall|v: int, j: int|
            0 <= v < g2.node_count() && 0 <= j < g2.adj(v).len() implies (#[trigger] g2.adj(v)[j])
            < g2.arena().len() && g2.arena()[g2.adj(v)[j] as int].from == v by {
            assert(g2.adj(v)[j] == g1.adj(v)[j]);
            assert(g1.adj(v)[j] < g1.arena().len() && g1.arena()[g1.adj(v)[j] as int].from == v);
            assert(edge_statics_eq(
                g2.arena()[g1.adj(v)[j] as int],
                g1.arena()[g1.adj(v)[j] as int],
            ));
        }
        assert forall|v: int, j1: int, j2: int|
            0 <= v < g2.node_count() && 0 <= j1 < j2 < g2.adj(v).len() implies g2.adj(v)[j1]
            != g2.adj(v)[j2] by {
            assert(g1.adj(v)[j1] != g1.adj(v)[j2]);
        }
        assert forall|k: int|
            0 <= k < g2.arena().len() implies #[trigger] g2.adj(g2.arena()[k].from as int).contains(
            k as usize,
        ) by {
            assert(g1.edge_ok(k));
            assert(g1.adj(g1.arena()[k].from as int).contains(k as usize));
            assert(g2.adj(g2.arena()[k].from as int) == g1.adj(g1.arena()[k].from as int));
        }
    }

    /// Wire the `next` pointers around vertex `v`: the outgoing edges are
    /// put into ascending key order and each edge's `next` becomes its
    /// cyclic successor in that order. The front end computes `keys[j]` for
    /// the edge `adj(v)[j]` as an order-preserving encoding of the signed
    /// tangent-plane angle, so ascending keys mean counter-clockwise order
    /// seen from outside the sphere. Returns the sorted key/id pairs.
    #[verifier::loop_isolation(false)]
    pub fn wire_vertex(&mut self, v: usize, keys: &Vec<u64>) -> (ord: Vec<(u64, usize)>)
        requires
            old(self).wf(),
            v < old(self).node_count(),
            keys@.len() == old(self).adj(v as int).len(),
        ensures
            final(self).wf(),
            final(self).node_count() == old(self).node_count(),
            final(self).adj_count() == old(self).adj_count(),
            final(self).index_map_spec() == old(self).index_map_spec(),
            final(self).unique_view() == old(self).unique_view(),
            forall|u: int|
                0 <= u < final(self).adj_count() ==> final(self).adj(u) == old(self).adj(u),
            final(self).arena().len() == old(self).arena().len(),
            forall|k: int|
                0 <= k < final(self).arena().len() ==> edge_statics_eq(
                    #[trigger] final(self).arena()[k],
                    old(self).arena()[k],
                ) && final(self).arena()[k].visited == old(self).arena()[k].visited,
            forall|k: int|
                0 <= k < final(self).arena().len() && !ord_has_id(ord@, ord@.len() as int, k as usize)
                    ==> final(self).arena()[k].next == old(self).arena()[k].next,
            ord@.len() == old(self).adj(v as int).len(),
            forall|i: int, j: int| 0 <= i < j < ord@.len() ==> pair_lt(ord@[i], ord@[j]),
            forall|x: (u64, usize)|
                ord@.contains(x) <==> keyed_adj(keys@, old(self).adj(v as int)).contains(x),
            forall|j: int|
                0 <= j < ord@.len() ==> final(self).arena()[ord@[j].1 as int].next == Some(
                    ord@[cyclic_next(j, ord@.len() as int)].1,
                ),
            wired_cycle(final(self).arena(), ord@),
    {
        let m = self.adjacent[v].len();
        let mut pairs: Vec<(u64, usize)> = Vec::new();
        let mut j: usize = 0;
        while j < m
            invariant
                j <= m,
                pairs@.len() == j,
                forall|q: int| 0 <= q < j ==> pairs@[q] == keyed_adj(keys@, self.adj(v as int))[q],
            decreases m - j,
        {
            let id = self.adjacent[v][j];
            pairs.push((keys[j], id));
            j = j + 1;
        }
        proof {
            assert(pairs@ =~= keyed_adj(keys@, self.adj(v as int)));
            assert forall|p: int, q: int| 0 <= p < q < pairs@.len() implies pairs@[p].1
                != pairs@[q].1 by {
                assert(self.adj(v as int)[p] != self.adj(v as int)[q]);
            }
        }
        let ord = sort_keyed(&pairs);
        proof {
            let ka = keyed_adj(keys@, old(self).adj(v as int));
            assert forall|p: int|
                0 <= p < ord@.len() implies (ord@[p].1 < old(self).arena().len() && old(
                    self,
                ).arena()[ord@[p].1 as int].from == v) by {
                assert(ord@.contains(ord@[p]));
                let q = choose|q: int| 0 <= q < ka.len() && ka[q] == ord@[p];
                assert(old(self).adj(v as int)[q] == ord@[p].1);
            }
            assert forall|p: int, q: int| 0 <= p < q < ord@.len() implies ord@[p].1
                != ord@[q].1 by {
                if ord@[p].1 == ord@[q].1 {
                    assert(pair_lt(ord@[p], ord@[q]));
                    assert(ord@.contains(ord@[p]));
                    assert(ord@.contains(ord@[q]));
                    let qp = choose|x: int| 0 <= x < ka.len() && ka[x] == ord@[p];
                    let qq = choose|x: int| 0 <= x < ka.len() && ka[x] == ord@[q];
                    assert(old(self).adj(v as int)[qp] == ord@[p].1);
                    assert(old(self).adj(v as int)[qq] == ord@[q].1);
                    if qp != qq {
                        assert(old(self).adj(v as int)[qp] != old(self).adj(v as int)[qq]);
                    }
                    assert(false);
                }
            }
        }
        let mut j: usize = 0;
        while j < m
            invariant
                j <= m,
                m == ord@.len(),
                self.arena().len() == old(self).arena().len(),
                self.adjacent == old(self).adjacent,
                self.index_map == old(self).index_map,
                self.nr_nodes == old(self).nr_nodes,
                self.unique_edges == old(self).unique_edges,
                forall|k: int|
                    0 <= k < self.arena().len() ==> edge_statics_eq(
                        #[trigger] self.arena()[k],
                        old(self).arena()[k],
                    ) && self.arena()[k].visited == old(self).arena()[k].visited,
                forall|p: int|
                    0 <= p < j ==> self.arena()[ord@[p].1 as int].next == Some(
                        ord@[cyclic_next(p, m as int)].1,
                    ),
                forall|k: int|
                    0 <= k < self.arena().len() && !ord_has_id(ord@, j as int, k as usize)
                        ==> self.arena()[k].next == old(self).arena()[k].next,
            decreases m - j,
        {
            let id = ord[j].1;
            let k = if j == m - 1 {
                0
            } else {
                j + 1
            };
            let nxt = ord[k].1;
            let ghost before = self.arena();
            self.edges[id].next = Some(nxt);
            proof {
                assert(k as int == cyclic_next(j as int, m as int));
                assert forall|p: int|
                    0 <= p < j + 1 implies self.arena()[ord@[p].1 as int].next == Some(
                    ord@[cyclic_next(p, m as int)].1,
                ) by {
                    if p < j {
                        assert(ord@[p].1 != ord@[j as int].1);
                        assert(self.arena()[ord@[p].1 as int] == before[ord@[p].1 as int]);
                    }
                }
                assert forall|k2: int|
                    0 <= k2 < self.arena().len() && !ord_has_id(ord@, j as int + 1, k2 as usize)
                        implies self.arena()[k2].next == old(self).arena()[k2].next by {
                    assert(!ord_has_id(ord@, j as int, k2 as usize));
                    assert(k2 != id as int);
                }
            }
            j = j + 1;
        }
        let total = self.edges.len();
        proof {
            assert(self.arena().len() == total as int);
            assert forall|k: int|
                0 <= k < self.arena().len() implies ((#[trigger] self.arena()[k].next) matches Some(
                nx,
            ) ==> nx < self.arena().len() && self.arena()[nx as int].from
                == self.arena()[k].from) by {
                if ord_has_id(ord@, m as int, k as usize) {
                    let p = choose|p: int| 0 <= p < m && ord@[p].1 == k as usize;
                    assert(self.arena()[ord@[p].1 as int].next == Some(
                        ord@[cyclic_next(p, m as int)].1,
                    ));
                    let pn = cyclic_next(p, m as int);
                    let nx = ord@[pn].1;
                    assert(ord@[pn].1 < old(self).arena().len() && old(self).arena()[ord@[pn].1 as int].from
                        == v);
                    assert(ord@[p].1 < old(self).arena().len() && old(self).arena()[ord@[p].1 as int].from
                        == v);
                    assert(ord@[p].1 as int == k);
                    assert(old(self).arena()[k].from == v);
                    assert(edge_statics_eq(self.arena()[nx as int], old(self).arena()[nx as int]));
                    assert(edge_statics_eq(self.arena()[k], old(self).arena()[k]));
                } else {
                    assert(self.arena()[k].next == old(self).arena()[k].next);
                    assert(old(self).edge_ok(k));
                    if old(self).arena()[k].next is Some {
                        let nx = old(self).arena()[k].next->Some_0;
                        assert(edge_statics_eq(
                            self.arena()[nx as int],
                            old(self).arena()[nx as int],
                        ));
                        assert(edge_statics_eq(self.arena()[k], old(self).arena()[k]));
                    }
                }
            }
            Graph::lemma_wf_statics(old(self), self);
            assert forall|p: int|
                0 <= p < ord@.len() implies (#[trigger] ord@[p]).1 < self.arena().len() by {
                assert(ord@[p].1 < old(self).arena().len() && old(self).arena()[ord@[p].1 as int].from
                    == v);
            }
            assert forall|p: int|
                0 <= p < ord@.len() implies self.arena()[(#[trigger] ord@[p]).1 as int].next
                == Some(ord@[cyclic_next(p, ord@.len() as int)].1) by {}
        }
        ord
    }

    /// A graph that differs from a well-formed one only in `visited` flags
    /// stays well-formed.
    proof fn lemma_wf_visited_only(g1: &Graph, g2: &Graph)
        requires
            g1.wf(),
            g2.arena().len() == g1.arena().len(),
            forall|k: int|
                0 <= k < g2.arena().len() ==> edge_statics_eq(
                    #[trigger] g2.arena()[k],
                    g1.arena()[k],
                ) && g2.arena()[k].next == g1.arena()[k].next,
            g2.adj_count() == g1.adj_count(),
            forall|v: int| 0 <= v < g2.adj_count() ==> g2.adj(v) == g1.adj(v),
            g2.node_count() == g1.node_count(),
            g2.index_map_spec() == g1.index_map_spec(),
            g2.unique_view() == g1.unique_view(),
        ensures
            g2.wf(),
    {
        assert forall|k: int|
            0 <= k < g2.arena().len() implies ((#[trigger] g2.arena()[k].next) matches Some(nx)
            ==> nx < g2.arena().len() && g2.arena()[nx as int].from == g2.arena()[k].from) by {
            assert(g1.edge_ok(k));
            if g1.arena()[k].next is Some {
                let nx = g1.arena()[k].next->Some_0;
                assert(edge_statics_eq(g2.arena()[nx as int], g1.arena()[nx as int]));
            }
        }
        Graph::lemma_wf_statics(g1, g2);
    }

    /// Trace all face cycles. Starting from every not-yet-visited directed
    /// edge, walk `e -> next(opposite(e))` and emit the head vertex of each
    /// edge passed, until a visited edge closes the cycle. Every directed
    /// edge is visited exactly once, so the returned cycle lengths add up to
    /// the number of directed records. Fails when a walk meets an unwired
    /// `next` link.
    #[verifier::loop_isolation(false)]
    pub fn trace_faces(&mut self) -> (r: Result<Vec<Vec<usize>>, TopologyError>)
        requires
            old(self).wf(),
            forall|k: int|
                0 <= k < old(self).arena().len() ==> !(#[trigger] old(self).arena()[k]).visited,
        ensures
            final(self).wf(),
            final(self).node_count() == old(self).node_count(),
            final(self).adj_count() == old(self).adj_count(),
            final(self).index_map_spec() == old(self).index_map_spec(),
            final(self).unique_view() == old(self).unique_view(),
            forall|u: int|
                0 <= u < final(self).adj_count() ==> final(self).adj(u) == old(self).adj(u),
            final(self).arena().len() == old(self).arena().len(),
            forall|k: int|
                0 <= k < final(self).arena().len() ==> edge_statics_eq(
                    #[trigger] final(self).arena()[k],
                    old(self).arena()[k],
                ) && final(self).arena()[k].next == old(self).arena()[k].next,
            all_next_some(old(self).arena()) ==> r is Ok,
            r is Err ==> !all_next_some(old(self).arena()),
            r matches Ok(faces) ==> {
                &&& forall|k: int|
                    0 <= k < final(self).arena().len() ==> (#[trigger] final(self).arena()[k]).visited
                &&& sum_lens(faces@) == final(self).arena().len()
                &&& forall|i: int| 0 <= i < faces@.len() ==> (#[trigger] faces@[i])@.len() >= 1
                &&& forall|i: int, p: int|
                    0 <= i < faces@.len() && 0 <= p < faces@[i]@.len()
                        ==> (#[trigger] faces@[i]@[p]) < final(self).node_count()
                &&& all_next_some(old(self).arena()) ==> forall|i: int|
                    0 <= i < faces@.len() ==> face_is_walk(final(self).arena(), (#[trigger] faces@[i])@)
            },
    {
        let total = self.edges.len();
        proof {
            lemma_count_visited_none(self.arena());
        }
        let mut faces: Vec<Vec<usize>> = Vec::new();
        let mut start: usize = 0;
        while start < total
            invariant
                start <= total,
                self.wf(),
                self.arena().len() == total as int,
                self.adjacent == old(self).adjacent,
                self.index_map == old(self).index_map,
                self.nr_nodes == old(self).nr_nodes,
                self.unique_edges == old(self).unique_edges,
                forall|k: int|
                    0 <= k < total ==> edge_statics_eq(
                        #[trigger] self.arena()[k],
                        old(self).arena()[k],
                    ) && self.arena()[k].next == old(self).arena()[k].next,
                forall|k: int| 0 <= k < start ==> (#[trigger] self.arena()[k]).visited,
                sum_lens(faces@) == count_visited(self.arena()),
                forall|i: int| 0 <= i < faces@.len() ==> (#[trigger] faces@[i])@.len() >= 1,
                forall|i: int, p: int|
                    0 <= i < faces@.len() && 0 <= p < faces@[i]@.len()
                        ==> (#[trigger] faces@[i]@[p]) < self.node_count(),
                all_next_some(old(self).arena()) ==> forall|i: int|
                    0 <= i < faces@.len() ==> face_is_walk(self.arena(), (#[trigger] faces@[i])@),
            decreases total - start,
        {
            if !self.edges[start].visited {
                let mut one_face: Vec<usize> = Vec::new();
                let mut cur = start;
                while !self.edges[cur].visited
                    invariant
                        cur < total,
                        self.wf(),
                        self.arena().len() == total as int,
                        self.adjacent == old(self).adjacent,
                        self.index_map == old(self).index_map,
                        self.nr_nodes == old(self).nr_nodes,
                        self.unique_edges == old(self).unique_edges,
                        forall|k: int|
                            0 <= k < total ==> edge_statics_eq(
                                #[trigger] self.arena()[k],
                                old(self).arena()[k],
                            ) && self.arena()[k].next == old(self).arena()[k].next,
                        forall|k: int| 0 <= k < start ==> (#[trigger] self.arena()[k]).visited,
                        sum_lens(faces@) + one_face@.len() == count_visited(self.arena()),
                        one_face@.len() == 0 ==> cur == start && !self.arena()[start as int].visited,
                        one_face@.len() >= 1 ==> self.arena()[start as int].visited,
                        forall|p: int|
                            0 <= p < one_face@.len() ==> (#[trigger] one_face@[p])
                                < self.node_count(),
                        all_next_some(old(self).arena()) ==> forall|i: int|
                            0 <= i < faces@.len() ==> face_is_walk(
                                self.arena(),
                                (#[trigger] faces@[i])@,
                            ),
                        all_next_some(old(self).arena()) ==> cur == face_iter(
                            self.arena(),
                            start,
                            one_face@.len() as nat,
                        ),
                        all_next_some(old(self).arena()) ==> forall|p: int|
                            0 <= p < one_face@.len() ==> one_face@[p] == self.arena()[
                                #[trigger] face_iter(self.arena(), start, p as nat) as int
                            ].to,
                    decreases total - count_visited(self.arena()),
                {
                    let ghost gbefore = *self;
                    proof {
                        lemma_count_visited_bound(self.arena());
                        assert(self.edge_ok(cur as int));
                        if all_next_some(old(self).arena()) {
                            assert forall|k: int|
                                0 <= k < gbefore.arena().len() implies ((
                            #[trigger] gbefore.arena()[k].oppo) matches Some(o) && o
                                < gbefore.arena().len()) && (gbefore.arena()[k].next matches Some(
                                nx,
                            ) && nx < gbefore.arena().len()) by {
                                assert(gbefore.edge_ok(k));
                                assert(old(self).arena()[k].next is Some);
                            }
                            assert(links_total(gbefore.arena()));
                        }
                    }
                    let ghost len0 = one_face@.len();
                    let to = self.edges[cur].to;
                    one_face.push(to);
                    self.edges[cur].visited = true;
                    proof {
                        let e = self.arena()[cur as int];
                        lemma_count_visited_update(gbefore.arena(), cur as int, e);
                        lemma_count_visited_bound(self.arena());
                        Graph::lemma_wf_visited_only(old(self), self);
                        if all_next_some(old(self).arena()) {
                            assert forall|i: int|
                                0 <= i < faces@.len() implies face_is_walk(
                                self.arena(),
                                (#[trigger] faces@[i])@,
                            ) by {
                                lemma_face_walk_stable(gbefore.arena(), self.arena(), faces@[i]@);
                            }
                            assert forall|p: int|
                                0 <= p <= len0 implies #[trigger] face_iter(
                                self.arena(),
                                start,
                                p as nat,
                            ) == face_iter(gbefore.arena(), start, p as nat) by {
                                lemma_face_iter_stable(
                                    gbefore.arena(),
                                    self.arena(),
                                    start,
                                    p as nat,
                                );
                            }
                            assert forall|p: int|
                                0 <= p < one_face@.len() implies one_face@[p] == self.arena()[
                                #[trigger] face_iter(self.arena(), start, p as nat) as int
                            ].to by {
                                lemma_face_iter_in_bounds(gbefore.arena(), start, p as nat);
                                let q = face_iter(gbefore.arena(), start, p as nat);
                                assert(edge_statics_eq(
                                    self.arena()[q as int],
                                    gbefore.arena()[q as int],
                                ));
                                if p < len0 {
                                    assert(one_face@[p] == gbefore.arena()[q as int].to);
                                } else {
                                    assert(q == cur);
                                    assert(one_face@[p] == to);
                                }
                            }
                        }
                    }
                    let o = match self.edges[cur].oppo {
                        Some(o) => o,
                        None => {
                            proof {
                                assert(self.edge_ok(cur as int));
                            }
                            vstd::pervasive::unreached()
                        },
                    };
                    proof {
                        assert(self.edge_ok(cur as int));
                    }
                    let nxt = match self.edges[o].next {
                        Some(n) => n,
                        None => {
                            proof {
                                assert(old(self).arena()[o as int].next is None);
                            }
                            return Err(TopologyError);
                        },
                    };
                    proof {
                        assert(self.edge_ok(o as int));
                        if all_next_some(old(self).arena()) {
                            assert(nxt == face_step(self.arena(), cur));
                            assert(face_iter(self.arena(), start, one_face@.len() as nat)
                                == face_step(
                                self.arena(),
                                face_iter(self.arena(), start, len0 as nat),
                            ));
                            assert(face_iter(self.arena(), start, len0 as nat) == cur);
                        }
                    }
                    cur = nxt;
                }
                proof {
                    if one_face@.len() == 0 {
                        assert(false);
                    }
                }
                let ghost faces0 = faces@;
                proof {
                    if all_next_some(old(self).arena()) {
                        assert(start < self.arena().len());
                        assert(walk_from(self.arena(), start, one_face@));
                        assert(face_is_walk(self.arena(), one_face@));
                    }
                }
                faces.push(one_face);
                proof {
                    assert(faces@.drop_last() =~= faces0);
                    assert(faces@.last()@ == one_face@);
                    if all_next_some(old(self).arena()) {
                        assert forall|i: int|
                            0 <= i < faces@.len() implies face_is_walk(
                            self.arena(),
                            (#[trigger] faces@[i])@,
                        ) by {
                            if i < faces@.len() - 1 {
                                assert(faces@[i] == faces0[i]);
                            }
                        }
                    }
                }
            }
            start = start + 1;
        }
        proof {
            lemma_count_visited_full(self.arena());
        }
        Ok(faces)
    }
}

/// Every record's `next` link is wired.
pub open spec fn all_next_some(a: Seq<GraphEdge>) -> bool {
    forall|k: int| 0 <= k < a.len() ==> (#[trigger] a[k].next) is Some
}

/// Every record's `oppo` and `next` are wired and in bounds, so face walks
/// never leave the arena.
pub open spec fn links_total(a: Seq<GraphEdge>) -> bool {
    forall|k: int|
        #![trigger a[k].oppo]
        #![trigger a[k].next]
        0 <= k < a.len() ==> (a[k].oppo matches Some(o) && o < a.len()) && (a[k].next matches Some(
            nx,
        ) && nx < a.len())
}

/// The arena index reached from `e` by one face-walk step: the `next` of
/// the opposite record.
pub open spec fn face_step(a: Seq<GraphEdge>, e: usize) -> usize {
    next_of(a, a[e as int].oppo->Some_0)
}

/// The arena index reached from `e` by `p` face-walk steps.
pub open spec fn face_iter(a: Seq<GraphEdge>, e: usize, p: nat) -> usize
    decreases p,
{
    if p == 0 {
        e
    } else {
        face_step(a, face_iter(a, e, (p - 1) as nat))
    }
}

/// `f` lists the head vertices of the records passed when walking
/// `next` of `opposite` from record `e0`.
pub open spec fn walk_from(a: Seq<GraphEdge>, e0: usize, f: Seq<usize>) -> bool {
    forall|p: int|
        0 <= p < f.len() ==> f[p] == a[#[trigger] face_iter(a, e0, p as nat) as int].to
}

/// `f` is the vertex trail of a face walk: the head vertices of the records
/// passed when following `next` of `opposite` from some start record.
pub open spec fn face_is_walk(a: Seq<GraphEdge>, f: Seq<usize>) -> bool {
    exists|e0: usize| e0 < a.len() && #[trigger] walk_from(a, e0, f)
}

proof fn lemma_face_iter_in_bounds(a: Seq<GraphEdge>, e: usize, p: nat)
    requires
        links_total(a),
        e < a.len(),
    ensures
        face_iter(a, e, p) < a.len(),
    decreases p,
{
    if p > 0 {
        lemma_face_iter_in_bounds(a, e, (p - 1) as nat);
        let prev = face_iter(a, e, (p - 1) as nat);
        let o = a[prev as int].oppo->Some_0;
        assert(a[prev as int].oppo is Some && o < a.len());
        assert(a[o as int].next is Some && a[o as int].next->Some_0 < a.len());
    }
}

proof fn lemma_face_iter_stable(a0: Seq<GraphEdge>, a1: Seq<GraphEdge>, e: usize, p: nat)
    requires
        links_total(a0),
        e < a0.len(),
        a1.len() == a0.len(),
        forall|k: int|
            0 <= k < a1.len() ==> edge_statics_eq(#[trigger] a1[k], a0[k]) && a1[k].next
                == a0[k].next,
    ensures
        face_iter(a1, e, p) == face_iter(a0, e, p),
    decreases p,
{
    if p > 0 {
        lemma_face_iter_stable(a0, a1, e, (p - 1) as nat);
        lemma_face_iter_in_bounds(a0, e, (p - 1) as nat);
        let prev = face_iter(a0, e, (p - 1) as nat);
        assert(edge_statics_eq(a1[prev as int], a0[prev as int]));
        let o = a0[prev as int].oppo->Some_0;
        assert(edge_statics_eq(a1[o as int], a0[o as int]));
    }
}

proof fn lemma_face_walk_stable(a0: Seq<GraphEdge>, a1: Seq<GraphEdge>, f: Seq<usize>)
    requires
        links_total(a0),
        a1.len() == a0.len(),
        forall|k: int|
            0 <= k < a1.len() ==> edge_statics_eq(#[trigger] a1[k], a0[k]) && a1[k].next
                == a0[k].next,
        face_is_walk(a0, f),
    ensures
        face_is_walk(a1, f),
{
    let e0 = choose|e0: usize| e0 < a0.len() && #[trigger] walk_from(a0, e0, f);
    assert forall|p: int|
        0 <= p < f.len() implies f[p] == a1[#[trigger] face_iter(a1, e0, p as nat) as int].to by {
        lemma_face_iter_stable(a0, a1, e0, p as nat);
        lemma_face_iter_in_bounds(a0, e0, p as nat);
        let q = face_iter(a0, e0, p as nat);
        assert(edge_statics_eq(a1[q as int], a0[q as int]));
    }
    assert(walk_from(a1, e0, f));
}

/// A missing `next` link met during face tracing: the overlay left the
/// half-edge web incomplete.
#[derive(Clone, Copy, Debug, PartialEq, Eq, Structural)]
pub struct TopologyError;

/// Number of directed records whose `visited` flag is set.
pub open spec fn count_visited(a: Seq<GraphEdge>) -> int
    decreases a.len(),
{
    if a.len() == 0 {
        0
    } else {
        count_visited(a.drop_last()) + (if a.last().visited {
            1int
        } else {
            0int
        })
    }
}

/// Total length of a list of faces.
pub open spec fn sum_lens(faces: Seq<Vec<usize>>) -> int
    decreases faces.len(),
{
    if faces.len() == 0 {
        0
    } else {
        sum_lens(faces.drop_last()) + faces.last()@.len()
    }
}

proof fn lemma_count_visited_bound(a: Seq<GraphEdge>)
    ensures
        0 <= count_visited(a) <= a.len(),
    decreases a.len(),
{
    if a.len() > 0 {
        lemma_count_visited_bound(a.drop_last());
    }
}

proof fn lemma_count_visited_none(a: Seq<GraphEdge>)
    requires
        forall|k: int| 0 <= k < a.len() ==> !(#[trigger] a[k]).visited,
    ensures
        count_visited(a) == 0,
    decreases a.len(),
{
    if a.len() > 0 {
        assert forall|k: int| 0 <= k < a.drop_last().len() implies !(
        #[trigger] a.drop_last()[k]).visited by {
            assert(a.drop_last()[k] == a[k]);
        }
        lemma_count_visited_none(a.drop_last());
    }
}

proof fn lemma_count_visited_full(a: Seq<GraphEdge>)
    requires
        forall|k: int| 0 <= k < a.len() ==> (#[trigger] a[k]).visited,
    ensures
        count_visited(a) == a.len(),
    decreases a.len(),
{
    if a.len() > 0 {
        assert forall|k: int| 0 <= k < a.drop_last().len() implies (
        #[trigger] a.drop_last()[k]).visited by {
            assert(a.drop_last()[k] == a[k]);
        }
        lemma_count_visited_full(a.drop_last());
    }
}

proof fn lemma_count_visited_update(a: Seq<GraphEdge>, k: int, e: GraphEdge)
    requires
        0 <= k < a.len(),
    ensures
        count_visited(a.update(k, e)) == count_visited(a) + (if e.visited {
            1int
        } else {
            0int
        }) - (if a[k].visited {
            1int
        } else {
            0int
        }),
    decreases a.len(),
{
    if k == a.len() - 1 {
        assert(a.update(k, e).drop_last() =~= a.drop_last());
        assert(a.update(k, e).last() == e);
    } else {
        lemma_count_visited_update(a.drop_last(), k, e);
        assert(a.update(k, e).drop_last() =~= a.drop_last().update(k, e));
        assert(a.update(k, e).last() == a.last());
    }
}

/// Some position `p < j` of `ord` carries the arena index `k`.
pub open spec fn ord_has_id(ord: Seq<(u64, usize)>, j: int, k: usize) -> bool {
    exists|p: int| 0 <= p < j && ord[p].1 == k
}

/// The position after `j` in a cyclic list of length `m`.
pub open spec fn cyclic_next(j: int, m: int) -> int {
    if j + 1 == m {
        0
    } else {
        j + 1
    }
}

/// The fields of a directed record that wiring never changes.
pub open spec fn edge_statics_eq(a: GraphEdge, b: GraphEdge) -> bool {
    a.from == b.from && a.to == b.to && a.oppo == b.oppo
}

/// The arena index reached by following `next` once from record `e`.
pub open spec fn next_of(a: Seq<GraphEdge>, e: usize) -> usize {
    a[e as int].next->Some_0
}

/// The arena index reached by following `next` exactly `k` times from `e`.
pub open spec fn next_iter(a: Seq<GraphEdge>, e: usize, k: nat) -> usize
    decreases k,
{
    if k == 0 {
        e
    } else {
        next_of(a, next_iter(a, e, (k - 1) as nat))
    }
}

/// The position `k` steps after `j` in a cyclic list of length `m`.
pub open spec fn cyclic_add(j: int, k: nat, m: int) -> int
    decreases k,
{
    if k == 0 {
        j
    } else {
        cyclic_next(cyclic_add(j, (k - 1) as nat, m), m)
    }
}

/// Number of cyclic steps from position `j` to position `q` in a list of
/// length `m`.
pub open spec fn cyclic_dist(j: int, q: int, m: int) -> nat {
    if q >= j {
        (q - j) as nat
    } else {
        (q - j + m) as nat
    }
}

/// A wired vertex: following `next` from position `p` of the cyclic order
/// `ord` leads to position `p + 1` (wrapping around), as `wire_vertex`
/// ensures.
pub open spec fn wired_cycle(a: Seq<GraphEdge>, ord: Seq<(u64, usize)>) -> bool {
    &&& forall|p: int| 0 <= p < ord.len() ==> (#[trigger] ord[p]).1 < a.len()
    &&& forall|p: int|
        0 <= p < ord.len() ==> a[(#[trigger] ord[p]).1 as int].next == Some(
            ord[cyclic_next(p, ord.len() as int)].1,
        )
}

proof fn lemma_cyclic_add_in_range(j: int, k: nat, m: int)
    requires
        0 <= j < m,
    ensures
        0 <= cyclic_add(j, k, m) < m,
    decreases k,
{
    if k > 0 {
        lemma_cyclic_add_in_range(j, (k - 1) as nat, m);
    }
}

proof fn lemma_cyclic_add_shift(j: int, k: nat, m: int)
    requires
        0 <= j < m,
        k >= 1,
    ensures
        cyclic_add(j, k, m) == cyclic_add(cyclic_next(j, m), (k - 1) as nat, m),
    decreases k,
{
    if k == 1 {
        assert(cyclic_add(j, 1, m) == cyclic_next(cyclic_add(j, 0, m), m));
        assert(cyclic_add(cyclic_next(j, m), 0, m) == cyclic_next(j, m));
    } else {
        lemma_cyclic_add_shift(j, (k - 1) as nat, m);
        assert(cyclic_add(j, k, m) == cyclic_next(cyclic_add(j, (k - 1) as nat, m), m));
        assert(cyclic_add(cyclic_next(j, m), (k - 1) as nat, m) == cyclic_next(
            cyclic_add(cyclic_next(j, m), (k - 2) as nat, m),
            m,
        ));
    }
}

proof fn lemma_cyclic_add_dist(j: int, q: int, m: int)
    requires
        0 <= j < m,
        0 <= q < m,
    ensures
        cyclic_add(j, cyclic_dist(j, q, m), m) == q,
    decreases cyclic_dist(j, q, m),
{
    if j != q {
        let j2 = cyclic_next(j, m);
        assert(cyclic_dist(j2, q, m) == cyclic_dist(j, q, m) - 1);
        lemma_cyclic_add_dist(j2, q, m);
        lemma_cyclic_add_shift(j, cyclic_dist(j, q, m), m);
    }
}

proof fn lemma_next_iter_follows_cycle(a: Seq<GraphEdge>, ord: Seq<(u64, usize)>, j: int, k: nat)
    requires
        wired_cycle(a, ord),
        0 <= j < ord.len(),
    ensures
        next_iter(a, ord[j].1, k) == ord[cyclic_add(j, k, ord.len() as int)].1,
    decreases k,
{
    lemma_cyclic_add_in_range(j, k, ord.len() as int);
    if k > 0 {
        lemma_next_iter_follows_cycle(a, ord, j, (k - 1) as nat);
        lemma_cyclic_add_in_range(j, (k - 1) as nat, ord.len() as int);
        let p = cyclic_add(j, (k - 1) as nat, ord.len() as int);
        assert(a[ord[p].1 as int].next == Some(ord[cyclic_next(p, ord.len() as int)].1));
    }
}

/// At a wired vertex every `next` stays among the vertex's outgoing edges
/// (that is part of the graph's well-formedness), and iterating `next` from
/// any outgoing edge reaches every outgoing edge: within the cyclic order
/// `ord` produced by `wire_vertex`, fewer than `ord.len()` steps lead from
/// any position `j` to any position `q`.
pub proof fn lemma_next_enumerates_vertex(
    a: Seq<GraphEdge>,
    ord: Seq<(u64, usize)>,
    j: int,
    q: int,
)
    requires
        wired_cycle(a, ord),
        0 <= j < ord.len(),
        0 <= q < ord.len(),
    ensures
        exists|k: nat| k < ord.len() && next_iter(a, ord[j].1, k) == ord[q].1,
{
    let m = ord.len() as int;
    let d = cyclic_dist(j, q, m);
    lemma_cyclic_add_dist(j, q, m);
    lemma_next_iter_follows_cycle(a, ord, j, d);
    assert(d < ord.len() && next_iter(a, ord[j].1, d) == ord[q].1);
}

/// Strict order on key/id pairs: by key, ties by id.
pub open spec fn pair_lt(a: (u64, usize), b: (u64, usize)) -> bool {
    a.0 < b.0 || (a.0 == b.0 && a.1 < b.1)
}

/// The outgoing edges of a vertex tagged with their angular keys:
/// `keys[j]` belongs to `adjv[j]`.
pub open spec fn keyed_adj(keys: Seq<u64>, adjv: Seq<usize>) -> Seq<(u64, usize)> {
    Seq::new(adjv.len(), |j: int| (keys[j], adjv[j]))
}

/// Exec mirror of [`pair_lt`].
fn pair_before(a: &(u64, usize), b: &(u64, usize)) -> (r: bool)
    ensures
        r == pair_lt(*a, *b),
{
    a.0 < b.0 || (a.0 == b.0 && a.1 < b.1)
}

/// Sort key/id pairs ascending by [`pair_lt`]; the ids must be pairwise
/// distinct, so the result is strictly ascending.
#[verifier::loop_isolation(false)]
fn sort_keyed(input: &Vec<(u64, usize)>) -> (out: Vec<(u64, usize)>)
    requires
        forall|p: int, q: int| 0 <= p < q < input@.len() ==> input@[p].1 != input@[q].1,
    ensures
        out@.len() == input@.len(),
        forall|i: int, j: int| 0 <= i < j < out@.len() ==> pair_lt(out@[i], out@[j]),
        forall|x: (u64, usize)| out@.contains(x) <==> input@.contains(x),
{
    let mut out: Vec<(u64, usize)> = Vec::new();
    let n = input.len();
    let mut p: usize = 0;
    while p < n
        invariant
            p <= n,
            out@.len() == p,
            forall|i: int, j: int| 0 <= i < j < out@.len() ==> pair_lt(out@[i], out@[j]),
            forall|x: (u64, usize)| out@.contains(x) <==> input@.take(p as int).contains(x),
        decreases n - p,
    {
        let x = input[p];
        proof {
            if out@.contains(x) {
                assert(input@.take(p as int).contains(x));
                let q = choose|q: int| 0 <= q < p && input@.take(p as int)[q] == x;
                assert(input@[q].1 == input@[p as int].1);
                assert(false);
            }
        }
        let mut i: usize = 0;
        while i < out.len() && pair_before(&out[i], &x)
            invariant
                i <= out@.len(),
                forall|j: int| 0 <= j < i ==> pair_lt(out@[j], x),
            decreases out@.len() - i,
        {
            i = i + 1;
        }
        proof {
            if i < out@.len() {
                assert(out@.contains(out@[i as int]));
                assert(out@[i as int] != x);
                assert(pair_lt(x, out@[i as int]));
            }
        }
        let ghost out0 = out@;
        out.insert(i, x);
        proof {
            let s1 = out@;
            assert forall|y: (u64, usize)| s1.contains(y) implies (out0.contains(y) || y == x) by {
                let k = choose|k: int| 0 <= k < s1.len() && s1[k] == y;
                if k < i {
                    assert(out0[k] == y);
                } else if k > i {
                    assert(out0[k - 1] == y);
                }
            }
            assert forall|y: (u64, usize)| out0.contains(y) || y == x implies s1.contains(y) by {
                if y == x {
                    assert(s1[i as int] == y);
                } else {
                    let k = choose|k: int| 0 <= k < out0.len() && out0[k] == y;
                    if k < i {
                        assert(s1[k] == y);
                    } else {
                        assert(s1[k + 1] == y);
                    }
                }
            }
            assert forall|a: int, b: int| 0 <= a < b < s1.len() implies pair_lt(s1[a], s1[b]) by {
                if b == i {
                    assert(pair_lt(s1[a], x));
                } else if a == i {
                    assert(s1[b] == out0[b - 1]);
                    if b - 1 > i {
                        assert(pair_lt(out0[i as int], out0[b - 1]));
                    }
                } else if a < i && b > i {
                    assert(pair_lt(out0[a], x));
                    assert(s1[b] == out0[b - 1]);
                    if b - 1 > i {
                        assert(pair_lt(out0[i as int], out0[b - 1]));
                    }
                } else if b < i {
                    assert(pair_lt(out0[a], out0[b]));
                } else {
                    assert(pair_lt(out0[a - 1], out0[b - 1]));
                }
            }
            assert(input@.take(p + 1) =~= input@.take(p as int).push(x));
            let s2 = input@.take(p as int).push(x);
            assert forall|y: (u64, usize)| s2.contains(y) implies (input@.take(p as int).contains(
                y,
            ) || y == x) by {
                let k = choose|k: int| 0 <= k < s2.len() && s2[k] == y;
                if k < s2.len() - 1 {
                    assert(input@.take(p as int)[k] == y);
                }
            }
            assert forall|y: (u64, usize)|
                input@.take(p as int).contains(y) || y == x implies s2.contains(y) by {
                if y == x {
                    assert(s2[s2.len() - 1] == y);
                } else {
                    let k = choose|k: int|
                        0 <= k < input@.take(p as int).len() && input@.take(p as int)[k] == y;
                    assert(s2[k] == y);
                }
            }
        }
        p = p + 1;
    }
    proof {
        assert(input@.take(n as int) =~= input@);
    }
    out
}

} // verus!
