//! Incremental overlay of two spherical triangulations.
//!
//! The overlay starts from the first mesh's arcs and inserts the second
//! mesh's arcs one by one. Each inserted arc is intersected against a
//! snapshot of the current edge set; the geometric front end classifies
//! every intersection and hands the discrete outcome — vertex ids and
//! encoded arc parameters — to [`Overlay::step`], which updates the edge
//! set and the split points of the arc being inserted. [`Overlay::finish_arc`]
//! then sorts the split points along the arc and links consecutive ones.
//!
//! Arc parameters are IEEE doubles in the front end; here they appear only
//! as `u64` keys under an order-preserving encoding (negative doubles map
//! below positive ones, so comparing keys compares parameters).
//! [`KEY_ZERO`] and [`KEY_ONE`] are the images of the parameters `0.0` and
//! `1.0` under that encoding.

use vstd::prelude::*;

use crate::graph::Edge;
use crate::graph::EdgeList;
use crate::graph::canonical_edge;

verus! {

/// Image of the arc parameter `0.0` under the front end's order-preserving
/// encoding of doubles (the bit pattern with the sign bit flipped).
pub const KEY_ZERO: u64 = 0x8000_0000_0000_0000;

/// Image of the arc parameter `1.0` under the same encoding.
pub const KEY_ONE: u64 = 0xBFF0_0000_0000_0000;

/// The discrete outcome of intersecting an existing overlay arc with the
/// arc being inserted, as classified by the geometric front end. Parameters
/// along the inserted arc come as encoded keys (see [`KEY_ZERO`]).
pub enum ArcEvent {
    /// Coplanar overlap: the existing arc's endpoints with their positions
    /// along the inserted arc. A key below `KEY_ZERO` or above `KEY_ONE`
    /// marks an endpoint beyond the inserted arc.
    I { id1: usize, k1: u64, id2: usize, k2: u64 },
    /// An endpoint of the existing arc lies inside the inserted arc.
    T1 { id: usize, k: u64 },
    /// An endpoint of the inserted arc lies inside the existing arc.
    T2 { id: usize },
    /// An endpoint of the existing arc coincides with an endpoint of the
    /// inserted arc: the existing arc's endpoint id, then the inserted
    /// arc's.
    L { id_self: usize, id_other: usize },
    /// Transversal crossing at an interior point with parameter `k`; the
    /// overlay allocates a fresh vertex id for it.
    X { k: u64 },
    /// No intersection.
    N,
    /// The two arcs coincide: the inserted arc is already present.
    S,
}

/// Every vertex id named by an event is a known overlay vertex.
pub open spec fn event_ids_ok(ev: ArcEvent, nr: nat) -> bool {
    match ev {
        ArcEvent::I { id1, k1, id2, k2 } => id1 < nr && id2 < nr,
        ArcEvent::T1 { id, k } => id < nr,
        ArcEvent::T2 { id } => id < nr,
        ArcEvent::L { id_self, id_other } => id_self < nr && id_other < nr,
        ArcEvent::X { k } => true,
        ArcEvent::N => true,
        ArcEvent::S => true,
    }
}

/// The growing overlay: the number of sphere vertices seen so far (the
/// front end keeps their coordinates in a parallel list) and the current
/// undirected edge set over their ids.
pub struct Overlay {
    nr_verts: usize,
    edges: EdgeList,
}

/// The state of one arc insertion: the arc's endpoint ids, the split
/// points `(key, id)` collected so far along the arc, and whether the arc
/// turned out to be present already.
pub struct ArcInsertion {
    from: usize,
    to: usize,
    ints: Vec<(u64, usize)>,
    skip: bool,
}

impl ArcInsertion {
    /// Id of the arc's start vertex (parameter `0`).
    pub closed spec fn from_spec(&self) -> usize {
        self.from
    }

    /// Id of the arc's end vertex (parameter `1`).
    pub closed spec fn to_spec(&self) -> usize {
        self.to
    }

    /// The split points collected so far: `(key, id)` pairs along the arc.
    pub closed spec fn ints_spec(&self) -> Seq<(u64, usize)> {
        self.ints@
    }

    /// The arc coincides with an existing one and must not be added.
    pub closed spec fn skip_spec(&self) -> bool {
        self.skip
    }

    /// All recorded ids are known overlay vertices, and the list still
    /// holds at least the two entries it started with.
    pub open spec fn wf(&self, nr: nat) -> bool {
        &&& self.ints_spec().len() >= 2
        &&& forall|i: int| 0 <= i < self.ints_spec().len() ==> (#[trigger] self.ints_spec()[i]).1 < nr
        &&& self.from_spec() < nr
        &&& self.to_spec() < nr
    }

    /// Whether this arc was found to coincide with an existing edge.
    pub fn skipped(&self) -> (r: bool)
        ensures
            r == self.skip_spec(),
    {
        self.skip
    }
}

impl Overlay {
    /// Number of overlay vertices.
    pub closed spec fn vert_count(&self) -> nat {
        self.nr_verts as nat
    }

    /// The current undirected edges.
    pub closed spec fn edges_view(&self) -> Seq<Edge> {
        self.edges@
    }

    /// The canonical pair `e` is currently an overlay edge.
    pub open spec fn has(&self, e: Edge) -> bool {
        self.edges_view().contains(e)
    }

    /// Well-formed: the edge set is canonical and every endpoint is a known
    /// vertex.
    pub open spec fn wf(&self) -> bool {
        &&& crate::graph::edge_seq_wf(self.edges_view())
        &&& forall|i: int|
            0 <= i < self.edges_view().len() ==> (#[trigger] self.edges_view()[i]).from
                < self.vert_count() && self.edges_view()[i].to < self.vert_count()
    }

    /// An empty overlay over `nr_verts` sphere vertices (both meshes'
    /// projected vertices, the second mesh's ids offset by the first's
    /// count).
    pub fn new(nr_verts: usize) -> (ov: Overlay)
        ensures
            ov.wf(),
            ov.vert_count() == nr_verts,
            ov.edges_view().len() == 0,
    {
        Overlay { nr_verts, edges: EdgeList::new() }
    }

    /// Number of overlay vertices so far.
    pub fn vertex_count(&self) -> (n: usize)
        ensures
            n == self.vert_count(),
    {
        self.nr_verts
    }

    /// The current edge set (cloned by the front end to form the snapshot
    /// that one arc insertion iterates over).
    pub fn edges(&self) -> (r: &EdgeList)
        ensures
            r@ == self.edges_view(),
    {
        &self.edges
    }

    /// Add the undirected edge `{from, to}`; self-loops and duplicates are
    /// rejected. Seeds the overlay with the first mesh's arcs.
    pub fn add_edge(&mut self, from: usize, to: usize) -> (added: bool)
        requires
            old(self).wf(),
            from < old(self).vert_count(),
            to < old(self).vert_count(),
        ensures
            final(self).wf(),
            final(self).vert_count() == old(self).vert_count(),
            added == (from != to && !old(self).has(canonical_edge(from, to))),
            forall|x: Edge|
                final(self).has(x) <==> (old(self).has(x) || (from != to && x
                    == canonical_edge(from, to))),
    {
        let added = self.edges.add(from, to);
        proof {
            assert forall|x: Edge|
                self.has(x) <==> (old(self).has(x) || (from != to && x == canonical_edge(
                    from,
                    to,
                ))) by {
                assert(self.edges.has(x) <==> (old(self).edges.has(x) || (from != to && x
                    == canonical_edge(from, to))));
            }
            self.lemma_bounds_after_add(old(self), from, to);
        }
        added
    }

    /// After an `EdgeList` insertion of a pair of known vertices, every
    /// endpoint in the set is still a known vertex.
    proof fn lemma_bounds_after_add(&self, prev: &Overlay, from: usize, to: usize)
        requires
            prev.wf(),
            from < prev.vert_count(),
            to < prev.vert_count(),
            self.vert_count() >= prev.vert_count(),
            forall|x: Edge|
                self.has(x) <==> (prev.has(x) || (from != to && x == canonical_edge(from, to))),
        ensures
            forall|i: int|
                0 <= i < self.edges_view().len() ==> (#[trigger] self.edges_view()[i]).from
                    < self.vert_count() && self.edges_view()[i].to < self.vert_count(),
    {
        assert forall|i: int|
            0 <= i < self.edges_view().len() implies (#[trigger] self.edges_view()[i]).from
            < self.vert_count() && self.edges_view()[i].to < self.vert_count() by {
            let e = self.edges_view()[i];
            assert(self.has(e));
            if prev.has(e) {
                let j = choose|j: int| 0 <= j < prev.edges_view().len() && prev.edges_view()[j] == e;
                assert(prev.edges_view()[j].from < prev.vert_count());
            }
        }
    }

    /// When every current edge is an old edge or one of two added pairs of
    /// known vertices, every endpoint in the set is a known vertex.
    proof fn lemma_bounds_from_char(
        &self,
        prev: &Overlay,
        a1: usize,
        b1: usize,
        a2: usize,
        b2: usize,
    )
        requires
            prev.wf(),
            self.vert_count() >= prev.vert_count(),
            a1 < self.vert_count(),
            b1 < self.vert_count(),
            a2 < self.vert_count(),
            b2 < self.vert_count(),
            forall|e: Edge|
                self.has(e) ==> (prev.has(e) || e == canonical_edge(a1, b1) || e == canonical_edge(
                    a2,
                    b2,
                )),
        ensures
            forall|i: int|
                0 <= i < self.edges_view().len() ==> (#[trigger] self.edges_view()[i]).from
                    < self.vert_count() && self.edges_view()[i].to < self.vert_count(),
    {
        assert forall|i: int|
            0 <= i < self.edges_view().len() implies (#[trigger] self.edges_view()[i]).from
            < self.vert_count() && self.edges_view()[i].to < self.vert_count() by {
            let e = self.edges_view()[i];
            assert(self.has(e));
            if prev.has(e) {
                let j = choose|j: int| 0 <= j < prev.edges_view().len() && prev.edges_view()[j] == e;
                assert(prev.edges_view()[j].from < prev.vert_count());
            }
        }
    }

    /// Start inserting the arc from vertex `from` to vertex `to`: its own
    /// endpoints are the first two split points, at parameters `0` and `1`.
    pub fn begin_arc(&self, from: usize, to: usize) -> (ins: ArcInsertion)
        requires
            from < self.vert_count(),
            to < self.vert_count(),
        ensures
            ins.wf(self.vert_count()),
            ins.from_spec() == from,
            ins.to_spec() == to,
            ins.ints_spec() == seq![(KEY_ZERO, from), (KEY_ONE, to)],
            !ins.skip_spec(),
    {
        let mut ints: Vec<(u64, usize)> = Vec::new();
        ints.push((KEY_ZERO, from));
        ints.push((KEY_ONE, to));
        proof {
            assert(ints@ =~= seq![(KEY_ZERO, from), (KEY_ONE, to)]);
        }
        ArcInsertion { from, to, ints, skip: false }
    }

    /// Apply one classified intersection to the overlay. `e1` is the
    /// existing edge whose arc was intersected with the arc being inserted
    /// (an earlier event of the same insertion may have removed it already;
    /// its removal is then a no-op). A transversal crossing allocates a
    /// fresh vertex id, which is returned so the front end can append the
    /// crossing's coordinates to its vertex list.
    pub fn step(&mut self, ins: &mut ArcInsertion, e1: Edge, ev: ArcEvent) -> (new_id: Option<
        usize,
    >)
        requires
            old(self).wf(),
            old(ins).wf(old(self).vert_count()),
            e1.from < old(self).vert_count(),
            e1.to < old(self).vert_count(),
            event_ids_ok(ev, old(self).vert_count()),
            old(self).vert_count() < usize::MAX,
        ensures
            final(self).wf(),
            final(ins).wf(final(self).vert_count()),
            final(ins).from_spec() == old(ins).from_spec(),
            final(ins).to_spec() == old(ins).to_spec(),
            ({
                let removed = canonical_edge(e1.from, e1.to);
                match ev {
                    ArcEvent::I { id1, k1, id2, k2 } => {
                        let i0 = old(ins).ints_spec()[0].1;
                        let i1 = old(ins).ints_spec()[1].1;
                        let mid = if k1 > KEY_ZERO {
                            old(ins).ints_spec().push((k1, id1))
                        } else {
                            old(ins).ints_spec()
                        };
                        &&& final(self).vert_count() == old(self).vert_count()
                        &&& final(ins).skip_spec() == old(ins).skip_spec()
                        &&& new_id is None
                        &&& final(ins).ints_spec() == (if k2 < KEY_ONE {
                            mid.push((k2, id2))
                        } else {
                            mid
                        })
                        &&& forall|e: Edge|
                            final(self).has(e) <==> ((old(self).has(e) && e != removed) || (k1
                                < KEY_ZERO && id1 != i0 && e == canonical_edge(id1, i0)) || (k2
                                > KEY_ONE && id2 != i1 && e == canonical_edge(id2, i1)))
                    },
                    ArcEvent::T1 { id, k } => {
                        &&& final(self).vert_count() == old(self).vert_count()
                        &&& final(self).edges_view() == old(self).edges_view()
                        &&& final(ins).ints_spec() == old(ins).ints_spec().push((k, id))
                        &&& final(ins).skip_spec() == old(ins).skip_spec()
                        &&& new_id is None
                    },
                    ArcEvent::T2 { id } => {
                        &&& final(self).vert_count() == old(self).vert_count()
                        &&& final(ins).ints_spec() == old(ins).ints_spec()
                        &&& final(ins).skip_spec() == old(ins).skip_spec()
                        &&& new_id is None
                        &&& forall|e: Edge|
                            final(self).has(e) <==> ((old(self).has(e) && e != removed) || (e1.from
                                != id && e == canonical_edge(e1.from, id)) || (e1.to != id && e
                                == canonical_edge(e1.to, id)))
                    },
                    ArcEvent::L { id_self, id_other } => {
                        &&& final(self).vert_count() == old(self).vert_count()
                        &&& final(self).edges_view() == old(self).edges_view()
                        &&& final(ins).skip_spec() == old(ins).skip_spec()
                        &&& new_id is None
                        &&& final(ins).ints_spec() == (if id_other == old(ins).from_spec() {
                            old(ins).ints_spec().update(
                                0,
                                ((old(ins).ints_spec()[0].0, id_self)),
                            )
                        } else if id_other == old(ins).to_spec() {
                            old(ins).ints_spec().update(
                                1,
                                ((old(ins).ints_spec()[1].0, id_self)),
                            )
                        } else {
                            old(ins).ints_spec()
                        })
                    },
                    ArcEvent::X { k } => {
                        let g = old(self).vert_count() as usize;
                        &&& final(self).vert_count() == old(self).vert_count() + 1
                        &&& final(ins).ints_spec() == old(ins).ints_spec().push((k, g))
                        &&& final(ins).skip_spec() == old(ins).skip_spec()
                        &&& new_id == Some(g)
                        &&& forall|e: Edge|
                            final(self).has(e) <==> ((old(self).has(e) && e != removed) || (e1.from
                                != g && e == canonical_edge(e1.from, g)) || (e1.to != g && e
                                == canonical_edge(e1.to, g)))
                    },
                    ArcEvent::N => {
                        &&& final(self).vert_count() == old(self).vert_count()
                        &&& final(self).edges_view() == old(self).edges_view()
                        &&& final(ins).ints_spec() == old(ins).ints_spec()
                        &&& final(ins).skip_spec() == old(ins).skip_spec()
                        &&& new_id is None
                    },
                    ArcEvent::S => {
                        &&& final(self).vert_count() == old(self).vert_count()
                        &&& final(self).edges_view() == old(self).edges_view()
                        &&& final(ins).ints_spec() == old(ins).ints_spec()
                        &&& final(ins).skip_spec()
                        &&& new_id is None
                    },
                }
            }),
    {
        match ev {
            ArcEvent::T1 { id, k } => {
                ins.ints.push((k, id));
                None
            },
            ArcEvent::T2 { id } => {
                self.edges.remove(e1.from, e1.to);
                let ghost el_rm = self.edges;
                self.edges.add(e1.from, id);
                let ghost el_a1 = self.edges;
                self.edges.add(e1.to, id);
                proof {
                    let removed = canonical_edge(e1.from, e1.to);
                    assert forall|e: Edge|
                        self.has(e) <==> ((old(self).has(e) && e != removed) || (e1.from != id && e
                            == canonical_edge(e1.from, id)) || (e1.to != id && e == canonical_edge(
                            e1.to,
                            id,
                        ))) by {
                        assert(self.edges.has(e) <==> (el_a1.has(e) || (e1.to != id && e
                            == canonical_edge(e1.to, id))));
                        assert(el_a1.has(e) <==> (el_rm.has(e) || (e1.from != id && e
                            == canonical_edge(e1.from, id))));
                        assert(el_rm.has(e) <==> (old(self).edges.has(e) && e != removed));
                    }
                    self.lemma_bounds_from_char(old(self), e1.from, id, e1.to, id);
                }
                None
            },
            ArcEvent::X { k } => {
                let g = self.nr_verts;
                self.nr_verts = self.nr_verts + 1;
                self.edges.remove(e1.from, e1.to);
                let ghost el_rm = self.edges;
                self.edges.add(e1.from, g);
                let ghost el_a1 = self.edges;
                self.edges.add(e1.to, g);
                ins.ints.push((k, g));
                proof {
                    let removed = canonical_edge(e1.from, e1.to);
                    assert forall|e: Edge|
                        self.has(e) <==> ((old(self).has(e) && e != removed) || (e1.from != g && e
                            == canonical_edge(e1.from, g)) || (e1.to != g && e == canonical_edge(
                            e1.to,
                            g,
                        ))) by {
                        assert(self.edges.has(e) <==> (el_a1.has(e) || (e1.to != g && e
                            == canonical_edge(e1.to, g))));
                        assert(el_a1.has(e) <==> (el_rm.has(e) || (e1.from != g && e
                            == canonical_edge(e1.from, g))));
                        assert(el_rm.has(e) <==> (old(self).edges.has(e) && e != removed));
                    }
                    self.lemma_bounds_from_char(old(self), e1.from, g, e1.to, g);
                }
                Some(g)
            },
            ArcEvent::L { id_self, id_other } => {
                if id_other == ins.from {
                    ins.ints[0].1 = id_self;
                } else if id_other == ins.to {
                    ins.ints[1].1 = id_self;
                }
                None
            },
            ArcEvent::I { id1, k1, id2, k2 } => {
                self.edges.remove(e1.from, e1.to);
                let ghost el_rm = self.edges;
                if k1 > KEY_ZERO {
                    ins.ints.push((k1, id1));
                } else if k1 < KEY_ZERO {
                    let i0 = ins.ints[0].1;
                    self.edges.add(id1, i0);
                }
                let ghost el_k1 = self.edges;
                if k2 < KEY_ONE {
                    ins.ints.push((k2, id2));
                } else if k2 > KEY_ONE {
                    let i1 = ins.ints[1].1;
                    self.edges.add(id2, i1);
                }
                proof {
                    let removed = canonical_edge(e1.from, e1.to);
                    let i0 = old(ins).ints_spec()[0].1;
                    let i1 = old(ins).ints_spec()[1].1;
                    assert forall|e: Edge|
                        self.has(e) <==> ((old(self).has(e) && e != removed) || (k1 < KEY_ZERO
                            && id1 != i0 && e == canonical_edge(id1, i0)) || (k2 > KEY_ONE && id2
                            != i1 && e == canonical_edge(id2, i1))) by {
                        assert(el_rm.has(e) <==> (old(self).edges.has(e) && e != removed));
                        if k1 < KEY_ZERO {
                            assert(el_k1.has(e) <==> (el_rm.has(e) || (id1 != i0 && e
                                == canonical_edge(id1, i0))));
                        } else {
                            assert(el_k1 == el_rm);
                        }
                        if k2 > KEY_ONE {
                            assert(self.edges.has(e) <==> (el_k1.has(e) || (id2 != i1 && e
                                == canonical_edge(id2, i1))));
                        } else {
                            assert(self.edges == el_k1);
                        }
                    }
                    self.lemma_bounds_from_char(old(self), id1, i0, id2, i1);
                }
                None
            },
            ArcEvent::N => None,
            ArcEvent::S => {
                ins.skip = true;
                None
            },
        }
    }

    /// Close one arc insertion: unless the arc was found to be already
    /// present, sort its split points along the arc and add an edge between
    /// each pair of consecutive split points. Returns the sorted split
    /// points.
    #[verifier::loop_isolation(false)]
    pub fn finish_arc(&mut self, ins: ArcInsertion) -> (chain: Vec<(u64, usize)>)
        requires
            old(self).wf(),
            ins.wf(old(self).vert_count()),
        ensures
            final(self).wf(),
            final(self).vert_count() == old(self).vert_count(),
            ins.skip_spec() ==> final(self).edges_view() == old(self).edges_view() && chain@.len()
                == 0,
            !ins.skip_spec() ==> {
                &&& chain@.to_multiset() == ins.ints_spec().to_multiset()
                &&& chain@.len() == ins.ints_spec().len()
                &&& pairs_sorted(chain@)
                &&& forall|e: Edge|
                    final(self).has(e) <==> (old(self).has(e) || chain_link(chain@, e))
            },
    {
        if ins.skipped() {
            return Vec::new();
        }
        let chain = sort_pairs(&ins.ints);
        proof {
            chain@.to_multiset_ensures();
            ins.ints_spec().to_multiset_ensures();
            assert forall|i: int|
                0 <= i < chain@.len() implies (#[trigger] chain@[i]).1 < old(
                self,
            ).vert_count() by {
                assert(chain@.contains(chain@[i]));
                assert(chain@.to_multiset().count(chain@[i]) > 0);
                assert(ins.ints_spec().contains(chain@[i]));
                let j = choose|j: int|
                    0 <= j < ins.ints_spec().len() && ins.ints_spec()[j] == chain@[i];
                assert(ins.ints_spec()[j].1 < old(self).vert_count());
            }
        }
        let m = chain.len();
        let mut i: usize = 0;
        while i + 1 < m
            invariant
                i + 1 <= m,
                self.wf(),
                self.vert_count() == old(self).vert_count(),
                forall|e: Edge|
                    self.has(e) <==> (old(self).has(e) || chain_link_upto(chain@, i as int, e)),
            decreases m - i,
        {
            let a = chain[i].1;
            let b = chain[i + 1].1;
            let ghost before = *self;
            self.edges.add(a, b);
            proof {
                assert forall|e: Edge|
                    self.has(e) <==> (old(self).has(e) || chain_link_upto(
                        chain@,
                        i as int + 1,
                        e,
                    )) by {
                    assert(before.has(e) <==> (old(self).has(e) || chain_link_upto(
                        chain@,
                        i as int,
                        e,
                    )));
                    assert(self.edges.has(e) <==> (before.edges.has(e) || (a != b && e
                        == canonical_edge(a, b))));
                    if chain_link_upto(chain@, i as int, e) {
                        let w = choose|w: int|
                            0 <= w < i && (#[trigger] chain@[w]).1 != chain@[w + 1].1 && e
                                == canonical_edge(chain@[w].1, chain@[w + 1].1);
                        assert(chain_link_upto(chain@, i as int + 1, e));
                    }
                    if a != b && e == canonical_edge(a, b) {
                        assert(chain@[i as int].1 != chain@[i as int + 1].1 && e == canonical_edge(
                            chain@[i as int].1,
                            chain@[i as int + 1].1,
                        ));
                        assert(chain_link_upto(chain@, i as int + 1, e));
                    }
                    if chain_link_upto(chain@, i as int + 1, e) && !chain_link_upto(
                        chain@,
                        i as int,
                        e,
                    ) {
                        let w = choose|w: int|
                            0 <= w < i + 1 && (#[trigger] chain@[w]).1 != chain@[w + 1].1 && e
                                == canonical_edge(chain@[w].1, chain@[w + 1].1);
                        assert(w == i as int);
                    }
                }
                self.lemma_bounds_from_char(&before, a, b, a, b);
            }
            i = i + 1;
        }
        proof {
            assert forall|e: Edge|
                self.has(e) <==> (old(self).has(e) || chain_link(chain@, e)) by {
                if m >= 2 {
                    assert(i as int == m - 1);
                } else {
                    assert(false);
                }
            }
        }
        chain
    }
}

/// Non-strict order on key/id pairs: by key, ties by id.
pub open spec fn pair_le(a: (u64, usize), b: (u64, usize)) -> bool {
    a.0 < b.0 || (a.0 == b.0 && a.1 <= b.1)
}

/// `s` is ascending under [`pair_le`].
pub open spec fn pairs_sorted(s: Seq<(u64, usize)>) -> bool {
    forall|i: int, j: int| 0 <= i < j < s.len() ==> pair_le(s[i], s[j])
}

/// Among the first `w` consecutive pairs of `chain`, some pair of distinct
/// ids has `e` as its canonical edge.
pub open spec fn chain_link_upto(chain: Seq<(u64, usize)>, w: int, e: Edge) -> bool {
    exists|i: int|
        0 <= i < w && (#[trigger] chain[i]).1 != chain[i + 1].1 && e == canonical_edge(
            chain[i].1,
            chain[i + 1].1,
        )
}

/// Some consecutive pair of distinct ids in `chain` has `e` as its
/// canonical edge.
pub open spec fn chain_link(chain: Seq<(u64, usize)>, e: Edge) -> bool {
    chain_link_upto(chain, chain.len() - 1, e)
}

/// Exec mirror of [`pair_le`].
fn pair_le_exec(a: &(u64, usize), b: &(u64, usize)) -> (r: bool)
    ensures
        r == pair_le(*a, *b),
{
    a.0 < b.0 || (a.0 == b.0 && a.1 <= b.1)
}

/// Sort split points ascending by [`pair_le`], keeping multiplicity.
#[verifier::loop_isolation(false)]
fn sort_pairs(input: &Vec<(u64, usize)>) -> (out: Vec<(u64, usize)>)
    ensures
        out@.len() == input@.len(),
        pairs_sorted(out@),
        out@.to_multiset() == input@.to_multiset(),
{
    let mut out: Vec<(u64, usize)> = Vec::new();
    let n = input.len();
    proof {
        assert(out@ =~= input@.take(0));
    }
    let mut p: usize = 0;
    while p < n
        invariant
            p <= n,
            out@.len() == p,
            pairs_sorted(out@),
            out@.to_multiset() == input@.take(p as int).to_multiset(),
        decreases n - p,
    {
        let x = input[p];
        let mut i: usize = 0;
        while i < out.len() && pair_le_exec(&out[i], &x)
            invariant
                i <= out@.len(),
                forall|j: int| 0 <= j < i ==> pair_le(out@[j], x),
            decreases out@.len() - i,
        {
            i = i + 1;
        }
        let ghost out0 = out@;
        out.insert(i, x);
        proof {
            broadcast use vstd::multiset::group_multiset_axioms;

            assert forall|a: int, b: int| 0 <= a < b < out@.len() implies pair_le(
                out@[a],
                out@[b],
            ) by {
                if b == i {
                    assert(pair_le(out0[a], x));
                } else if a == i {
                    assert(out@[b] == out0[b - 1]);
                    assert(!pair_le(out0[i as int], x));
                    assert(pair_le(x, out0[i as int]));
                    if b - 1 > i {
                        assert(pair_le(out0[i as int], out0[b - 1]));
                    }
                } else if a < i && b > i {
                    assert(out@[b] == out0[b - 1]);
                    if b - 1 == i {
                        assert(pair_le(out0[a], out0[i as int]));
                    } else {
                        assert(pair_le(out0[a], out0[b - 1]));
                    }
                } else if b < i {
                    assert(pair_le(out0[a], out0[b]));
                } else {
                    assert(pair_le(out0[a - 1], out0[b - 1]));
                }
            }
            let front = out0.subrange(0, i as int);
            let back = out0.subrange(i as int, out0.len() as int);
            assert(out@ =~= front.push(x) + back);
            assert(out0 =~= front + back);
            vstd::seq_lib::lemma_multiset_commutative(front.push(x), back);
            vstd::seq_lib::lemma_multiset_commutative(front, back);
            front.to_multiset_ensures();
            assert(out@.to_multiset() =~= out0.to_multiset().insert(x));
            assert(input@.take(p + 1) =~= input@.take(p as int).push(x));
            input@.take(p as int).to_multiset_ensures();
            assert(input@.take(p + 1).to_multiset() =~= input@.take(p as int).to_multiset().insert(
                x,
            ));
        }
        p = p + 1;
    }
    proof {
        assert(input@.take(n as int) =~= input@);
    }
    out
}

} // verus!
