use morphing::graph::Edge;
use morphing::overlay::ArcEvent;
use morphing::overlay::Overlay;
use morphing::overlay::KEY_ONE;
use morphing::overlay::KEY_ZERO;

/// Order-preserving encoding of a finite double into a `u64`: flip the sign
/// bit for non-negative values, flip all bits for negative ones.
fn order_key(x: f64) -> u64 {
    let b = x.to_bits();
    if x >= 0.0 {
        b | 0x8000_0000_0000_0000
    } else {
        !b
    }
}

#[test]
fn order_key_matches_designated_images() {
    assert_eq!(order_key(0.0), KEY_ZERO);
    assert_eq!(order_key(-0.0), KEY_ZERO);
    assert_eq!(order_key(1.0), KEY_ONE);
}

#[test]
fn order_key_is_monotone() {
    let samples = [-2.0, -1.0, -0.5, 0.0, 1e-12, 0.25, 0.5, 0.75, 1.0, 1.5, 2.0];
    for w in samples.windows(2) {
        assert!(order_key(w[0]) < order_key(w[1]));
    }
}

#[test]
fn plain_arc_becomes_one_edge() {
    let mut ov = Overlay::new(4);
    let ins = ov.begin_arc(0, 1);
    let chain = ov.finish_arc(ins);
    assert_eq!(chain.len(), 2);
    assert_eq!(chain[0], (KEY_ZERO, 0));
    assert_eq!(chain[1], (KEY_ONE, 1));
    assert_eq!(ov.edges().len(), 1);
    assert!(ov.edges().contains_pair(0, 1));
}

#[test]
fn skipped_arc_adds_nothing() {
    let mut ov = Overlay::new(4);
    ov.add_edge(0, 1);
    let mut ins = ov.begin_arc(0, 1);
    let r = ov.step(&mut ins, Edge::new(0, 1), ArcEvent::S);
    assert!(r.is_none());
    assert!(ins.skipped());
    let chain = ov.finish_arc(ins);
    assert_eq!(chain.len(), 0);
    assert_eq!(ov.edges().len(), 1);
}

#[test]
fn t1_splits_the_inserted_arc() {
    let mut ov = Overlay::new(4);
    ov.add_edge(2, 3);
    let mut ins = ov.begin_arc(0, 1);
    let r = ov.step(&mut ins, Edge::new(2, 3), ArcEvent::T1 { id: 2, k: order_key(0.5) });
    assert!(r.is_none());
    let chain = ov.finish_arc(ins);
    assert_eq!(chain.len(), 3);
    assert_eq!(chain[0], (KEY_ZERO, 0));
    assert_eq!(chain[1], (order_key(0.5), 2));
    assert_eq!(chain[2], (KEY_ONE, 1));
    assert!(ov.edges().contains_pair(0, 2));
    assert!(ov.edges().contains_pair(2, 1));
    assert!(!ov.edges().contains_pair(0, 1));
    assert!(ov.edges().contains_pair(2, 3));
}

#[test]
fn t2_splits_the_existing_edge() {
    let mut ov = Overlay::new(4);
    ov.add_edge(2, 3);
    let mut ins = ov.begin_arc(0, 1);
    let r = ov.step(&mut ins, Edge::new(2, 3), ArcEvent::T2 { id: 0 });
    assert!(r.is_none());
    assert!(!ov.edges().contains_pair(2, 3));
    assert!(ov.edges().contains_pair(0, 2));
    assert!(ov.edges().contains_pair(0, 3));
    let chain = ov.finish_arc(ins);
    assert_eq!(chain.len(), 2);
    assert!(ov.edges().contains_pair(0, 1));
}

#[test]
fn x_allocates_an_intersection_vertex() {
    let mut ov = Overlay::new(4);
    ov.add_edge(2, 3);
    let mut ins = ov.begin_arc(0, 1);
    let r = ov.step(&mut ins, Edge::new(2, 3), ArcEvent::X { k: order_key(0.5) });
    assert_eq!(r, Some(4));
    assert_eq!(ov.vertex_count(), 5);
    assert!(!ov.edges().contains_pair(2, 3));
    assert!(ov.edges().contains_pair(2, 4));
    assert!(ov.edges().contains_pair(3, 4));
    let chain = ov.finish_arc(ins);
    assert_eq!(chain.len(), 3);
    assert!(ov.edges().contains_pair(0, 4));
    assert!(ov.edges().contains_pair(1, 4));
    assert!(!ov.edges().contains_pair(0, 1));
}

#[test]
fn l_identifies_a_shared_endpoint() {
    let mut ov = Overlay::new(4);
    let mut ins = ov.begin_arc(0, 1);
    let r = ov.step(
        &mut ins,
        Edge::new(2, 3),
        ArcEvent::L { id_self: 2, id_other: 0 },
    );
    assert!(r.is_none());
    let chain = ov.finish_arc(ins);
    assert_eq!(chain.len(), 2);
    assert_eq!(chain[0], (KEY_ZERO, 2));
    assert!(ov.edges().contains_pair(1, 2));
    assert!(!ov.edges().contains_pair(0, 1));
}

#[test]
fn coplanar_overlap_clips_and_extends() {
    // The existing edge {2, 3} lies on the same great circle as the arc
    // 0 -> 1: endpoint 2 sticks out before the arc's start (parameter -1),
    // endpoint 3 lies inside it (parameter 0.5).
    let mut ov = Overlay::new(4);
    ov.add_edge(2, 3);
    let mut ins = ov.begin_arc(0, 1);
    let r = ov.step(
        &mut ins,
        Edge::new(2, 3),
        ArcEvent::I { id1: 2, k1: order_key(-1.0), id2: 3, k2: order_key(0.5) },
    );
    assert!(r.is_none());
    assert!(!ov.edges().contains_pair(2, 3));
    // The part sticking out is re-attached to the arc's start vertex.
    assert!(ov.edges().contains_pair(0, 2));
    let chain = ov.finish_arc(ins);
    // The inside endpoint became a split point of the inserted arc.
    assert_eq!(chain.len(), 3);
    assert_eq!(chain[1], (order_key(0.5), 3));
    assert!(ov.edges().contains_pair(0, 3));
    assert!(ov.edges().contains_pair(1, 3));
}

#[test]
fn finish_breaks_key_ties_by_vertex_id() {
    let mut ov = Overlay::new(6);
    let mut ins = ov.begin_arc(0, 1);
    let k = order_key(0.5);
    ov.step(&mut ins, Edge::new(2, 3), ArcEvent::T1 { id: 3, k });
    ov.step(&mut ins, Edge::new(2, 3), ArcEvent::T1 { id: 2, k });
    let chain = ov.finish_arc(ins);
    assert_eq!(chain.len(), 4);
    assert_eq!(chain[1], (k, 2));
    assert_eq!(chain[2], (k, 3));
    assert!(ov.edges().contains_pair(2, 3));
}

#[test]
fn degenerate_arc_adds_no_edge() {
    let mut ov = Overlay::new(2);
    let ins = ov.begin_arc(0, 0);
    let chain = ov.finish_arc(ins);
    assert_eq!(chain.len(), 2);
    assert_eq!(ov.edges().len(), 0);
}

#[test]
fn n_changes_nothing() {
    let mut ov = Overlay::new(4);
    ov.add_edge(2, 3);
    let mut ins = ov.begin_arc(0, 1);
    let r = ov.step(&mut ins, Edge::new(2, 3), ArcEvent::N);
    assert!(r.is_none());
    assert!(!ins.skipped());
    assert_eq!(ov.edges().len(), 1);
    assert_eq!(ov.vertex_count(), 4);
}
