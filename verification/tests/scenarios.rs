//! End-to-end overlay scenarios: the geometry (vectors, arc intersection,
//! angular keys) is computed here in doubles, exactly as the front end does,
//! and its discrete outcomes drive the verified overlay, half-edge graph and
//! face tracer.

use morphing::faces::edges_from_faces;
use morphing::faces::filter_faces;
use morphing::faces::triangulate_unique;
use morphing::graph::Edge;
use morphing::graph::Graph;
use morphing::overlay::ArcEvent;
use morphing::overlay::Overlay;

const EPS: f64 = 1e-9;

#[derive(Clone, Copy, Debug)]
struct V3 {
    x: f64,
    y: f64,
    z: f64,
}

fn v3(x: f64, y: f64, z: f64) -> V3 {
    V3 { x, y, z }
}

fn add(a: V3, b: V3) -> V3 {
    v3(a.x + b.x, a.y + b.y, a.z + b.z)
}

fn sub(a: V3, b: V3) -> V3 {
    v3(a.x - b.x, a.y - b.y, a.z - b.z)
}

fn neg(a: V3) -> V3 {
    v3(-a.x, -a.y, -a.z)
}

fn smul(a: V3, s: f64) -> V3 {
    v3(a.x * s, a.y * s, a.z * s)
}

fn dot(a: V3, b: V3) -> f64 {
    a.x * b.x + a.y * b.y + a.z * b.z
}

fn cross(a: V3, b: V3) -> V3 {
    v3(
        a.y * b.z - a.z * b.y,
        a.z * b.x - a.x * b.z,
        a.x * b.y - a.y * b.x,
    )
}

fn length(a: V3) -> f64 {
    dot(a, a).sqrt()
}

fn unit(a: V3) -> V3 {
    let l = length(a);
    if l.abs() < EPS {
        a
    } else {
        smul(a, 1.0 / l)
    }
}

fn dist2(a: V3, b: V3) -> f64 {
    let d = sub(a, b);
    dot(d, d)
}

fn veq(a: V3, b: V3) -> bool {
    (a.x - b.x).abs() < EPS && (a.y - b.y).abs() < EPS && (a.z - b.z).abs() < EPS
}

fn same_bits(a: V3, b: V3) -> bool {
    a.x == b.x && a.y == b.y && a.z == b.z
}

/// Order-preserving encoding of a finite double into a `u64`.
fn order_key(x: f64) -> u64 {
    let b = x.to_bits();
    if x >= 0.0 {
        b | 0x8000_0000_0000_0000
    } else {
        !b
    }
}

struct Arc3 {
    a: V3,
    b: V3,
    a_id: usize,
    b_id: usize,
}

enum Hit {
    Overlap((usize, f64), (usize, f64)),
    Touch1(usize, f64),
    Touch2(usize, f64),
    Corner(usize, usize),
    Cross(V3, f64),
    Miss,
    Same,
}

fn kind_name(h: &Hit) -> &'static str {
    match h {
        Hit::Overlap(_, _) => "overlap",
        Hit::Touch1(_, _) => "touch1",
        Hit::Touch2(_, _) => "touch2",
        Hit::Corner(_, _) => "corner",
        Hit::Cross(_, _) => "cross",
        Hit::Miss => "miss",
        Hit::Same => "same",
    }
}

fn planar_contains(arc: &Arc3, v: V3) -> bool {
    let ab = cross(arc.a, arc.b);
    let ba = neg(ab);
    dot(cross(arc.a, v), ab) > EPS && dot(cross(arc.b, v), ba) > EPS
}

fn arc_contains(arc: &Arc3, v: V3) -> Option<f64> {
    if dot(v, cross(arc.a, arc.b)).abs() < EPS && planar_contains(arc, v) {
        let a_unit = unit(arc.a);
        let b_unit = unit(arc.b);
        Some(dot(unit(v), a_unit).acos() / dot(b_unit, a_unit).acos())
    } else {
        None
    }
}

/// Great-arc intersection on the sphere: `a` is an existing overlay arc,
/// `b` the arc being inserted. Parameters are along `b`.
fn intersect(a: &Arc3, b: &Arc3) -> Hit {
    let ab = cross(a.a, a.b);
    let ba = neg(ab);
    let cd = cross(b.a, b.b);
    let dc = neg(cd);

    if length(cross(ab, cd)) < EPS {
        // Coplanar arcs on the same great circle (or parallel circles).
        if dot(a.a, cd).abs() > EPS {
            return Hit::Miss;
        }
        let mut res: Vec<(usize, f64)> = Vec::new();
        for (v, id) in [(a.a, a.a_id), (a.b, a.b_id)] {
            if veq(v, b.a) {
                res.push((id, 0.0));
            } else if veq(v, b.b) {
                res.push((id, 1.0));
            } else if let Some(k) = arc_contains(b, v) {
                res.push((id, k));
            } else if dist2(v, b.a) < dist2(v, b.b) {
                res.push((id, -1.0));
            } else {
                res.push((id, 2.0));
            }
        }
        if res[0].1 > res[1].1 {
            res.swap(0, 1);
        }
        if (res[0].1 < 0.0 && res[1].1 < 0.0) || (res[0].1 > 1.0 && res[1].1 > 1.0) {
            return Hit::Miss;
        }
        if (res[0].1 < 0.0 && planar_contains(a, b.a))
            || (res[1].1 > 1.0 && !planar_contains(a, b.b))
        {
            return Hit::Miss;
        }
        if res[0].1 == 0.0 && res[1].1 == 1.0 {
            return Hit::Same;
        }
        if res[0].1 < 0.0 && res[1].1 == 0.0 {
            return Hit::Corner(res[1].0, b.a_id);
        }
        if res[0].1 == 1.0 && res[1].1 > 1.0 {
            return Hit::Corner(res[0].0, b.b_id);
        }
        return Hit::Overlap(res[0], res[1]);
    }

    if veq(a.a, b.a) {
        return Hit::Corner(a.a_id, b.a_id);
    } else if veq(a.a, b.b) {
        return Hit::Corner(a.a_id, b.b_id);
    } else if veq(a.b, b.a) {
        return Hit::Corner(a.b_id, b.a_id);
    } else if veq(a.b, b.b) {
        return Hit::Corner(a.b_id, b.b_id);
    }

    if let Some(k) = arc_contains(b, a.a) {
        return Hit::Touch1(a.a_id, k);
    } else if let Some(k) = arc_contains(b, a.b) {
        return Hit::Touch1(a.b_id, k);
    } else if let Some(k) = arc_contains(a, b.a) {
        return Hit::Touch2(b.a_id, k);
    } else if let Some(k) = arc_contains(a, b.b) {
        return Hit::Touch2(b.b_id, k);
    }

    if dot(b.a, ab) * dot(b.b, ba) > EPS && dot(a.a, cd) * dot(a.b, dc) > EPS {
        let div = dot(sub(a.a, a.b), cd);
        if div.abs() < EPS {
            return Hit::Miss;
        }
        let t = dot(a.a, cd) / div;
        let v_unit = unit(add(a.a, smul(sub(a.b, a.a), t)));
        let c_len = length(b.a);
        let c_unit = smul(b.a, 1.0 / c_len);
        let d_unit = unit(b.b);
        let v = smul(v_unit, c_len);
        if planar_contains(b, v) {
            let k = dot(v_unit, c_unit).acos() / dot(d_unit, c_unit).acos();
            return Hit::Cross(v, k);
        } else {
            return Hit::Miss;
        }
    }

    Hit::Miss
}

fn centroid(verts: &[V3]) -> V3 {
    let mut c = v3(0.0, 0.0, 0.0);
    for v in verts {
        c = add(c, *v);
    }
    smul(c, 1.0 / verts.len() as f64)
}

fn project_to_sphere(verts: &[V3]) -> Vec<V3> {
    let c = centroid(verts);
    verts
        .iter()
        .map(|v| {
            let dir = sub(*v, c);
            smul(dir, 100.0 / length(dir))
        })
        .collect()
}

/// Run the overlay of two meshes: seed with the first mesh's arcs, insert
/// the second's, classifying every intersection here and feeding the
/// discrete events to the verified overlay. Returns the sphere positions,
/// the final overlay and the names of all intersection outcomes seen.
fn run_overlay(
    v1: &[V3],
    f1: &Vec<Vec<usize>>,
    v2: &[V3],
    f2: &Vec<Vec<usize>>,
) -> (Vec<V3>, Overlay, Vec<&'static str>) {
    let s1 = project_to_sphere(v1);
    let s2 = project_to_sphere(v2);
    let n = s1.len();
    let mut positions = s1;
    positions.extend_from_slice(&s2);
    let mut ov = Overlay::new(positions.len());
    let e1 = edges_from_faces(f1);
    for t in 0..e1.len() {
        let e = e1.get(t);
        ov.add_edge(e.from, e.to);
    }
    let e2 = edges_from_faces(f2);
    let mut kinds = Vec::new();
    for t in 0..e2.len() {
        let e = e2.get(t);
        let (p, q) = (e.from + n, e.to + n);
        let arc2 = Arc3 { a: positions[p], b: positions[q], a_id: p, b_id: q };
        let mut ins = ov.begin_arc(p, q);
        let snap: Vec<Edge> = {
            let el = ov.edges();
            (0..el.len()).map(|i| el.get(i)).collect()
        };
        for e1 in snap {
            let arc1 = Arc3 {
                a: positions[e1.from],
                b: positions[e1.to],
                a_id: e1.from,
                b_id: e1.to,
            };
            let hit = intersect(&arc1, &arc2);
            kinds.push(kind_name(&hit));
            let ev = match &hit {
                Hit::Overlap((id1, k1), (id2, k2)) => ArcEvent::I {
                    id1: *id1,
                    k1: order_key(*k1),
                    id2: *id2,
                    k2: order_key(*k2),
                },
                Hit::Touch1(id, k) => ArcEvent::T1 { id: *id, k: order_key(*k) },
                Hit::Touch2(id, _) => ArcEvent::T2 { id: *id },
                Hit::Corner(id_self, id_other) => ArcEvent::L {
                    id_self: *id_self,
                    id_other: *id_other,
                },
                Hit::Cross(_, k) => ArcEvent::X { k: order_key(*k) },
                Hit::Miss => ArcEvent::N,
                Hit::Same => ArcEvent::S,
            };
            let new_id = ov.step(&mut ins, e1, ev);
            if let Some(id) = new_id {
                if let Hit::Cross(v, _) = &hit {
                    assert_eq!(id, positions.len());
                    positions.push(*v);
                }
            }
            if ins.skipped() {
                break;
            }
        }
        ov.finish_arc(ins);
    }
    (positions, ov, kinds)
}

/// Identify coincident sphere vertices, build the half-edge graph, wire the
/// angular order at every vertex and trace the faces. Returns the number of
/// vertices with edges, the undirected edge count and the traced faces.
fn build_faces(positions: &[V3], ov: &Overlay) -> (usize, usize, Vec<Vec<usize>>) {
    let n = positions.len();
    let mut index_map: Vec<usize> = Vec::with_capacity(n);
    for i in 0..n {
        let mut id = i;
        for j in 0..i {
            if same_bits(positions[j], positions[i]) {
                id = j;
                break;
            }
        }
        index_map.push(id);
    }
    let mut g = Graph::new(index_map);
    let el = ov.edges();
    for t in 0..el.len() {
        let e = el.get(t);
        g.add_pair(e.from, e.to);
    }
    let mut vcount = 0;
    for i in 0..n {
        if g.neighbors_count(i) > 0 {
            vcount += 1;
        }
    }
    let ecount = g.edge_count() / 2;
    for i in 0..n {
        let m = g.neighbors_count(i);
        if m == 0 {
            continue;
        }
        let v = positions[i];
        let v_len2 = dot(v, v);
        let adj: Vec<usize> = g.neighbors(i).clone();
        let first_p = positions[g.edge(adj[0]).to];
        let first_dir = unit(sub(first_p, smul(v, dot(v, first_p) / v_len2)));
        let mut keys: Vec<u64> = Vec::new();
        for &eid in adj.iter() {
            let p = positions[g.edge(eid).to];
            let dir = unit(sub(p, smul(v, dot(v, p) / v_len2)));
            let norm = cross(first_dir, dir);
            let cosv = dot(first_dir, dir);
            let mut angle = if (cosv - 1.0).abs() < EPS {
                0.0
            } else if (cosv + 1.0).abs() < EPS {
                std::f64::consts::PI
            } else {
                cosv.acos()
            };
            if dot(v, norm) < -EPS {
                angle = -angle;
            }
            keys.push(order_key(angle));
        }
        g.wire_vertex(i, &keys);
    }
    let traced = g.trace_faces().unwrap();
    let fcs = filter_faces(traced);
    (vcount, ecount, fcs)
}

fn tetra_verts() -> Vec<V3> {
    vec![
        v3(1.0, 1.0, 1.0),
        v3(-1.0, -1.0, 1.0),
        v3(-1.0, 1.0, -1.0),
        v3(1.0, -1.0, -1.0),
    ]
}

fn tetra_faces() -> Vec<Vec<usize>> {
    vec![
        vec![0, 1, 2],
        vec![0, 1, 3],
        vec![0, 2, 3],
        vec![1, 2, 3],
    ]
}

#[test]
fn tetrahedron_against_itself() {
    let verts = tetra_verts();
    let faces = tetra_faces();
    let (positions, ov, kinds) = run_overlay(&verts, &faces, &verts, &faces);
    // No transversal crossings and no arc splitting: only coincidences.
    for k in &kinds {
        assert!(
            *k == "same" || *k == "corner" || *k == "miss",
            "unexpected outcome {}",
            k
        );
    }
    assert_eq!(ov.vertex_count(), 8);
    assert_eq!(positions.len(), 8);
    let el = ov.edges();
    assert_eq!(el.len(), 6);
    for i in 0..el.len() {
        let e = el.get(i);
        assert!(e.from < 4 && e.to < 4);
    }
    let (v, e, fcs) = build_faces(&positions, &ov);
    assert_eq!(v, 4);
    assert_eq!(e, 6);
    assert_eq!(fcs.len(), 4);
    for f in &fcs {
        assert_eq!(f.len(), 3);
    }
    let tris = triangulate_unique(&fcs, positions.len());
    assert_eq!(tris.len(), 4);
}

#[test]
fn tetrahedron_against_rotated_tetrahedron() {
    let verts = tetra_verts();
    let rot: Vec<V3> = verts.iter().map(|v| v3(-v.y, v.x, v.z)).collect();
    let faces = tetra_faces();
    let (positions, ov, kinds) = run_overlay(&verts, &faces, &rot, &faces);
    // The rotated edges cross the originals transversely somewhere.
    assert!(kinds.iter().any(|k| *k == "cross"));
    assert!(ov.vertex_count() > 8);
    let (v, e, fcs) = build_faces(&positions, &ov);
    for f in &fcs {
        assert!(f.len() >= 3);
    }
    // The overlay is a subdivision of the sphere: Euler characteristic 2.
    assert_eq!(v as i64 - e as i64 + fcs.len() as i64, 2);
}

#[test]
fn cube_against_octahedron() {
    let cube_verts = vec![
        v3(-1.0, -1.0, -1.0),
        v3(-1.0, -1.0, 1.0),
        v3(-1.0, 1.0, -1.0),
        v3(-1.0, 1.0, 1.0),
        v3(1.0, -1.0, -1.0),
        v3(1.0, -1.0, 1.0),
        v3(1.0, 1.0, -1.0),
        v3(1.0, 1.0, 1.0),
    ];
    let cube_faces: Vec<Vec<usize>> = vec![
        vec![0, 1, 3],
        vec![0, 3, 2],
        vec![4, 6, 7],
        vec![4, 7, 5],
        vec![0, 4, 5],
        vec![0, 5, 1],
        vec![2, 3, 7],
        vec![2, 7, 6],
        vec![0, 2, 6],
        vec![0, 6, 4],
        vec![1, 5, 7],
        vec![1, 7, 3],
    ];
    let octa_verts = vec![
        v3(1.0, 0.0, 0.0),
        v3(-1.0, 0.0, 0.0),
        v3(0.0, 1.0, 0.0),
        v3(0.0, -1.0, 0.0),
        v3(0.0, 0.0, 1.0),
        v3(0.0, 0.0, -1.0),
    ];
    let octa_faces: Vec<Vec<usize>> = vec![
        vec![0, 2, 4],
        vec![2, 1, 4],
        vec![1, 3, 4],
        vec![3, 0, 4],
        vec![2, 0, 5],
        vec![1, 2, 5],
        vec![3, 1, 5],
        vec![0, 3, 5],
    ];
    let (positions, ov, _kinds) = run_overlay(&cube_verts, &cube_faces, &octa_verts, &octa_faces);
    let (v, e, fcs) = build_faces(&positions, &ov);
    for f in &fcs {
        assert!(f.len() >= 3);
    }
    assert_eq!(v as i64 - e as i64 + fcs.len() as i64, 2);
    // Triangulating leaves only triangles, by construction.
    let tris = triangulate_unique(&fcs, positions.len());
    for t in &tris {
        assert_eq!(t.len(), 3);
    }
}
