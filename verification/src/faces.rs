//! Face post-processing: the edge set induced by a mesh's triangles,
//! filtering of traced cycles, fan triangulation with deduplication, and
//! the degenerate faces used to visualize edges.

use vstd::prelude::*;

use crate::graph::Edge;
use crate::graph::EdgeList;
use crate::graph::canonical_edge;

verus! {

/// A polygonal face: a cyclic sequence of vertex indices.
pub type Face = Vec<usize>;

/// The `j`-th boundary side of triangle `f` (corners `j` and `j + 1`,
/// wrapping), as a canonical edge.
pub open spec fn tri_side(f: Seq<usize>, j: int) -> Edge {
    canonical_edge(
        f[j],
        f[
            if j == 2 {
                0
            } else {
                j + 1
            }
        ],
    )
}

/// The `j`-th side of triangle `f` joins two distinct corners.
pub open spec fn tri_side_proper(f: Seq<usize>, j: int) -> bool {
    f[j] != f[
        if j == 2 {
            0
        } else {
            j + 1
        }
    ]
}

/// Among the first `w` faces, some proper triangle side has `e` as its
/// canonical edge.
pub open spec fn face_boundary_edge(faces: Seq<Face>, w: int, e: Edge) -> bool {
    exists|i: int, j: int|
        0 <= i < w && 0 <= j < 3 && #[trigger] tri_side_proper(faces[i]@, j) && e == tri_side(
            faces[i]@,
            j,
        )
}

/// The canonical undirected edge set induced by the boundaries of a list of
/// triangles.
#[verifier::loop_isolation(false)]
pub fn edges_from_faces(faces: &Vec<Face>) -> (el: EdgeList)
    requires
        forall|i: int| 0 <= i < faces@.len() ==> (#[trigger] faces@[i])@.len() == 3,
    ensures
        el.wf(),
        forall|e: Edge| el.has(e) <==> face_boundary_edge(faces@, faces@.len() as int, e),
{
    let mut el = EdgeList::new();
    let n = faces.len();
    let mut i: usize = 0;
    while i < n
        invariant
            i <= n,
            el.wf(),
            forall|e: Edge| el.has(e) <==> face_boundary_edge(faces@, i as int, e),
        decreases n - i,
    {
        let f = &faces[i];
        let ghost el0 = el;
        el.add(f[0], f[1]);
        let ghost el1 = el;
        el.add(f[1], f[2]);
        let ghost el2 = el;
        el.add(f[2], f[0]);
        proof {
            let fv = faces@[i as int]@;
            assert forall|e: Edge|
                el.has(e) <==> face_boundary_edge(faces@, i as int + 1, e) by {
                assert(el0.has(e) <==> face_boundary_edge(faces@, i as int, e));
                assert(el1.has(e) <==> (el0.has(e) || (fv[0] != fv[1] && e == canonical_edge(
                    fv[0],
                    fv[1],
                ))));
                assert(el2.has(e) <==> (el1.has(e) || (fv[1] != fv[2] && e == canonical_edge(
                    fv[1],
                    fv[2],
                ))));
                assert(el.has(e) <==> (el2.has(e) || (fv[2] != fv[0] && e == canonical_edge(
                    fv[2],
                    fv[0],
                ))));
                if face_boundary_edge(faces@, i as int, e) {
                    let (w, j) = choose|w: int, j: int|
                        0 <= w < i && 0 <= j < 3 && #[trigger] tri_side_proper(faces@[w]@, j) && e
                            == tri_side(faces@[w]@, j);
                    assert(face_boundary_edge(faces@, i as int + 1, e));
                }
                if fv[0] != fv[1] && e == canonical_edge(fv[0], fv[1]) {
                    assert(tri_side_proper(fv, 0) && e == tri_side(fv, 0));
                    assert(face_boundary_edge(faces@, i as int + 1, e));
                }
                if fv[1] != fv[2] && e == canonical_edge(fv[1], fv[2]) {
                    assert(tri_side_proper(fv, 1) && e == tri_side(fv, 1));
                    assert(face_boundary_edge(faces@, i as int + 1, e));
                }
                if fv[2] != fv[0] && e == canonical_edge(fv[2], fv[0]) {
                    assert(tri_side_proper(fv, 2) && e == tri_side(fv, 2));
                    assert(face_boundary_edge(faces@, i as int + 1, e));
                }
                if face_boundary_edge(faces@, i as int + 1, e) && !face_boundary_edge(
                    faces@,
                    i as int,
                    e,
                ) {
                    let (w, j) = choose|w: int, j: int|
                        0 <= w < i + 1 && 0 <= j < 3 && #[trigger] tri_side_proper(faces@[w]@, j)
                            && e == tri_side(faces@[w]@, j);
                    assert(w == i as int);
                }
            }
        }
        i = i + 1;
    }
    el
}

/// The underlying index sequences of a list of faces.
pub open spec fn views_of(faces: Seq<Face>) -> Seq<Seq<usize>> {
    faces.map_values(|f: Face| f@)
}

/// Keep the traced cycles that are real faces: length at least three
/// (shorter cycles arise from isolated or doubled arcs and carry no area).
#[verifier::loop_isolation(false)]
pub fn filter_faces(faces: Vec<Face>) -> (r: Vec<Face>)
    ensures
        views_of(r@) == views_of(faces@).filter(|s: Seq<usize>| s.len() >= 3),
        forall|i: int| 0 <= i < r@.len() ==> (#[trigger] r@[i])@.len() >= 3,
{
    let ghost pred = |s: Seq<usize>| s.len() >= 3;
    let mut r: Vec<Face> = Vec::new();
    let n = faces.len();
    proof {
        reveal(Seq::filter);
        assert(views_of(r@) =~= views_of(faces@.take(0)).filter(pred));
    }
    let mut i: usize = 0;
    while i < n
        invariant
            i <= n,
            views_of(r@) == views_of(faces@.take(i as int)).filter(pred),
            forall|p: int| 0 <= p < r@.len() ==> (#[trigger] r@[p])@.len() >= 3,
        decreases n - i,
    {
        let keep = faces[i].len() >= 3;
        proof {
            reveal(Seq::filter);
            assert(views_of(faces@.take(i as int + 1)).drop_last() =~= views_of(
                faces@.take(i as int),
            ));
            assert(views_of(faces@.take(i as int + 1)).last() == faces@[i as int]@);
        }
        if keep {
            let f = faces[i].clone();
            proof {
                assert(f@ == faces@[i as int]@);
            }
            r.push(f);
            proof {
                assert(views_of(r@) =~= views_of(faces@.take(i as int)).filter(pred).push(
                    faces@[i as int]@,
                ));
            }
        }
        i = i + 1;
    }
    proof {
        assert(faces@.take(n as int) =~= faces@);
    }
    r
}

/// The three corner indices in ascending order.
pub open spec fn tri_key(a: usize, b: usize, c: usize) -> (usize, usize, usize) {
    if a <= b && a <= c {
        (
            a,
            if b <= c {
                b
            } else {
                c
            },
            if b <= c {
                c
            } else {
                b
            },
        )
    } else if b <= a && b <= c {
        (
            b,
            if a <= c {
                a
            } else {
                c
            },
            if a <= c {
                c
            } else {
                a
            },
        )
    } else {
        (
            c,
            if a <= b {
                a
            } else {
                b
            },
            if a <= b {
                b
            } else {
                a
            },
        )
    }
}

/// Three pairwise distinct corner indices.
pub open spec fn distinct3(a: usize, b: usize, c: usize) -> bool {
    a != b && b != c && a != c
}

/// `t` is the sorted key of a non-degenerate fan triangle of one of the
/// faces, where the first `fi` faces contribute all their fan triangles and
/// face `fi` contributes those fanned before corner `fj`.
pub open spec fn fan_triple_before(
    faces: Seq<Face>,
    fi: int,
    fj: int,
    t: (usize, usize, usize),
) -> bool {
    exists|i: int, j: int|
        0 <= i < faces.len() && 1 <= j && j + 1 < faces[i]@.len() && (i < fi || (i == fi && j < fj))
            && #[trigger] distinct3(faces[i]@[0], faces[i]@[j], faces[i]@[j + 1]) && t == tri_key(
            faces[i]@[0],
            faces[i]@[j],
            faces[i]@[j + 1],
        )
}

/// `t` is the sorted key of a non-degenerate fan triangle of one of the
/// first `w` faces, each face fanned from its first corner.
pub open spec fn fan_triple(faces: Seq<Face>, w: int, t: (usize, usize, usize)) -> bool {
    exists|i: int, j: int|
        0 <= i < w && 1 <= j && j + 1 < faces[i]@.len() && #[trigger] distinct3(
            faces[i]@[0],
            faces[i]@[j],
            faces[i]@[j + 1],
        ) && t == tri_key(faces[i]@[0], faces[i]@[j], faces[i]@[j + 1])
}

/// The sorted corner triple `t` appears in the triangle list.
pub open spec fn tris_has(tris: Seq<Face>, t: (usize, usize, usize)) -> bool {
    exists|i: int| 0 <= i < tris.len() && (#[trigger] tris[i])@ == seq![t.0, t.1, t.2]
}

/// Exec mirror of [`tri_key`].
fn sort3(a: usize, b: usize, c: usize) -> (r: (usize, usize, usize))
    ensures
        r == tri_key(a, b, c),
{
    if a <= b && a <= c {
        (
            a,
            if b <= c {
                b
            } else {
                c
            },
            if b <= c {
                c
            } else {
                b
            },
        )
    } else if b <= a && b <= c {
        (
            b,
            if a <= c {
                a
            } else {
                c
            },
            if a <= c {
                c
            } else {
                a
            },
        )
    } else {
        (
            c,
            if a <= b {
                a
            } else {
                b
            },
            if a <= b {
                b
            } else {
                a
            },
        )
    }
}

/// Whether the sorted triple `t` is already listed.
#[verifier::loop_isolation(false)]
fn has_triple(tris: &Vec<Face>, t: (usize, usize, usize)) -> (r: bool)
    requires
        forall|i: int| 0 <= i < tris@.len() ==> (#[trigger] tris@[i])@.len() == 3,
    ensures
        r == tris_has(tris@, t),
{
    let n = tris.len();
    let mut i: usize = 0;
    while i < n
        invariant
            i <= n,
            forall|p: int| 0 <= p < i ==> (#[trigger] tris@[p])@ != seq![t.0, t.1, t.2],
        decreases n - i,
    {
        let f = &tris[i];
        if f[0] == t.0 && f[1] == t.1 && f[2] == t.2 {
            proof {
                assert(tris@[i as int]@ =~= seq![t.0, t.1, t.2]);
            }
            return true;
        }
        proof {
            if tris@[i as int]@ == seq![t.0, t.1, t.2] {
                assert(tris@[i as int]@[0] == t.0);
                assert(tris@[i as int]@[1] == t.1);
                assert(tris@[i as int]@[2] == t.2);
                assert(false);
            }
        }
        i = i + 1;
    }
    false
}

/// Triangulate the traced faces: fan each face from its first corner, drop
/// degenerate triangles (two equal corners), and deduplicate by the sorted
/// corner key. The front end, which owns the coordinates, orients each
/// triangle afterwards. `n` is the vertex count.
#[verifier::loop_isolation(false)]
pub fn triangulate_unique(faces: &Vec<Face>, n: usize) -> (tris: Vec<Face>)
    requires
        forall|i: int| 0 <= i < faces@.len() ==> (#[trigger] faces@[i])@.len() >= 3,
        forall|i: int, p: int|
            0 <= i < faces@.len() && 0 <= p < faces@[i]@.len() ==> (#[trigger] faces@[i]@[p]) < n,
    ensures
        forall|i: int| 0 <= i < tris@.len() ==> (#[trigger] tris@[i])@.len() == 3,
        forall|i: int|
            0 <= i < tris@.len() ==> (#[trigger] tris@[i])@[0] < tris@[i]@[1] < tris@[i]@[2] < n,
        forall|i: int, j: int|
            0 <= i < j < tris@.len() ==> (#[trigger] tris@[i])@ != (#[trigger] tris@[j])@,
        forall|t: (usize, usize, usize)|
            tris_has(tris@, t) <==> fan_triple(faces@, faces@.len() as int, t),
{
    let mut tris: Vec<Face> = Vec::new();
    let nf = faces.len();
    let mut fi: usize = 0;
    while fi < nf
        invariant
            fi <= nf,
            forall|i: int| 0 <= i < tris@.len() ==> (#[trigger] tris@[i])@.len() == 3,
            forall|i: int|
                0 <= i < tris@.len() ==> (#[trigger] tris@[i])@[0] < tris@[i]@[1] < tris@[i]@[2]
                    < n,
            forall|i: int, j: int|
                0 <= i < j < tris@.len() ==> (#[trigger] tris@[i])@ != (#[trigger] tris@[j])@,
            forall|t: (usize, usize, usize)|
                tris_has(tris@, t) <==> fan_triple_before(faces@, fi as int, 1, t),
        decreases nf - fi,
    {
        let f = &faces[fi];
        let m = f.len();
        let mut j: usize = 1;
        while j + 1 < m
            invariant
                1 <= j,
                j + 1 <= m,
                m == faces@[fi as int]@.len(),
                fi < nf,
                forall|i: int| 0 <= i < tris@.len() ==> (#[trigger] tris@[i])@.len() == 3,
                forall|i: int|
                    0 <= i < tris@.len() ==> (#[trigger] tris@[i])@[0] < tris@[i]@[1]
                        < tris@[i]@[2] < n,
                forall|i: int, j2: int|
                    0 <= i < j2 < tris@.len() ==> (#[trigger] tris@[i])@ != (#[trigger] tris@[j2])@,
                forall|t: (usize, usize, usize)|
                    tris_has(tris@, t) <==> fan_triple_before(faces@, fi as int, j as int, t),
            decreases m - j,
        {
            let a = f[0];
            let b = f[j];
            let c = f[j + 1];
            let ghost fv = faces@[fi as int]@;
            if a != b && b != c && a != c {
                let key = sort3(a, b, c);
                let ghost tris0 = tris@;
                if !has_triple(&tris, key) {
                    let mut tv: Face = Vec::new();
                    tv.push(key.0);
                    tv.push(key.1);
                    tv.push(key.2);
                    proof {
                        assert(tv@ =~= seq![key.0, key.1, key.2]);
                    }
                    tris.push(tv);
                    proof {
                        assert forall|t: (usize, usize, usize)|
                            tris_has(tris@, t) <==> (tris_has(tris0, t) || t == key) by {
                            if tris_has(tris@, t) {
                                let w = choose|w: int|
                                    0 <= w < tris@.len() && (#[trigger] tris@[w])@ == seq![
                                        t.0,
                                        t.1,
                                        t.2,
                                    ];
                                if w < tris0.len() {
                                    assert(tris0[w]@ == seq![t.0, t.1, t.2]);
                                } else {
                                    assert(tris@[w]@ =~= seq![key.0, key.1, key.2]);
                                    assert(t.0 == key.0 && t.1 == key.1 && t.2 == key.2);
                                }
                            }
                            if tris_has(tris0, t) {
                                let w = choose|w: int|
                                    0 <= w < tris0.len() && (#[trigger] tris0[w])@ == seq![
                                        t.0,
                                        t.1,
                                        t.2,
                                    ];
                                assert(tris@[w]@ == seq![t.0, t.1, t.2]);
                            }
                            if t == key {
                                assert(tris@[tris@.len() - 1]@ == seq![t.0, t.1, t.2]);
                            }
                        }
                        assert forall|i: int, j2: int|
                            0 <= i < j2 < tris@.len() implies (#[trigger] tris@[i])@ != (
                        #[trigger] tris@[j2])@ by {
                            if j2 == tris@.len() - 1 {
                                if tris@[i]@ == tris@[j2]@ {
                                    assert(tris0[i]@ == seq![key.0, key.1, key.2]);
                                    assert(tris_has(tris0, key));
                                    assert(false);
                                }
                            }
                        }
                    }
                }
                proof {
                    assert(distinct3(fv[0], fv[j as int], fv[j as int + 1]));
                    assert(tris_has(tris0, key) ==> tris_has(tris@, key));
                    assert forall|t: (usize, usize, usize)|
                        tris_has(tris@, t) <==> fan_triple_before(
                            faces@,
                            fi as int,
                            j as int + 1,
                            t,
                        ) by {
                        if tris_has(tris@, t) {
                            if t == key {
                                assert(t == tri_key(fv[0], fv[j as int], fv[j as int + 1]));
                                assert(fan_triple_before(faces@, fi as int, j as int + 1, t));
                            } else {
                                assert(tris_has(tris0, t));
                                assert(fan_triple_before(faces@, fi as int, j as int, t));
                                let (w, p) = choose|w: int, p: int|
                                    0 <= w < faces@.len() && 1 <= p && p + 1 < faces@[w]@.len() && (
                                    w < fi || (w == fi && p < j)) && #[trigger] distinct3(
                                        faces@[w]@[0],
                                        faces@[w]@[p],
                                        faces@[w]@[p + 1],
                                    ) && t == tri_key(
                                        faces@[w]@[0],
                                        faces@[w]@[p],
                                        faces@[w]@[p + 1],
                                    );
                                assert(fan_triple_before(faces@, fi as int, j as int + 1, t));
                            }
                        }
                        if fan_triple_before(faces@, fi as int, j as int + 1, t) {
                            let (w, p) = choose|w: int, p: int|
                                0 <= w < faces@.len() && 1 <= p && p + 1 < faces@[w]@.len() && (w
                                    < fi || (w == fi && p < j + 1)) && #[trigger] distinct3(
                                    faces@[w]@[0],
                                    faces@[w]@[p],
                                    faces@[w]@[p + 1],
                                ) && t == tri_key(faces@[w]@[0], faces@[w]@[p], faces@[w]@[p + 1]);
                            if w == fi && p == j as int {
                                assert(t == key);
                                assert(tris_has(tris@, t));
                            } else {
                                assert(fan_triple_before(faces@, fi as int, j as int, t));
                                assert(tris_has(tris0, t));
                                assert(tris_has(tris@, t));
                            }
                        }
                    }
                }
            } else {
                proof {
                    assert forall|t: (usize, usize, usize)|
                        tris_has(tris@, t) <==> fan_triple_before(
                            faces@,
                            fi as int,
                            j as int + 1,
                            t,
                        ) by {
                        if fan_triple_before(faces@, fi as int, j as int + 1, t) {
                            let (w, p) = choose|w: int, p: int|
                                0 <= w < faces@.len() && 1 <= p && p + 1 < faces@[w]@.len() && (w
                                    < fi || (w == fi && p < j + 1)) && #[trigger] distinct3(
                                    faces@[w]@[0],
                                    faces@[w]@[p],
                                    faces@[w]@[p + 1],
                                ) && t == tri_key(faces@[w]@[0], faces@[w]@[p], faces@[w]@[p + 1]);
                            if w == fi && p == j as int {
                                assert(false);
                            }
                            assert(fan_triple_before(faces@, fi as int, j as int, t));
                        }
                        if fan_triple_before(faces@, fi as int, j as int, t) {
                            let (w, p) = choose|w: int, p: int|
                                0 <= w < faces@.len() && 1 <= p && p + 1 < faces@[w]@.len() && (w
                                    < fi || (w == fi && p < j)) && #[trigger] distinct3(
                                    faces@[w]@[0],
                                    faces@[w]@[p],
                                    faces@[w]@[p + 1],
                                ) && t == tri_key(faces@[w]@[0], faces@[w]@[p], faces@[w]@[p + 1]);
                            assert(fan_triple_before(faces@, fi as int, j as int + 1, t));
                        }
                    }
                }
            }
            j = j + 1;
        }
        proof {
            assert forall|t: (usize, usize, usize)|
                tris_has(tris@, t) <==> fan_triple_before(faces@, fi as int + 1, 1, t) by {
                if tris_has(tris@, t) {
                    assert(fan_triple_before(faces@, fi as int, j as int, t));
                    let (w, p) = choose|w: int, p: int|
                        0 <= w < faces@.len() && 1 <= p && p + 1 < faces@[w]@.len() && (w < fi || (w
                            == fi && p < j)) && #[trigger] distinct3(
                            faces@[w]@[0],
                            faces@[w]@[p],
                            faces@[w]@[p + 1],
                        ) && t == tri_key(faces@[w]@[0], faces@[w]@[p], faces@[w]@[p + 1]);
                    assert(fan_triple_before(faces@, fi as int + 1, 1, t));
                }
                if fan_triple_before(faces@, fi as int + 1, 1, t) {
                    let (w, p) = choose|w: int, p: int|
                        0 <= w < faces@.len() && 1 <= p && p + 1 < faces@[w]@.len() && (w < fi + 1
                            || (w == fi + 1 && p < 1)) && #[trigger] distinct3(
                            faces@[w]@[0],
                            faces@[w]@[p],
                            faces@[w]@[p + 1],
                        ) && t == tri_key(faces@[w]@[0], faces@[w]@[p], faces@[w]@[p + 1]);
                    if w == fi as int {
                        assert(p < j);
                    }
                    assert(fan_triple_before(faces@, fi as int, j as int, t));
                }
            }
        }
        fi = fi + 1;
    }
    proof {
        assert forall|t: (usize, usize, usize)|
            tris_has(tris@, t) <==> fan_triple(faces@, faces@.len() as int, t) by {
            if tris_has(tris@, t) {
                assert(fan_triple_before(faces@, nf as int, 1, t));
                let (w, p) = choose|w: int, p: int|
                    0 <= w < faces@.len() && 1 <= p && p + 1 < faces@[w]@.len() && (w < nf || (w
                        == nf && p < 1)) && #[trigger] distinct3(
                        faces@[w]@[0],
                        faces@[w]@[p],
                        faces@[w]@[p + 1],
                    ) && t == tri_key(faces@[w]@[0], faces@[w]@[p], faces@[w]@[p + 1]);
                assert(fan_triple(faces@, faces@.len() as int, t));
            }
            if fan_triple(faces@, faces@.len() as int, t) {
                let (w, p) = choose|w: int, p: int|
                    0 <= w < faces@.len() && 1 <= p && p + 1 < faces@[w]@.len() && #[trigger] distinct3(
                        faces@[w]@[0],
                        faces@[w]@[p],
                        faces@[w]@[p + 1],
                    ) && t == tri_key(faces@[w]@[0], faces@[w]@[p], faces@[w]@[p + 1]);
                assert(fan_triple_before(faces@, nf as int, 1, t));
            }
        }
    }
    tris
}

/// Degenerate triangles that visualize the overlay edges: the edge
/// `{from, to}` becomes the face `[from, to, to + offset]`, where `offset`
/// is the vertex count (the front end doubles the vertex list so each edge
/// shows up as a sliver).
#[verifier::loop_isolation(false)]
pub fn edge_faces(edges: &EdgeList, offset: usize) -> (r: Vec<Face>)
    requires
        forall|i: int| 0 <= i < edges@.len() ==> (#[trigger] edges@[i]).to + offset <= usize::MAX,
    ensures
        r@.len() == edges@.len(),
        forall|i: int|
            0 <= i < r@.len() ==> (#[trigger] r@[i])@ == seq![
                edges@[i].from,
                edges@[i].to,
                (edges@[i].to + offset) as usize,
            ],
{
    let mut r: Vec<Face> = Vec::new();
    let n = edges.len();
    let mut i: usize = 0;
    while i < n
        invariant
            i <= n,
            r@.len() == i,
            forall|p: int|
                0 <= p < i ==> (#[trigger] r@[p])@ == seq![
                    edges@[p].from,
                    edges@[p].to,
                    (edges@[p].to + offset) as usize,
                ],
        decreases n - i,
    {
        let e = edges.get(i);
        let mut f: Face = Vec::new();
        f.push(e.from);
        f.push(e.to);
        f.push(e.to + offset);
        proof {
            assert(f@ =~= seq![
                edges@[i as int].from,
                edges@[i as int].to,
                (edges@[i as int].to + offset) as usize,
            ]);
        }
        r.push(f);
        i = i + 1;
    }
    r
}

} // verus!
