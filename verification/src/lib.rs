//! Topology core of a mesh-morphing pipeline.
//!
//! Two closed triangle meshes are projected onto a common sphere; the overlay
//! of their edge arcs is computed, faces of the overlay are traced from a
//! half-edge graph, and every overlay vertex ends up carrying one position on
//! each input surface. This crate holds the combinatorial side of that
//! pipeline — canonical edge sets, the half-edge graph with its angular
//! `next` wiring, the overlay insertion state machine, and face
//! post-processing — all verified. The numerical side (vector arithmetic,
//! arc intersection tests, projections) works on IEEE doubles and lives with
//! the front end, which feeds its discrete outcomes into these structures.

use vstd::prelude::*;

pub mod faces;
pub mod graph;
pub mod overlay;

verus! {

/// Options that select how a merged model is assembled.
pub struct Config {
    /// Emit the overlay edges as degenerate triangles instead of traced faces.
    pub edge_only: bool,
    /// Keep every vertex on the sphere instead of projecting back.
    pub sphere_only: bool,
    /// Rescale both point clouds to a common maximum extent.
    pub scale: bool,
}

} // verus!
