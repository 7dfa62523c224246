//! A small real-time rendering engine core: an arena-backed scene graph with
//! hierarchical transform propagation, the fixed vertex layout of meshes and
//! their texture bindings, and the decisions of shader program construction.
pub mod mesh;
pub mod scene_graph;
pub mod shader;
pub mod transform;
