//! Spatial index and simulation bookkeeping for a particle sandbox.
pub mod particle;
pub mod quadtree;
pub mod sandbox;
pub mod sim;
