//! Slicer core: model ingest, layer extraction and the per-layer region and
//! path pipeline of a fused-filament slicer. Floating-point geometry stays
//! with the caller; everything the library holds is discrete and verified.
//!
//! - `model`, `ascii_stl`, `binary_stl`: telling formats apart and reading
//!   triangles from model files.
//! - `mesh`: the face across each edge of an indexed surface.
//! - `sweep`: which faces each layer's plane cuts.
//! - `slicer`: each face's segment and the closed rings of a layer.
//! - `geom`: fixed-point polygons and the polygon kernel.
//! - `regions`: regions and their ids, shells, exposure and solid/sparse
//!   splitting.
//! - `config`: offsets derived from the settings.
//! - `infill`: fill lines and the cache of rotated fills.
//! - `connect`: greedy nearest-entry ordering of a layer's paths.
//! - `args`: the command line.
pub mod args;
pub mod ascii_stl;
pub mod binary_stl;
pub mod config;
pub mod connect;
pub mod geom;
pub mod infill;
pub mod mesh;
pub mod model;
pub mod regions;
pub mod slicer;
pub mod sweep;
