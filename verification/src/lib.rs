//! Point-cloud indexing and level-of-detail selection on a fixed-point grid.
//!
//! Every real-valued quantity is held as a whole number of millionths, so
//! that the geometry is exact integer arithmetic. Doubles and floats occur
//! only as IEEE-754 bit patterns: those of a LAS header are read into
//! millionths (`fixed`), and those of a packed chunk are written from
//! millionths (`ieee`).
//!
//! - `header`, `parser`, `laszip`: the header of a LAS or LAZ file, its
//!   point records, and the LASzip record of a compressed file.
//! - `octree`, `octree_laws`: the octree that is built from the points, and
//!   what holds of each of its nodes.
//! - `lod`: the nodes to draw for a camera, within a point budget.
//! - `packing`: the binary layout in which chunks of points travel.
//! - `manager`: the registry of loaded point clouds.
//! - `api_server`: the evaluations that a control endpoint awaits.
//! - `bytes`, `text`, `registry`, `types`: little-endian integers, numbers
//!   as text, a table by text keys, and the value types.

pub mod api_server;
pub mod bytes;
pub mod fixed;
pub mod header;
pub mod ieee;
pub mod laszip;
pub mod lod;
pub mod manager;
pub mod octree;
pub mod octree_laws;
pub mod packing;
pub mod parser;
pub mod registry;
pub mod text;
pub mod types;
