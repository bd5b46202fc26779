//! Reconstruction of administrative area boundaries from raw map-edit data.
//!
//! A relation references an unordered, possibly reversed, possibly incomplete
//! collection of line fragments tagged with a role ("outer" or "inner"). This
//! crate stitches those fragments into closed rings, splits self-touching
//! rings into sub-rings, and attaches each hole ring to the outer ring that
//! encloses it, producing a multipolygon.
//!
//! Coordinates are carried as decimicro degrees (1e-7 of a degree), so the
//! whole pipeline is exact integer arithmetic.

pub mod assembly;
pub mod boundaries;
pub mod geometry;
pub mod multipolygon;
pub mod objects;
pub mod osm_builder;

pub use crate::assembly::{assemble_rings, RingAssembly, UnclosedChain};
pub use crate::boundaries::{
    build_boundary, build_boundary_parts, extract_boundary_parts, get_nodes, BoundaryPart,
};
pub use crate::geometry::Point;
pub use crate::multipolygon::{MultiPolygon, Polygon, Ring};
pub use crate::objects::{Node, ObjectStore, OsmId, OsmObj, Relation, RelationRef, Way};
