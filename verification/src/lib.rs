//! Verified core of a membrane-thickness mapping tool.
//!
//! The library bins marker observations on a regular 2D grid, keeps
//! per-cell running sums and counts for the two membrane leaflets,
//! reduces them to per-cell thickness values under a sample-count
//! threshold, and renders / parses the textual map.
//!
//! All coordinates and measured values are fixed-point integers in
//! micro-units: a stored value `v` stands for the real quantity
//! `v / 1_000_000`. This makes every computation exact and verifiable.

mod accum;
mod classify;
mod codec;
mod finalize;
mod geometry;
mod grid;
mod setup;

pub use accum::MarkerPos;
pub use accum::Observation;
pub use accum::ThicknessMap;
pub use classify::Leaflet;
pub use classify::leaflet_of;
pub use classify::min_image_z;
pub use codec::parse_map;
pub use codec::render_map;
pub use codec::render_thickness_map;
pub use finalize::CellValue;
pub use finalize::cell_thickness;
pub use finalize::finalize_cells;
pub use finalize::global_average;
pub use geometry::GridError;
pub use geometry::GridGeometry;
pub use grid::GridMap;
pub use setup::SetupError;
pub use setup::prepare_map;
