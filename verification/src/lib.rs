//! Verified core of a navigation-mesh generator: contour tracing and
//! simplification over a compact heightfield, the integer parts of detail-mesh
//! building, and the index bookkeeping used to visualise navmeshes.

pub mod region;
pub mod heightfield;
pub mod contours;
pub mod simplify;
pub mod delaunay;
pub mod detail_mesh;
pub mod height_patch;
pub mod polygon_mesh;
pub mod debug_mesh;
pub mod generator;
pub mod config;
pub mod editor;
pub mod transmission;
pub mod material_images;
pub mod gizmo_updates;
