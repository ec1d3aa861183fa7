//! Edge detection, edge tracking, contour thinning and colour reduction on raw pixel buffers.
pub mod bitmap;
pub mod point;
pub mod detect;
pub mod track;
pub mod vectorize;
pub mod facet;
pub mod painting;
pub mod trash;
pub mod regions;
