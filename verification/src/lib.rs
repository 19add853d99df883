//! Image-analysis building blocks with machine-checked contracts.
//!
//! - `geometry`: the turn of three points, convex hulls, polyline
//!   simplification, the pieces of an arc and the frame of the minimal
//!   bounding rectangle, over points with whole coordinates.
//! - `hull`, `hull_proofs`, `plane`: what a convex hull is, and why the
//!   scan finds it.
//! - `simplify`: what simplification keeps of a curve.
//! - `angular_sort`, `measure`: ordering points round a pivot, and exact
//!   areas and distances.
//! - `corners`: the FAST corner detectors.
//! - `template_matching`: matching methods and the extremes of an image.
//! - `definitions`, `point`: the image and point types.

pub mod angular_sort;
pub mod corners;
pub mod definitions;
pub mod geometry;
pub mod hull;
pub mod hull_proofs;
pub mod measure;
pub mod plane;
pub mod point;
pub mod simplify;
pub mod template_matching;
