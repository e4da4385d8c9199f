//! The float-free core of an offline path tracer.
//!
//! Coordinates and ray parameters enter this crate as *ordered keys*: signed
//! integers whose order is the order of the numbers they stand for. Everything
//! the engine decides by comparing, grouping, indexing or recursing is decided
//! here and proved; the arithmetic of a particular surface or material is
//! supplied by the caller as a function value.
//!
//! - [`aabb`]: bounding boxes, their union and the box around a set of points.
//! - [`interval`]: ray parameters on a range, the choice between two roots,
//!   the slab test, the stretch of a ray inside a volume.
//! - [`cube`]: the six sides of a box.
//! - [`sorting`]: objects ordered along an axis.
//! - [`bvh`]: the bounding-volume hierarchy, built and searched.
//! - [`hittable`]: hit records and the plain collection of objects.
//! - [`nearest`]: what the searches find, and that the hierarchy and the
//!   plain collection agree on it.
//! - [`estimator`]: the bounded recursion that follows a ray through a scene.
//! - [`render`]: the rows of a picture shared among workers and put back
//!   together.
//! - [`texture`]: the pixels of a decoded picture.
//! - [`utility`]: random choices.

pub mod aabb;
pub mod bvh;
pub mod cube;
pub mod estimator;
pub mod hittable;
pub mod interval;
pub mod nearest;
pub mod render;
pub mod sorting;
pub mod texture;
pub mod utility;
