//! Planar subdivision of a polygon with holes and an embedded skeleton of
//! segments, in exact rational arithmetic, and the half-edge mesh built on it.
//!
//! - [`rational`]: exact rational numbers, carried by `num_rational`.
//! - [`geom`]: points and vectors, the angle key, signed area, and the
//!   crossing of two segments.
//! - [`subdivision`]: cutting segments and polygons at the crossings.
//! - [`mesh`]: the half-edge mesh of a subdivided task; [`links`] is its
//!   combinatorial half, [`tyndex`] its typed indices.
//! - [`task`], [`problem`], [`text`]: tasks and problems and their text form.
//! - [`laws`], [`angles`], [`lines`], [`cross`], [`algebra`]: what is proved
//!   of the above beyond the contracts of the functions.

pub mod algebra;
pub mod angles;
pub mod cross;
pub mod geom;
pub mod laws;
pub mod lines;
pub mod links;
pub mod mesh;
pub mod problem;
pub mod rational;
pub mod subdivision;
pub mod task;
pub mod text;
pub mod tyndex;
