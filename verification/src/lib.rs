//! A grid raycaster in exact fixed-point arithmetic.
//!
//! A viewer stands on a map of cells, some of them walls. A fan of rays leaves the
//! viewer's eye; each ray walks from cell to cell until it enters a wall or leaves the
//! map, and what the rays find is painted, slice by slice, onto a frame of pixels.
//!
//! Coordinates and distances are integers that count 1/65536ths of a unit, so every
//! result is stated, and proved, as an exact integer formula: which cell a ray enters
//! next is decided without rounding, and points and distances are rounded down.
//!
//! - [`fixed`]: the scale, square roots and division, both rounded down;
//! - [`vector2`]: vectors, and the conversion between grid space and pixel space;
//! - [`grid`]: the map;
//! - [`raycast`]: the walk of one ray, and the fan of rays;
//! - [`render`]: the projection of walls onto rows of the screen, and the painting;
//! - [`viewer`]: how the keys move the viewer.

pub mod fixed;
pub mod grid;
pub mod raycast;
pub mod render;
pub mod vector2;
pub mod viewer;
