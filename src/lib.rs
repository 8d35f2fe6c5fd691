//! Turns scattered integer-coordinate samples into a regular raster: the
//! grid model with its world/grid-space transforms, nearest-neighbour
//! interpolation, the evidence rules of inverse distance weighting, region
//! painting and the renderer's intensity mapping.
pub mod bounds;
pub mod draw;
pub mod grid;
pub mod interpolate;
pub mod point;
