//! Packs rectangular photos of fixed size onto a canvas of fixed width and
//! open height.
//!
//! The photos are taken tallest first, and each is put at the lowest place
//! where it clears the skyline of the photos before it, as far left as that
//! row allows. [`skyline`] keeps the height profile of the canvas as segments,
//! [`order`] brings the photos into the order of packing, [`canvas`] packs
//! them, and [`grid`] draws the placements cell by cell.

pub mod canvas;
pub mod grid;
pub mod order;
pub mod photo;
pub mod skyline;
