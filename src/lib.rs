//! A continuous game of tag between point agents on a wrap-around rectangle.
//!
//! Coordinates are fixed-point integers: a caller picks the length unit (for
//! instance a thousandth of a pixel) and every rule below is exact in it.

pub mod vec;
pub mod agent;
pub mod agent_tree;
pub mod sim;
pub mod population;
pub mod fps_counter;
