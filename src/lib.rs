//! Closest pair of points in the plane, by brute force and by divide and conquer.
//!
//! Coordinates are integers: fixed-point values in hundredths of a unit. Distances
//! are compared through their exact squares, so no rounding ever decides which
//! pair is the closest.
pub mod point;
pub mod pairs;
pub mod brute_force;
pub mod divide_and_conquer;
pub mod laws;
pub mod measure_execution_time;
