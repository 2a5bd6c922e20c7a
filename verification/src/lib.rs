//! Exact travelling-salesman solving on small planar instances: random
//! collision-free city placement, a symmetric table of pairwise squared
//! Euclidean distances, and the Held-Karp dynamic program with proved
//! optimality of the returned tour and its cost.

pub mod matrix;
pub mod points;
pub mod solver;
