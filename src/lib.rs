//! A Barnes-Hut quadtree over an integer lattice.
//!
//! Positions are lattice coordinates and masses are whole units, so the
//! aggregate of every node is kept exactly; a simulation that works in
//! floating point rounds its positions onto the lattice before each step.
pub mod quadrant;
pub mod tree;
pub mod simulation;
