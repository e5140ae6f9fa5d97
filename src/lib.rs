//! A Game of Life engine built on the HashLife algorithm: a hash-consed
//! quadtree of cell regions with a memoized one-generation advance.

pub mod quadtree;
pub mod cell;
pub mod cell_factory;
pub mod cell_manager;
pub mod universe;
