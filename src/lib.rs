//! A particle chemistry engine: atoms diffuse and collide on a wrap-around
//! plane, kept apart by a spatial hash grid, and react in pairs according to
//! a declarative table of rules.

pub mod atom;
pub mod chemistry;
pub mod geometry;
pub mod grid;
pub mod pairs;
pub mod parse;
pub mod render;
mod rng;
pub mod world;
mod hashed;
