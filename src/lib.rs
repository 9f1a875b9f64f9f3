//! Concurrent chunked wave function collapse over a 3D lattice of cells.
pub mod geometry;
pub mod prototype;
pub mod random;
pub mod cell;
pub mod library;
pub mod chunk;
pub mod kernel;
pub mod messages;
pub mod params;
pub mod director;
pub mod validator;
pub mod phone;
pub mod worker;
pub mod pool;
pub mod manager;
