//! Seat-assignment planning for a classroom.
pub mod sorted;
pub mod text;
pub mod model;
pub mod fetch;
pub mod solver;
pub mod output;
pub mod sample;
pub mod classroom;
