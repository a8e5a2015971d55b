pub mod container;
pub mod element;
pub mod geometry;
pub mod refs;
