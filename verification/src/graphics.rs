pub mod circles;
pub mod image;
pub mod lines;
