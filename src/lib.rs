//! Extraction of benchmark measurements: finding measurement files by name,
//! reading their index from the enclosing directory, pulling the median point
//! estimate out of each decoded document, and rendering the ordered result.
pub mod index;
pub mod document;
pub mod locate;
pub mod extract;
pub mod render;
