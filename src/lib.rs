//! Main-text extraction from HTML pages and frequency-based extractive summaries.
pub mod dom;
pub mod extract;
pub mod pipeline;
pub mod segment;
pub mod summary;
pub mod text;
