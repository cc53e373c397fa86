pub mod searcher;
pub mod sha256;
