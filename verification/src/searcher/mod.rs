pub mod backend;
pub mod checker;
pub mod circuit;
pub mod data_preparer;
pub mod laws;
pub mod oracle;
pub mod searcher;
pub mod utils;
