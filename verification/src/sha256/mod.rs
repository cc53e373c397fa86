pub mod laws;
pub mod sha256_checker;
pub mod sha256_data_preparer;
pub mod words_provider;
pub mod sha256_oracle;
