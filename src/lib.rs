pub mod catalogue;
pub mod config;
pub mod cryptography;
pub mod documents;
pub mod errors;
pub mod files;
pub mod language;
pub mod laws;
pub mod mathematics;
pub mod text;
pub mod utils;
