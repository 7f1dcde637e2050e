//! A small text search library: build a configuration from a program's
//! argument list, and pick out the lines of a text that contain a query.
pub mod config;
pub mod search;
pub mod text;

pub use config::Config;
pub use search::search;
