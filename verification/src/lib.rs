//! Line-oriented text search: which lines of a document contain a query,
//! with or without regard to letter case.

pub mod config;
pub mod driver;
pub mod encoding;
pub mod lines;
pub mod lowercase;
pub mod search;
pub mod substring;

pub use config::{Config, ConfigError, ConfigView, CASE_INSENSITIVE_VARIABLE};
pub use driver::run;
pub use search::{search, search_by_keys};
