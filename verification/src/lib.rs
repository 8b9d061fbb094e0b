//! A small line-search library.
//!
//! Given a query and the full text of a file, [`search`] and
//! [`search_case_insensitive`] return the lines that contain the query,
//! in their original order.
pub mod config;
pub mod search;

pub use config::Config;
pub use config::ConfigError;
pub use search::run_search;
pub use search::search;
pub use search::search_case_insensitive;
