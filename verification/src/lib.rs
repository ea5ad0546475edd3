//! A small line-search library: split a text body into lines and return,
//! in file order, the lines that contain a query, either exactly or under
//! case folding.

pub mod config;
pub mod search;
pub mod text;

pub use config::Config;
pub use config::ConfigError;
pub use search::run_search;
pub use search::search_case_insensitive;
pub use search::search_case_sensitive;
