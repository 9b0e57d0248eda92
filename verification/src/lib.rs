//! Line search over a text: the lines of a body that hold a query, compared
//! either exactly or after folding both sides to lower case.

pub mod config;
pub mod encoding;
pub mod lines;
pub mod search;
pub mod substring;

pub use config::{run, Config, ConfigError};
pub use search::{search, search_case_insensitive};
