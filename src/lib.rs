pub mod config;
pub mod search;
pub mod slicing;
pub mod text;

pub use config::{matching_lines, Config, ConfigError};
pub use search::{search, search_case_insensitive};
pub use text::contains_str;
