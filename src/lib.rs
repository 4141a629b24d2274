//! A small backtracking regular-expression engine: a parser from pattern text
//! to a token tree, and a matcher that runs the tree against a line of text.

pub mod ast;
pub mod cli;
pub mod laws;
pub mod matcher;
pub mod output;
pub mod parser;
pub mod search;

pub use ast::{GroupType, Node, Token};
pub use matcher::match_pattern;
pub use output::maybe_colorize;
pub use parser::parse_regex;
pub use search::{find_matches, match_anywhere, search_text};
