//! Reads line-oriented genealogical records and nests them by their levels.
//!
//! A document is a text with one record to a line: a level, an optional
//! pointer between `@` signs, a tag and optional data. [`parse_into_nodes`]
//! tokenizes the lines into records, [`build_tree`] links each record to the
//! records nested directly under it, and [`forest`] hands the result out as
//! trees. [`parse_to_forest`] does the three in a row.
//!
//! The modules, from the bottom up: `text` holds what is done with plain
//! text; `pattern` is the border to the regular-expression engine, whose
//! results are believed, not proved; `tokenizer` makes records of matches;
//! `nesting` says which record is whose child; `builder` and `forest` compute
//! that; `laws` proves what holds of every forest.

pub mod builder;
pub mod config;
pub mod forest;
pub mod laws;
pub mod nesting;
pub mod node;
pub mod pattern;
pub mod text;
pub mod tokenizer;

pub use builder::build_tree;
pub use config::Config;
pub use forest::{forest, parse_to_forest, subtree, Tree};
pub use node::{Node, ParseError};
pub use tokenizer::{node_from_groups, nodes_from_matches, parse_into_nodes, LINE_PATTERN};
