//! Classification of file paths against named groups of regular expressions.
//!
//! - `rules`: the format of a rule file, and reading one into a configuration.
//! - `config`: configurations and how several merge into one.
//! - `matcher`: a configuration compiled into regexes, and the classification
//!   of a path by it.
//! - `verdict`: verdicts, and how one follows from the groups' match lengths.
//! - `names`: the set of group names that an ambiguity reports.
//! - `groups`: sets of groups as maps, and the laws of merging.
//! - `model`: what a classification is, as mathematics, and the laws of it.
//! - `engine`: the `regex` crate, as far as it is used, and what is assumed
//!   of it.

pub mod config;
pub mod engine;
pub mod groups;
pub mod matcher;
pub mod model;
pub mod names;
pub mod rules;
pub mod verdict;
