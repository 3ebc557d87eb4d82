//! Reading-time estimation for text documents: word counting (plain text and
//! markdown), the minutes a word count takes to read, the tree of files and
//! directories with rolled-up totals, and its rendering as text.

pub mod estimator;
pub mod counter;
pub mod path;
pub mod walker;
pub mod tree;
pub mod render;
pub mod cli;
