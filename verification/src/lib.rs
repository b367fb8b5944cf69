//! Renders a directory hierarchy as an indented tree of lines, with filtering,
//! name ordering, optional sizes and running totals.
//!
//! The library reads no file and prints nothing. Its caller hands it the
//! command line as strings and the hierarchy as a [`tree::Dir`], and gets
//! back what to do ([`args::parse`]), the lines to show ([`walk::walk`]) and
//! their text ([`line::Line::render`], [`render::summary`]).

pub mod args;
pub mod decimal;
pub mod filter;
pub mod laws;
pub mod line;
pub mod order;
pub mod render;
pub mod text;
pub mod tree;
pub mod walk;
