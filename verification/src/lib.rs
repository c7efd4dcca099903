//! An in-memory documentation index and search engine.
//!
//! A fixed catalog of Markdown documents, each identified by a URI, is held
//! as immutable UTF-8 byte strings. Each query derives the documents'
//! sections anew by splitting at level-2 heading lines, scores them against
//! the query with layered heuristics, and renders the highest-ranked ones
//! as human-readable result text.
//!
//! - [`text`]: byte-string primitives and their specifications;
//! - [`sections`]: the section parser;
//! - [`score`]: the relevance scorer;
//! - [`rank`]: stable ranking and lexicographic sorting;
//! - [`resources`]: the document catalog;
//! - [`engine`]: the three query operations.

pub mod engine;
pub mod rank;
pub mod resources;
pub mod score;
pub mod sections;
pub mod text;
