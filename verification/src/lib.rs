//! A faceted search and similarity engine for a personal knowledge base:
//! a text-query compiler, a parameterized-statement composer, a tag-set
//! matcher, a tag-overlap similarity ranker, and the rule that keeps a
//! denormalized tag projection in step with the tag association table.

pub mod engine;
pub mod fts;
pub mod media;
pub mod models;
pub mod numfmt;
pub mod statement;
pub mod storage;
pub mod text;
pub mod trusted;
