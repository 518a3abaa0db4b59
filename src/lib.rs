//! A parser for a small subset of natural language, and a world document
//! that parsed questions are asked of.
//!
//! A grammar is compiled from rule text and a lexicon (`lang`); sentences are
//! parsed with the CYK algorithm into syntax trees (`ast`), searched by
//! grammar symbol (`ast_search`), read as subject, verb, place and question
//! (`sentence`), and answered against a scene document (`scene`).

pub mod ast;
pub mod ast_search;
pub mod dialogue;
pub mod lang;
pub mod scene;
pub mod sentence;
pub mod table;
pub mod text;
