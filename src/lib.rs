//! A permissive two-stage parser for XML-like markup (RSS, Atom, simple HTML).
//!
//! `lexer::lex` turns text into positioned lexical units and
//! `tokenizer::tokenize` turns those into span-free structural tokens; both
//! are proved to follow state-machine models, and `laws` proves properties
//! of those models. `elements`, `rss` and `atom` read feed elements out of
//! the token stream, and `content` renders markup held in feed text as lines.
pub mod atom;
pub mod content;
pub mod elements;
pub mod laws;
pub mod lexer;
pub mod rss;
pub mod selection;
pub mod tags;
pub mod text;
pub mod tokenizer;
