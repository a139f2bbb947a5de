//! A compiler for a small templating language: literal markup interleaved
//! with opaque host-language code, turned into host-language source text.
//!
//! `parser` reads a template into the syntax tree of `ast`, and is proved to
//! follow the ordered-choice grammar of `grammar`; `ir` lowers that tree,
//! interning its strings; `generate` emits one formatting call for it;
//! `compile` runs the three. `rendering` states what emitted templates render
//! to.

pub mod ast;
pub mod compile;
pub mod error;
pub mod generate;
pub mod grammar;
pub mod ir;
pub mod parser;
pub mod render;
pub mod rendering;
pub mod text;
