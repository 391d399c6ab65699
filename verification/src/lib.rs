//! Analysis of Hyper IR source text for editor tooling.
//!
//! The text goes through three stages. The lexer (`hir_tokenizer`) turns
//! it into spanned tokens. The parser (`hir_parser`) reads statements from
//! the tokens and recovers from malformed ones. The index (`hir_index`)
//! records for every symbol where it is declared, defined and used, and
//! answers which symbol stands at a byte offset.
//!
//! Each stage is specified by a model of what it computes
//! (`hir_tokenizer::lex`, `hir_parser::parse_program`,
//! `hir_index_build::built_index`). The modules `lexer_laws`,
//! `index_laws`, `scope_laws` and `occurrence_laws` prove what holds of
//! those models, and `document_laws` what holds of the index of every
//! source text.

pub mod diagnostics;
pub mod hir_tokenizer;
pub mod lexer_laws;
pub mod hir_parser;
pub mod name_table;
pub mod hir_index;
pub mod hir_index_build;
pub mod index_laws;
pub mod scope_laws;
pub mod occurrence_laws;
pub mod document_laws;
