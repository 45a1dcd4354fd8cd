//! A local search engine: lexing, stemming and term-frequency indexing of documents.
pub mod chars;
pub mod lexer;
pub mod counts;
pub mod stemmer;
pub mod index;
pub mod words;
pub mod byte_index;
pub mod docx;
pub mod server;
pub mod text;
pub mod pdf;
pub mod cli;
pub mod utils;
