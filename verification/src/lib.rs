//! Core of a C++ documentation generator: structured-comment parsing,
//! outline ("book") building with hierarchical numbering, markdown
//! rendering with cross-reference resolution and syntax highlighting,
//! and capture plus verification planning of embedded code examples.

pub mod book;
pub mod comment;
pub mod doctest;
pub mod config;
pub mod index;
pub mod render;
pub mod md;
pub mod text;
pub mod tree;
