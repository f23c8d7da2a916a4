//! The core of a markdown workspace: a bounded snapshot of a directory tree, the
//! metadata block at the top of each document, value suggestions gathered across a
//! corpus, and coercion between metadata blocks and typed form values.

pub mod document;
pub mod form;
pub mod frontmatter;
pub mod requests;
pub mod suggestions;
pub mod text;
pub mod tree;
pub mod value;
