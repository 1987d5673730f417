//! Module dependency graphs of Rust crates: the outline of a source file as
//! syn parses it, module paths, how module files and `use` paths resolve, the
//! graph built from a crate's module tree, and its Mermaid rendering.  Reading
//! the source files is the program's business.
pub mod analyze;
pub mod graph;
pub mod parser;
pub mod mermaid;
pub mod resolver;
pub mod use_tree;
