//! Firefox bookmarks kept as a file tree: the data model, and what is decided
//! when the database is exported to files and the files are imported back.
pub mod db;
pub mod export;
pub mod export_plan;
pub mod import;
pub mod item_types;
pub mod plan;
pub mod profile;
pub mod roots;
pub mod types;
