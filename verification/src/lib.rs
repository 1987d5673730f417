//! Verified cores of the Rust Kart utilities.
pub mod arg5;
pub mod arg5_2;
pub mod cargo_norm;
pub mod convert;
pub mod dddmf;
pub mod dgmod;
pub mod ffbm;
pub mod gh_prs;
pub mod git_branches;
pub mod grit;
pub mod iter_utils;
pub mod kart;
pub mod kcal;
pub mod md_align;
pub mod mdrich;
pub mod now;
pub mod numbers;
pub mod order;
pub mod save_context;
pub mod sum_of_products;
pub mod task_mcp;
pub mod text;
