use vstd::prelude::*;

pub mod assets;
pub mod courses;
pub mod db;
pub mod git;
pub mod hashing;
pub mod indexer;
pub mod json;
pub mod models;
pub mod parser;
pub mod slugs;
pub mod source_fetch;
pub mod state;
pub mod text;
pub mod urls;
pub mod vault;
pub mod youtube;
