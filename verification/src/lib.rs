//! A small relational database: a SQL front end, an in-memory table registry
//! and a paged B-tree storage engine, each with machine-checked contracts.

pub mod db;
pub mod btree;
pub mod parser;
pub mod storage_manager;
