//! A block-level deduplicating backup engine.

pub mod text;
pub mod hash;
pub mod chunk;
pub mod compress;
pub mod naming;
pub mod backup;
pub mod restore;
pub mod policy;
pub mod config;
pub mod repository;
