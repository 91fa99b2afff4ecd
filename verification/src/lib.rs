//! Filename-convention library: a mini template language for filename
//! shapes, a matcher that extracts fields from names, a renderer, a
//! conflict-checking rename planner, and a journaled executor with
//! retry and rollback.

pub mod commands;
pub mod config;
pub mod error;
pub mod executor;
pub mod journal;
pub mod matcher;
pub mod notes;
pub mod pattern;
pub mod planner;
pub mod template;
pub mod text;
