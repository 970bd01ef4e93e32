//! Core engine of a durable, resumable web crawl.
//!
//! The crate covers URL canonicalization and the per-host path tree, the
//! relational model of the durable state store, the in-memory deduplication
//! cache, proxy rotation, and the event pipeline that an outer runtime drives
//! with fetched pages.

pub mod cache;
pub mod config;
pub mod crawler;
pub mod extract;
pub mod norm_laws;
pub mod proxy;
pub mod qparams;
pub mod state;
pub mod text;
pub mod url_parser;
pub mod url_tree;
