//! Catalog management and merged dictionary search.
//!
//! The crate keeps a hierarchical catalog of dictionary profiles (groups and
//! leaves), merges per-dictionary lookup results by a normalized headword key,
//! and drives the open/search/paginate session state machine. Reading the
//! dictionary files themselves is left to an unverified shell, which hands
//! fetched index records into the verified core as plain values.

use vstd::prelude::*;

pub mod app_config;
pub mod codec;
pub mod error;
pub mod library_mgr;
pub mod mdict_app;
pub mod mdx_db;
pub mod mdx_db_group;
pub mod mdx_profile;
pub mod mdx_url_parser;
pub mod text;

verus! {

} // verus!
