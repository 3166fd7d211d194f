//! A single-file embedded document store.
//!
//! The store keeps named collections of JSON-like documents in one binary
//! container: a fixed header with a magic tag, a reserved table-of-contents
//! region mapping collection names to segment offsets and optional schemas,
//! and per-collection segments of length-prefixed documents.
//!
//! The whole engine is verified over an in-memory image of the container
//! bytes (`io::Db`). Opening, locking and reading the real file, and writing
//! the image back, are left to the surrounding program.

mod errors;
mod io;
mod header;
mod json;
mod toc;
mod utils;
mod section;
mod db;

pub use errors::DbError;
pub use io::Db;
pub use io::read_at;
pub use io::write_at;
pub use io::read_exact_at;
pub use io::write_exact_at;
pub use io::get_eof;
pub use io::read_exact_4;
pub use io::write_u32_le;
pub use io::truncate;
pub use io::read_document;
pub use io::write_document;
pub use header::Header;
pub use header::get_header_magic;
pub use header::write_header;
pub use header::read_header;
pub use json::JsonValue;
pub use json::Json;
pub use json::encode_json;
pub use json::decode_json;
pub use json::value_eq;
pub use json::lemma_doc_round_trip;
pub use toc::TocEntry;
pub use toc::TocMap;
pub use utils::validate_against_schema;
pub use section::Section;
pub use toc::load_toc;
pub use toc::save_toc;
pub use toc::ensure_collection_entry;
pub use toc::set_collection_schema;
pub use toc::validate_collection_schema;
pub use toc::toc_find;
pub use db::create;
pub use db::insert;
pub use db::query;
pub use db::update;
pub use db::delete;
pub use db::set_schema;
pub use db::filter_match;
pub use db::lemma_empty_filter_keeps_all;
pub use db::lemma_query_returns_all_inserted;
pub use db::lemma_update_clears_filter;
pub use db::lemma_delete_clears_filter;
pub use header::lemma_header_round_trip;
