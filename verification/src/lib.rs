//! KGDB: an append-only JSON document store.
//!
//! A collection is a log of JSON documents, one per line. The engine in [`engine`] keeps what is
//! known of each collection, and says what is to be read and written; it touches no files itself.
//! What it guarantees across several calls is stated in [`guarantees`], [`persistence`],
//! [`reading`] and [`writing`]; what each operation means by itself, in [`laws_values`],
//! [`laws_logs`], [`laws_reading`], [`laws_store`], [`laws_files`] and [`laws_requests`].

pub mod auth;
pub mod catalog;
pub mod document;
pub mod engine;
pub mod error;
pub mod filter;
pub mod guarantees;
pub mod ids;
pub mod index;
pub mod insertion;
pub mod json;
pub mod laws_files;
pub mod laws_logs;
pub mod laws_reading;
pub mod laws_requests;
pub mod laws_store;
pub mod laws_values;
pub mod log;
pub mod name;
pub mod offsets;
pub mod persistence;
pub mod query;
pub mod reading;
pub mod sidecar;
pub mod state;
pub mod text;
pub mod writing;
