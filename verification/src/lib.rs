//! An embeddable JSON document store: path-addressed reads and writes over a
//! nested document, a small query dialect, a write-ahead log and optional
//! authenticated encryption at rest.
//!
//! The store itself touches no file. It works on the bytes of a snapshot and
//! of a log and hands out the bytes to write, so that everything it decides
//! is decided here, on plain values:
//!
//! - [`json`] holds documents and their mathematical model;
//! - [`path`] reads, writes and deletes by dotted path;
//! - [`query`] and [`find`] filter, sort, page and project collections;
//! - [`codec`], [`hexcode`] and [`envelope`] read and write JSON text and
//!   seal it with AES-256-GCM;
//! - [`wal`] records changes and replays them;
//! - [`database`] is the store, and [`storage`] the protocol that relates it
//!   to its files.
//!
//! What holds of these for every input is proved in [`path_laws`],
//! [`find_laws`], [`wal_laws`] and [`store_laws`].

pub mod error;
pub mod json;
pub mod codec;
pub mod hexcode;
pub mod envelope;
pub mod path;
pub mod path_laws;
pub mod query;
pub mod find;
pub mod find_laws;
pub mod wal;
pub mod wal_laws;
pub mod database;
pub mod storage;
pub mod store_laws;
