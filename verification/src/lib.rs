//! A small configuration launcher library: a key-to-path binding store with an
//! editor preference, persisted as a JSON document.
//!
//! The [`config`] module holds the `Config` value and the operations on it;
//! the [`json`] module reads and writes the persisted document.

pub mod config;
pub mod json;
pub mod paths;
