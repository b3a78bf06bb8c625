//! Client-side wire layer for a hierarchical `basis:dict:key` store.
//!
//! The crate provides a self-describing binary codec over fixed-size,
//! page-sized buffers (`senres`), the addressing grammar that splits a
//! path string into basis and dictionary components (`path`), and the
//! typed request builders and response parsers for the remote
//! operations (`basis`, `dict`, `key`).  The blocking exchange of a
//! buffer with the remote endpoint is injected by the caller; nothing
//! in this crate performs I/O.

pub mod basis;
pub mod dict;
pub mod key;
pub mod path;
pub mod senres;
