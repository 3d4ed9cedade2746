//! A publish/subscribe spreadsheet backend, verified: publishers own named
//! sheets of addressable cells; edits travel as compact `$`-delimited text
//! payloads; every applied batch lands in an append-only, role-tagged log
//! that clients replay incrementally by cursor.
//!
//! `codec` holds the wire grammar, `store` the cell grid, the update log
//! and the sheet lifecycle, `auth` the basic-auth header reader, `results`
//! the response envelope, and `laws` the proved properties that tie the
//! operations together.

pub mod auth;
pub mod codec;
pub mod laws;
pub mod results;
pub mod store;
pub mod text;
pub mod users;
