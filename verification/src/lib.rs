//! A short-link service: short identifiers mapped to long URLs, with listing
//! by owner, oldest first, and deletion that checks the owner.
//!
//! The heart of it is the link store: one logical record kept in two tables of
//! an embedded database, a primary table keyed by identifier and an index
//! keyed by owner and creation time. Every change to both tables happens in
//! one write transaction, so the tables never disagree.
//!
//! - [`model`]: the record and the plain values of requests and responses.
//! - [`codec`], [`decimal`], [`text`]: the stored form of a record, written
//!   and read back, with proofs that reading undoes writing.
//! - [`keys`]: index keys, the bounds of an owner's stretch of the index, and
//!   why key order is creation order.
//! - [`engine`]: the storage engine, taken on trust behind small functions
//!   with stated contracts.
//! - [`store`]: the store as a mathematical object, and what holds of it:
//!   identifiers are unique, created records are found and listed, deleted
//!   records are gone, only the owner deletes under an owner's name.
//! - [`database`]: the store on the engine.
//! - [`ident`], [`clock`]: random identifiers and the time of creation.
//! - [`handler`], [`middleware`]: the service in front of the store, and the
//!   authorization check in front of the service.

pub mod clock;
pub mod codec;
pub mod database;
pub mod decimal;
pub mod engine;
pub mod handler;
pub mod ident;
pub mod keys;
pub mod middleware;
pub mod model;
pub mod store;
pub mod text;
