//! Password-anchored threshold sharing of private keys, sealed boxes, and the
//! statements of the relational store that holds the users.
//!
//! A credential authority splits a freshly generated private key into three
//! points of a random line over a prime field. One point is tied to the
//! user's password, one is kept by the authority, one is handed back as a
//! backup. Any two of them recover the key.
//!
//! - [`bignum`]: integers of any size, computed with `num_bigint`.
//! - [`field`]: Euclid's algorithm and inverses modulo a prime.
//! - [`shamir`]: sharing a secret and reconstructing it.
//! - [`auth`]: the credential authority.
//! - [`crypto`]: sealed boxes.
//! - [`text`], [`sql`], [`values`], [`tables`]: the texts, values and
//!   statements of the relational store.
//! - [`paths`]: shortest paths between tables, found by `fast_paths`.
//! - [`helpers`]: small utilities.

pub mod auth;
pub mod bignum;
pub mod crypto;
pub mod field;
pub mod helpers;
pub mod paths;
pub mod shamir;
pub mod sql;
pub mod tables;
pub mod text;
pub mod values;
