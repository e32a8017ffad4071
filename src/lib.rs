//! An encrypted-container engine with a password-record layer on top of it.
use vstd::prelude::*;

pub mod cursor;
pub mod errors;
pub mod digest;
pub mod random;
pub mod cipher;
pub mod bytes;
pub mod headers;
pub mod container;
pub mod record;
pub mod flags;
pub mod generator;
pub mod filter;
pub mod sort;
pub mod iterator;
pub mod manager;
