//! A small credential library: bcrypt-backed password hashing and an
//! ordered, persistable store of account records.

pub mod codec;
pub mod encode;
pub mod json;
