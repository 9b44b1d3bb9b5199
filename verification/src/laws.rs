//! What the functions of the library promise, in terms of what goes in and what
//! comes out: bytes at their places, fields, numbers.
//!
//! A law here speaks of every call of a function: `call_ensures` says that `r` is
//! what the function may give for the arguments beside it.

pub mod frames;
pub mod masters;
pub mod names;
pub mod objects;
pub mod slaves;
pub mod streams;
pub mod transfers;
