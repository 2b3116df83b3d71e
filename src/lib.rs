//! An in-memory key-value store that speaks a RESP2-style wire protocol: the frame
//! codec, the command rules, the single-writer engine state with lazy expiry, and the
//! encoding of the append-only log.
use vstd::prelude::*;

pub mod command;
pub mod data_types;
pub mod persistence;
pub mod resp;
pub mod store;
pub mod table;

verus! {

} // verus!
