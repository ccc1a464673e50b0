//! A multi-tenant, versioned key-value file store: binary batch codec, ordered databases
//! with optimistic concurrency control, a registry of databases, per-user grants, and the
//! command dispatcher. Disk and network work is left to the caller, which persists each
//! planned record of a write before committing it.
use vstd::prelude::*;

pub mod codec;
pub mod store;
pub mod database;
pub mod databases;
pub mod configuration;
pub mod access;
pub mod command_processor;

verus! {

} // verus!
