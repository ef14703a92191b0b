//! Log records: the unit of durability.
//!
//! A segment is a sequence of `Command` records.  A `Put` stores a
//! value for a key; a `Remove` is a tombstone that marks the key deleted
//! as of that point in the log.

use vstd::prelude::*;

verus! {

/// One record of the append-only log.
#[derive(Clone)]
pub enum Command {
    Put(Put),
    Rm(Remove),
}

/// A record that binds `key` to `value`.
#[derive(Clone)]
pub struct Put {
    pub key: String,
    pub value: String,
}

/// A tombstone record: `key` is deleted as of this point in the log.
#[derive(Clone)]
pub struct Remove {
    pub key: String,
}

} // verus!
