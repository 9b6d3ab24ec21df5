use vstd::prelude::*;

verus! {

/// The ways an engine operation can fail.
#[derive(Debug, Clone, Copy, PartialEq, Eq, Structural)]
pub enum Error {
    /// A record could not be encoded, or bytes did not decode to a record.
    Serialization,
    /// The files on disk contradict the engine's invariants.
    Corruption,
    /// A new key was inserted into a full memtable.
    CapacityExceeded,
    /// A key or an address could not be hashed onto the ring.
    Hash,
}

pub type Result<T> = core::result::Result<T, Error>;

} // verus!
