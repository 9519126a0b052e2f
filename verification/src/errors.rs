use vstd::prelude::*;

verus! {

/// Reasons the node identity cannot be established, loaded or converted.
/// All of these are fatal to startup: the node cannot run without a valid identity.
#[derive(Clone, Copy, Debug, PartialEq, Eq, Structural)]
pub enum IdentityError {
    /// A file could not be created, read or written.
    IoFailure,
    /// The persisted identity bytes are not a well-formed identity object.
    SerializationFailure,
    /// Key bytes could not be converted into a valid key-pair representation.
    KeyConversionFailure,
}

/// Failure of the bootstrap administrative operation; non-fatal, reported to the caller.
#[derive(Clone, Copy, Debug, PartialEq, Eq, Structural)]
pub enum BootstrapError {
    /// The local routing/record store cannot accept more entries.
    StoreCapacityExceeded,
}

} // verus!
