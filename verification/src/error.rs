//! Error kinds of the core and of the aspect taxonomy.

use vstd::prelude::*;

verus! {

/// Result alias for the core collaborators (hashing, arithmetic, ticks).
pub type Result<T> = core::result::Result<T, WMMSCoreError>;

/// Result alias for the aspect taxonomy.
pub type AspectResult<T> = core::result::Result<T, AspectError>;

/// Failures of the low-level collaborators the core consumes.
#[derive(Debug, Clone)]
pub enum WMMSCoreError {
    /// A string was not a valid canonical path.
    InvalidPath(String),
    /// Two distinct canonical strings collided on one content identifier.
    IdCollision { prefix: String, a: String, b: String },
    /// A tick addition overflowed the tick counter.
    TickOverflow,
    /// A fixed-point operation overflowed.
    NumericOverflow,
    /// An argument was outside the domain of the operation.
    InvalidValue(String),
}

/// Failures of aspect registration and taxonomy lookup.
#[derive(Debug, Clone)]
pub enum AspectError {
    /// A collaborator failure, carried through unchanged.
    Core(WMMSCoreError),
    /// The string is not a non-empty dot-separated identifier path.
    InvalidPath(String),
    /// A key that should have been registered was not found (defensive;
    /// unreachable when ancestors are auto-inserted).
    UnknownAspect(String),
    /// The registry no longer accepts registrations.
    Sealed,
    /// Reserved: registration is idempotent, so duplicates are not errors.
    Duplicate(String),
}

impl From<WMMSCoreError> for AspectError {
    fn from(e: WMMSCoreError) -> (r: AspectError) {
        AspectError::Core(e)
    }
}

impl vstd::std_specs::convert::FromSpecImpl<WMMSCoreError> for AspectError {
    open spec fn obeys_from_spec() -> bool {
        true
    }

    open spec fn from_spec(e: WMMSCoreError) -> AspectError {
        AspectError::Core(e)
    }
}

} // verus!
