//! Error taxonomy of the storage contract.

use vstd::prelude::*;

verus! {

/// Every failure a storage operation can report.
#[derive(Debug, Clone, Copy, PartialEq, Eq, Structural)]
pub enum StorageError {
    /// The index lies outside the computed slot range.
    InvalidIndex,
    /// The slot is valid but holds no block.
    BlockAbsent,
    /// The stored bytes fail the hash or structural check.
    IntegrityFailure,
    /// Every control-plane replica is blank.
    ControlPlaneUninitialized,
    /// No replica is valid and at least one is damaged.
    ControlPlaneCorrupted,
    /// No replica is valid and at least one was written by an incompatible layout.
    ControlPlaneIncompatible,
    /// The chain configuration was already stored.
    ChainConfigurationAlreadySet,
    /// The backend was configured with a start address that is not page aligned.
    InvalidConfiguration,
    /// The medium failed; `code` says where.
    ///
    /// - `1`: a chain configuration could not be re-read as a full-slot block.
    /// - `2`: the memory backend could not parse the bytes of an occupied slot.
    /// - `230`: flash read out of bounds.
    /// - `231`: flash erase range invalid or out of bounds.
    /// - `232`: flash write out of bounds.
    ///
    /// Codes `1` and `2` guard decode steps that a valid [`crate::Block`] always
    /// passes; the contracts show they are never returned.
    BackendIo { code: u16 },
}

} // verus!
