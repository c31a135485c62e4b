//! Block storage for a resource-constrained node.
//!
//! The medium is split into a replicated control-plane region, which holds the
//! node identity record, and a run of fixed-size block slots. Two backends are
//! provided: a plain byte array and a page-erased flash model.

pub mod backend_memory;
pub mod backend_rp2040;
pub mod block;
pub mod bytes;
pub mod control_plane;
pub mod crc;
pub mod error;

pub use backend_memory::MemoryBackend;
pub use backend_rp2040::{MockFlash, Rp2040Backend, Rp2040SlotMapping};
pub use block::Block;
pub use control_plane::ControlPlaneData;
pub use crc::crc32;
pub use error::StorageError;

use vstd::prelude::*;

verus! {

/// Dense, zero-based index of one block slot.
pub type StorageIndex = u32;

/// Largest encoded size of a block, which is also the size of a memory slot.
pub const MAX_BLOCK_SIZE: usize = 2016;

/// Size of the integrity hash stored after each block in a flash slot.
pub const HASH_SIZE: usize = 32;

/// Size of the node private key held in the control plane.
pub const PRIVATE_KEY_SIZE: usize = 32;

/// Size of the free-form initialization parameters held in the control plane.
pub const INIT_PARAMS_SIZE: usize = 100;

/// Number of replicated control-plane entries.
pub const CONTROL_PLANE_COUNT: usize = 3;

/// Schema version written into every control-plane entry.
pub const CONTROL_PLANE_VERSION: u8 = 1;

} // verus!
