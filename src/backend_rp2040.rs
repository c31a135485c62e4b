//! Backend over page-erased flash, modelled in memory. The control-plane
//! replicas take one page each from the start address on; the block slots
//! follow, `BLOCKS_PER_PAGE` to a page, each slot holding the block bytes and
//! then the integrity hash of those bytes.
//!
//! Everything the backend owns lies at or above the start address: the flash
//! below it belongs to other users of the device (the firmware image first of
//! all), so the replicas are not placed at address zero.
//!
//! The integrity hash itself is computed by the caller over the
//! `MAX_BLOCK_SIZE` block bytes of a slot and handed in: on save with the block,
//! on read with the slot bytes that `read_slot_bytes` returned.

use crate::block::{
    canonical_block_bytes, lemma_trim_zero_filled, padded, trimmed, valid_block_bytes, Block,
};
use crate::bytes::{
    all_bytes_equal, all_equal, copy_range, extend_bytes, fill_range, filled, overwrite,
    push_zeros, same_bytes, write_range, zeros,
};
use crate::control_plane::{
    authoritative, decode_entry, encodable, encode_control_record, encode_entry, first_valid,
    lemma_uniform_authoritative, lemma_all_but_one_authoritative, lemma_entry_one_byte_damage,
    fresh_record, lemma_decoded_is_encodable, lemma_entry_round_trip, lemma_first_valid,
    replica_decodes, select_authoritative, vec_views, ControlPlaneData, ControlPlaneView,
    CONTROL_PLANE_ENTRY_SIZE,
};
use crate::backend_memory::with_chain_configuration;
use crate::error::StorageError;
use crate::{
    StorageIndex, CONTROL_PLANE_COUNT, CONTROL_PLANE_VERSION, HASH_SIZE, INIT_PARAMS_SIZE,
    MAX_BLOCK_SIZE, PRIVATE_KEY_SIZE,
};
use vstd::arithmetic::div_mod::{lemma_fundamental_div_mod, lemma_mod_bound};
use vstd::prelude::*;
use vstd::slice::slice_subrange;

verus! {

/// Flash erase-page size in bytes.
pub const FLASH_PAGE_SIZE: usize = 4096;
/// Flash size of the usual target device in bytes.
pub const RP2040_DEFAULT_FLASH_SIZE: usize = 2 * 1024 * 1024;
/// Offset of the integrity hash inside a slot.
pub const SLOT_HASH_OFFSET: usize = MAX_BLOCK_SIZE;
/// Bytes of one slot: the block, then its hash.
pub const SLOT_SIZE_BYTES: usize = MAX_BLOCK_SIZE + HASH_SIZE;
/// Bytes taken by the control-plane replicas, one page each.
pub const CONTROL_PLANE_RESERVED_BYTES: usize = CONTROL_PLANE_COUNT * FLASH_PAGE_SIZE;
/// Slots in one flash page.
pub const BLOCKS_PER_PAGE: usize = FLASH_PAGE_SIZE / SLOT_SIZE_BYTES;
/// Slots in one flash page, in the index type.
pub const BLOCKS_PER_PAGE_INDEX: StorageIndex = 2;

/// The layout is sound: a page holds at least one slot and one whole
/// control-plane entry.
pub proof fn lemma_layout_fits()
    ensures
        BLOCKS_PER_PAGE >= 1,
        BLOCKS_PER_PAGE_INDEX == BLOCKS_PER_PAGE,
        BLOCKS_PER_PAGE * SLOT_SIZE_BYTES <= FLASH_PAGE_SIZE,
        CONTROL_PLANE_ENTRY_SIZE <= FLASH_PAGE_SIZE,
        BLOCKS_PER_PAGE == 2,
{
    assert(FLASH_PAGE_SIZE / SLOT_SIZE_BYTES == 2) by (nonlinear_arith);
}

/// Page, slot-within-page and byte offset of a storage index.
#[derive(Debug, Clone, Copy, PartialEq, Eq, Structural)]
pub struct Rp2040SlotMapping {
    /// Zero-based page index within the slot region.
    pub page_index: StorageIndex,
    /// Zero-based slot index inside the page.
    pub slot_index: StorageIndex,
    /// Byte offset inside the page where the slot begins.
    pub byte_offset_in_page: usize,
}

/// Maps a storage index to its page, its slot within the page and the byte
/// offset of that slot; defined for every value of the index type.
pub fn map_storage_index(storage_index: StorageIndex) -> (r: Rp2040SlotMapping)
    ensures
        r.page_index == storage_index / BLOCKS_PER_PAGE_INDEX,
        r.slot_index == storage_index % BLOCKS_PER_PAGE_INDEX,
        r.byte_offset_in_page == r.slot_index * SLOT_SIZE_BYTES,
        r.byte_offset_in_page + SLOT_SIZE_BYTES <= FLASH_PAGE_SIZE,
{
    let page_index = storage_index / BLOCKS_PER_PAGE_INDEX;
    let slot_index = storage_index % BLOCKS_PER_PAGE_INDEX;
    let byte_offset_in_page = slot_index as usize * SLOT_SIZE_BYTES;
    Rp2040SlotMapping { page_index, slot_index, byte_offset_in_page }
}

/// Number of slots when the slot region starts at `start`: whole pages left
/// after the control plane, times the slots per page.
pub open spec fn flash_slot_count(size: int, start: int) -> int {
    if size >= start + CONTROL_PLANE_RESERVED_BYTES {
        ((size - start - CONTROL_PLANE_RESERVED_BYTES) / (FLASH_PAGE_SIZE as int)) * BLOCKS_PER_PAGE
    } else {
        0
    }
}

pub open spec fn page_address(start: int, page: int) -> int {
    start + CONTROL_PLANE_RESERVED_BYTES + page * FLASH_PAGE_SIZE
}

pub open spec fn slot_address(start: int, index: int) -> int {
    page_address(start, index / (BLOCKS_PER_PAGE as int)) + (index % (BLOCKS_PER_PAGE as int))
        * SLOT_SIZE_BYTES
}

/// The raw bytes of slot `index`.
pub open spec fn flash_slot(f: Seq<u8>, start: int, index: int) -> Seq<u8> {
    f.subrange(slot_address(start, index), slot_address(start, index) + SLOT_SIZE_BYTES)
}

/// What `read_slot_bytes(index)` returns.
pub open spec fn flash_read(f: Seq<u8>, start: int, index: int) -> Result<Seq<u8>, StorageError> {
    if index >= flash_slot_count(f.len() as int, start) {
        Err(StorageError::InvalidIndex)
    } else {
        Ok(flash_slot(f, start, index))
    }
}

/// The flash after a successful `save_block(index, b, h)`.
pub open spec fn flash_saved(f: Seq<u8>, start: int, index: int, b: Seq<u8>, h: Seq<u8>) -> Seq<u8> {
    overwrite(f, slot_address(start, index), padded(b) + h)
}

/// What a slot decodes to, given the hash of its block bytes: blank if fully
/// erased, else the block (the block bytes without their zero padding) if the
/// stored hash matches and they form a block, else an integrity failure.
pub open spec fn decode_slot(slot: Seq<u8>, computed_hash: Seq<u8>) -> Result<Seq<u8>, StorageError> {
    if all_bytes_equal(slot, 0xFF) {
        Err(StorageError::BlockAbsent)
    } else if slot.subrange(SLOT_HASH_OFFSET as int, SLOT_SIZE_BYTES as int) != computed_hash {
        Err(StorageError::IntegrityFailure)
    } else if !valid_block_bytes(slot.subrange(0, MAX_BLOCK_SIZE as int)) {
        Err(StorageError::IntegrityFailure)
    } else {
        Ok(trimmed(slot.subrange(0, MAX_BLOCK_SIZE as int)))
    }
}

/// Every slot below the slot count lies inside the flash, within one page.
pub proof fn lemma_flash_slot_in_bounds(size: int, start: int, index: int)
    requires
        0 <= start,
        0 <= index < flash_slot_count(size, start),
    ensures
        start + CONTROL_PLANE_RESERVED_BYTES <= page_address(start, index / (BLOCKS_PER_PAGE as int)),
        page_address(start, index / (BLOCKS_PER_PAGE as int)) + FLASH_PAGE_SIZE <= size,
        slot_address(start, index) + SLOT_SIZE_BYTES <= page_address(start, index / (BLOCKS_PER_PAGE as int)) + FLASH_PAGE_SIZE,
        page_address(start, index / (BLOCKS_PER_PAGE as int)) <= slot_address(start, index),
{
    let x = size - start - CONTROL_PLANE_RESERVED_BYTES;
    let m = FLASH_PAGE_SIZE as int;
    let q = x / m;
    let p = index / 2;
    lemma_fundamental_div_mod(x, m);
    lemma_mod_bound(x, m);
    lemma_layout_fits();
    assert(index < q * 2);
    assert(p + 1 <= q);
    assert((p + 1) * m <= x) by (nonlinear_arith)
        requires
            x == m * q + x % m,
            0 <= x % m,
            p + 1 <= q,
            m > 0,
    ;
    assert(0 <= p * m) by (nonlinear_arith)
        requires
            0 <= p,
            m > 0,
    ;
}

/// In-memory model of a flash device: reads anywhere, erases ranges back to
/// `0xFF`, programs bytes.
pub struct MockFlash<const SIZE: usize> {
    data: [u8; SIZE],
}

impl<const SIZE: usize> View for MockFlash<SIZE> {
    type V = Seq<u8>;

    closed spec fn view(&self) -> Seq<u8> {
        self.data@
    }
}

impl<const SIZE: usize> MockFlash<SIZE> {
    /// A fully erased device.
    pub fn new() -> (r: Self)
        ensures
            r@ == Seq::new(SIZE as nat, |i: int| 0xFFu8),
    {
        let r = Self { data: [0xFF; SIZE] };
        proof {
            assert(r@ =~= Seq::new(SIZE as nat, |i: int| 0xFFu8));
        }
        r
    }

    /// Reads `len` bytes from `from`; code `230` when out of bounds.
    pub fn read(&self, from: u32, len: usize) -> (r: Result<Vec<u8>, u16>)
        ensures
            from + len > SIZE ==> r == Err::<Vec<u8>, u16>(230),
            from + len <= SIZE ==> (r matches Ok(v) && v@ == self@.subrange(from as int, from + len)),
    {
        let from_index = from as usize;
        if len > SIZE || from_index > SIZE - len {
            return Err(230);
        }
        Ok(copy_range(self.data.as_slice(), from_index, len))
    }

    /// Erases `from..to` to `0xFF`; code `231` when the range is inverted or out
    /// of bounds.
    pub fn erase(&mut self, from: u32, to: u32) -> (r: Result<(), u16>)
        ensures
            (from > to || to > SIZE) ==> r == Err::<(), u16>(231) && final(self)@ == old(self)@,
            !(from > to || to > SIZE) ==> r is Ok && final(self)@ == filled(old(self)@, from as int, to as int, 0xFF),
    {
        let from_index = from as usize;
        let to_index = to as usize;
        if from_index > to_index || to_index > SIZE {
            return Err(231);
        }
        fill_range(&mut self.data, from_index, to_index, 0xFF);
        Ok(())
    }

    /// Programs `bytes` at `from`; code `232` when out of bounds.
    pub fn write(&mut self, from: u32, bytes: &[u8]) -> (r: Result<(), u16>)
        ensures
            from + bytes@.len() > SIZE ==> r == Err::<(), u16>(232) && final(self)@ == old(self)@,
            from + bytes@.len() <= SIZE ==> r is Ok && final(self)@ == overwrite(old(self)@, from as int, bytes@),
    {
        let from_index = from as usize;
        if bytes.len() > SIZE || from_index > SIZE - bytes.len() {
            return Err(232);
        }
        write_range(&mut self.data, from_index, bytes);
        Ok(())
    }
}

/// The raw bytes of control-plane replica `r`.
pub open spec fn flash_entry(f: Seq<u8>, start: int, r: int) -> Seq<u8> {
    f.subrange(start + r * FLASH_PAGE_SIZE, start + r * FLASH_PAGE_SIZE + CONTROL_PLANE_ENTRY_SIZE)
}

pub open spec fn flash_entries(f: Seq<u8>, start: int) -> Seq<Seq<u8>> {
    Seq::new(CONTROL_PLANE_COUNT as nat, |r: int| flash_entry(f, start, r))
}

/// Whether the control-plane pages fit in a flash of `size` bytes.
pub open spec fn control_plane_fits(size: int, start: int) -> bool {
    start + CONTROL_PLANE_RESERVED_BYTES <= size
}

/// A replica page: the entry, zero-filled to the page size.
pub open spec fn replica_page(entry: Seq<u8>) -> Seq<u8> {
    entry + zeros((FLASH_PAGE_SIZE - CONTROL_PLANE_ENTRY_SIZE) as nat)
}

/// `f` with the first `n` replica pages holding `entry`.
pub open spec fn flash_replicas_written(f: Seq<u8>, start: int, entry: Seq<u8>, n: nat) -> Seq<u8>
    decreases n,
{
    if n == 0 {
        f
    } else {
        overwrite(
            flash_replicas_written(f, start, entry, (n - 1) as nat),
            start + (n - 1) * FLASH_PAGE_SIZE,
            replica_page(entry),
        )
    }
}

/// `f` with each of the first `n` replicas other than `keep` that differs from
/// `entry` rewritten to hold `entry`.
pub open spec fn flash_replicas_healed(f: Seq<u8>, start: int, keep: int, entry: Seq<u8>, n: nat) -> Seq<u8>
    decreases n,
{
    if n == 0 {
        f
    } else {
        let prev = flash_replicas_healed(f, start, keep, entry, (n - 1) as nat);
        let r = n - 1;
        if r != keep && flash_entry(f, start, r) != entry {
            overwrite(prev, start + r * FLASH_PAGE_SIZE, replica_page(entry))
        } else {
            prev
        }
    }
}

/// The record that `load_control_data` returns.
pub open spec fn flash_load(f: Seq<u8>, start: int) -> Result<ControlPlaneView, StorageError> {
    if !control_plane_fits(f.len() as int, start) {
        Err(StorageError::BackendIo { code: 230 })
    } else {
        match authoritative(flash_entries(f, start), 0xFF) {
            Ok((_, v)) => Ok(v),
            Err(e) => Err(e),
        }
    }
}

/// The flash after the replica repair that loading performs.
pub open spec fn flash_repaired(f: Seq<u8>, start: int) -> Seq<u8> {
    if !control_plane_fits(f.len() as int, start) {
        f
    } else {
        match authoritative(flash_entries(f, start), 0xFF) {
            Ok((k, v)) => flash_replicas_healed(f, start, k, encode_entry(v), CONTROL_PLANE_COUNT as nat),
            Err(_) => f,
        }
    }
}

/// Number of whole pages from `start` to the end of the flash.
pub open spec fn pages_from(size: int, start: int) -> int {
    if size >= start {
        (size - start) / (FLASH_PAGE_SIZE as int)
    } else {
        0
    }
}

/// What `init` returns.
pub open spec fn flash_init_result(size: int, start: int) -> Result<(), StorageError> {
    if start % (FLASH_PAGE_SIZE as int) != 0 {
        Err(StorageError::InvalidConfiguration)
    } else if !control_plane_fits(size, start) {
        Err(StorageError::BackendIo { code: 231 })
    } else {
        Ok(())
    }
}

/// The flash after `init(key, own_node_id, init_params)`: every page from the
/// start address on erased, then every replica written.
pub open spec fn flash_initialized(f: Seq<u8>, start: int, key: Seq<u8>, own_node_id: u32, init_params: Seq<u8>) -> Seq<u8> {
    if flash_init_result(f.len() as int, start) is Err {
        f
    } else {
        flash_replicas_written(
            filled(f, start, start + pages_from(f.len() as int, start) * FLASH_PAGE_SIZE, 0xFF),
            start,
            encode_entry(fresh_record(key, own_node_id, init_params)),
            CONTROL_PLANE_COUNT as nat,
        )
    }
}

/// What `set_chain_configuration(c)` returns.
pub open spec fn flash_set_result(f: Seq<u8>, start: int) -> Result<(), StorageError> {
    match flash_load(f, start) {
        Err(e) => Err(e),
        Ok(v) => if v.chain_configuration is Some {
            Err(StorageError::ChainConfigurationAlreadySet)
        } else {
            Ok(())
        },
    }
}

/// The flash after `set_chain_configuration(c)`.
pub open spec fn flash_after_set(f: Seq<u8>, start: int, c: Seq<u8>) -> Seq<u8> {
    match flash_load(f, start) {
        Err(_) => f,
        Ok(v) => if v.chain_configuration is Some {
            flash_repaired(f, start)
        } else {
            flash_replicas_written(
                flash_repaired(f, start),
                start,
                encode_entry(with_chain_configuration(v, c)),
                CONTROL_PLANE_COUNT as nat,
            )
        },
    }
}

/// Replica page `r` lies inside the control-plane region.
pub proof fn lemma_replica_page_bounds(start: int, r: int)
    requires
        0 <= r < CONTROL_PLANE_COUNT,
    ensures
        start <= start + r * FLASH_PAGE_SIZE,
        start + r * FLASH_PAGE_SIZE + FLASH_PAGE_SIZE <= start + CONTROL_PLANE_RESERVED_BYTES,
{
    assert(r == 0 || r == 1 || r == 2);
}

/// Writing one replica page changes that replica only, and nothing outside the
/// control-plane pages.
pub proof fn lemma_replica_overwrite(f: Seq<u8>, start: int, q: int, e: Seq<u8>)
    requires
        0 <= start,
        control_plane_fits(f.len() as int, start),
        0 <= q < CONTROL_PLANE_COUNT,
        e.len() == CONTROL_PLANE_ENTRY_SIZE,
    ensures
        overwrite(f, start + q * FLASH_PAGE_SIZE, replica_page(e)).len() == f.len(),
        forall|r: int|
            0 <= r < CONTROL_PLANE_COUNT ==> #[trigger] flash_entry(overwrite(f, start + q * FLASH_PAGE_SIZE, replica_page(e)), start, r)
                == if r == q {
                e
            } else {
                flash_entry(f, start, r)
            },
        forall|j: int|
            0 <= j < f.len() && !(start <= j < start + CONTROL_PLANE_RESERVED_BYTES) ==> #[trigger] overwrite(
                f,
                start + q * FLASH_PAGE_SIZE,
                replica_page(e),
            )[j] == f[j],
{
    let t = overwrite(f, start + q * FLASH_PAGE_SIZE, replica_page(e));
    lemma_replica_page_bounds(start, q);
    assert forall|r: int| 0 <= r < CONTROL_PLANE_COUNT implies #[trigger] flash_entry(t, start, r) == if r == q {
        e
    } else {
        flash_entry(f, start, r)
    } by {
        lemma_replica_page_bounds(start, r);
        if r == q {
            assert(flash_entry(t, start, r) =~= e);
        } else {
            assert(r == 0 || r == 1 || r == 2);
            assert(q == 0 || q == 1 || q == 2);
            assert(flash_entry(t, start, r) =~= flash_entry(f, start, r));
        }
    }
}

/// Replica pages written so far hold `entry`; nothing outside the control
/// plane changes.
pub proof fn lemma_flash_replicas_written(f: Seq<u8>, start: int, entry: Seq<u8>, n: nat)
    requires
        0 <= start,
        control_plane_fits(f.len() as int, start),
        n <= CONTROL_PLANE_COUNT,
        entry.len() == CONTROL_PLANE_ENTRY_SIZE,
    ensures
        flash_replicas_written(f, start, entry, n).len() == f.len(),
        forall|r: int| 0 <= r < CONTROL_PLANE_COUNT ==> #[trigger] flash_entry(flash_replicas_written(f, start, entry, n), start, r) == if r < n {
            entry
        } else {
            flash_entry(f, start, r)
        },
        forall|j: int|
            0 <= j < f.len() && !(start <= j < start + CONTROL_PLANE_RESERVED_BYTES) ==> #[trigger] flash_replicas_written(f, start, entry, n)[j] == f[j],
    decreases n,
{
    if n > 0 {
        lemma_flash_replicas_written(f, start, entry, (n - 1) as nat);
        lemma_replica_overwrite(flash_replicas_written(f, start, entry, (n - 1) as nat), start, n - 1, entry);
    }
}

/// Healed replica pages hold `entry`; nothing outside the control plane
/// changes.
pub proof fn lemma_flash_replicas_healed(f: Seq<u8>, start: int, keep: int, entry: Seq<u8>, n: nat)
    requires
        0 <= start,
        control_plane_fits(f.len() as int, start),
        n <= CONTROL_PLANE_COUNT,
        entry.len() == CONTROL_PLANE_ENTRY_SIZE,
    ensures
        flash_replicas_healed(f, start, keep, entry, n).len() == f.len(),
        forall|r: int| 0 <= r < CONTROL_PLANE_COUNT ==> #[trigger] flash_entry(flash_replicas_healed(f, start, keep, entry, n), start, r) == if r < n && r != keep && flash_entry(f, start, r) != entry {
            entry
        } else {
            flash_entry(f, start, r)
        },
        forall|j: int|
            0 <= j < f.len() && !(start <= j < start + CONTROL_PLANE_RESERVED_BYTES) ==> #[trigger] flash_replicas_healed(f, start, keep, entry, n)[j] == f[j],
    decreases n,
{
    if n > 0 {
        lemma_flash_replicas_healed(f, start, keep, entry, (n - 1) as nat);
        lemma_replica_overwrite(flash_replicas_healed(f, start, keep, entry, (n - 1) as nat), start, n - 1, entry);
    }
}

/// Round trip on flash: after saving `b` with hash `h` at a valid index, the
/// slot reads back as `b` zero-filled to `MAX_BLOCK_SIZE` followed by `h`, and
/// decoding it with the hash of its block bytes (`h` again) gives back `b`
/// byte-identical. A hash of all `0xFF` bytes is left out: with a block of all
/// `0xFF` bytes the slot would look erased.
pub proof fn lemma_flash_save_then_read(f: Seq<u8>, start: int, index: int, b: Seq<u8>, h: Seq<u8>)
    requires
        0 <= start,
        0 <= index < flash_slot_count(f.len() as int, start),
        canonical_block_bytes(b),
        h.len() == HASH_SIZE,
        !all_bytes_equal(h, 0xFF),
    ensures
        flash_read(flash_saved(f, start, index, b, h), start, index) == Ok::<Seq<u8>, StorageError>(padded(b) + h),
        decode_slot(padded(b) + h, h) == Ok::<Seq<u8>, StorageError>(b),
{
    lemma_flash_slot_in_bounds(f.len() as int, start, index);
    let t = flash_saved(f, start, index, b, h);
    assert(flash_slot(t, start, index) =~= padded(b) + h);
    let slot = padded(b) + h;
    assert(slot.subrange(SLOT_HASH_OFFSET as int, SLOT_SIZE_BYTES as int) =~= h);
    assert(slot.subrange(0, MAX_BLOCK_SIZE as int) =~= padded(b));
    assert(slot[0] == b[0]);
    let k = choose|k: int| 0 <= k < h.len() && h[k] != 0xFF;
    assert(slot[MAX_BLOCK_SIZE + k] == h[k]);
    lemma_trim_zero_filled(b, (MAX_BLOCK_SIZE - b.len()) as nat);
}

/// Index boundary on flash: the last slot accepts a block and reads it back,
/// and the index equal to the slot count is refused (`save_block` refuses it
/// too, by its contract).
pub proof fn lemma_flash_index_boundary(f: Seq<u8>, start: int, b: Seq<u8>, h: Seq<u8>)
    requires
        0 <= start,
        flash_slot_count(f.len() as int, start) >= 1,
        canonical_block_bytes(b),
        h.len() == HASH_SIZE,
        !all_bytes_equal(h, 0xFF),
    ensures
        flash_read(
            flash_saved(f, start, flash_slot_count(f.len() as int, start) - 1, b, h),
            start,
            flash_slot_count(f.len() as int, start) - 1,
        ) == Ok::<Seq<u8>, StorageError>(padded(b) + h),
        flash_read(f, start, flash_slot_count(f.len() as int, start)) == Err::<Seq<u8>, StorageError>(StorageError::InvalidIndex),
{
    lemma_flash_save_then_read(f, start, flash_slot_count(f.len() as int, start) - 1, b, h);
}

/// Overwrite determinism on flash: saving `a` then `b` at one index leaves the
/// flash exactly as saving `b` alone.
pub proof fn lemma_flash_overwrite_leaves_no_residue(
    f: Seq<u8>,
    start: int,
    index: int,
    a: Seq<u8>,
    ha: Seq<u8>,
    b: Seq<u8>,
    hb: Seq<u8>,
)
    requires
        0 <= start,
        0 <= index < flash_slot_count(f.len() as int, start),
        valid_block_bytes(a),
        valid_block_bytes(b),
        ha.len() == HASH_SIZE,
        hb.len() == HASH_SIZE,
    ensures
        flash_saved(flash_saved(f, start, index, a, ha), start, index, b, hb) == flash_saved(f, start, index, b, hb),
{
    lemma_flash_slot_in_bounds(f.len() as int, start, index);
    assert(flash_saved(flash_saved(f, start, index, a, ha), start, index, b, hb) =~= flash_saved(f, start, index, b, hb));
}

/// Partial-write detection: a slot that is not fully erased never reads as
/// absent, and when its stored hash differs from the hash of its block bytes it
/// is an integrity failure, never a decoded block. A slot with some bytes
/// erased and some programmed is such a slot.
pub proof fn lemma_partial_write_detected(slot: Seq<u8>, computed_hash: Seq<u8>, erased_at: int, programmed_at: int)
    requires
        slot.len() == SLOT_SIZE_BYTES,
        0 <= erased_at < slot.len(),
        0 <= programmed_at < slot.len(),
        slot[erased_at] == 0xFF,
        slot[programmed_at] != 0xFF,
    ensures
        decode_slot(slot, computed_hash) != Err::<Seq<u8>, StorageError>(StorageError::BlockAbsent),
        slot.subrange(SLOT_HASH_OFFSET as int, SLOT_SIZE_BYTES as int) != computed_hash ==> decode_slot(slot, computed_hash) == Err::<Seq<u8>, StorageError>(StorageError::IntegrityFailure),
{
    assert(!all_bytes_equal(slot, 0xFF));
}

/// Absence before write on flash: right after a successful `init`, every valid
/// slot is fully erased and so decodes as absent, whatever hash it is checked
/// against.
pub proof fn lemma_flash_initialized_slots_absent(
    f: Seq<u8>,
    start: int,
    key: Seq<u8>,
    own_node_id: u32,
    init_params: Seq<u8>,
    index: int,
    computed_hash: Seq<u8>,
)
    requires
        0 <= start,
        flash_init_result(f.len() as int, start) is Ok,
        key.len() == PRIVATE_KEY_SIZE,
        init_params.len() == INIT_PARAMS_SIZE,
        0 <= index < flash_slot_count(f.len() as int, start),
    ensures
        flash_read(flash_initialized(f, start, key, own_node_id, init_params), start, index) matches Ok(slot)
            && decode_slot(slot, computed_hash) == Err::<Seq<u8>, StorageError>(StorageError::BlockAbsent),
{
    let v = fresh_record(key, own_node_id, init_params);
    lemma_entry_round_trip(v, 0xFF);
    let size = f.len() as int;
    let m = FLASH_PAGE_SIZE as int;
    let np = pages_from(size, start);
    let erased = filled(f, start, start + np * m, 0xFF);
    lemma_flash_replicas_written(erased, start, encode_entry(v), CONTROL_PLANE_COUNT as nat);
    lemma_flash_slot_in_bounds(size, start, index);
    lemma_layout_fits();
    let p = index / 2;
    let y = size - start;
    let k = 3 + p + 1;
    lemma_fundamental_div_mod(y, m);
    lemma_mod_bound(y, m);
    assert(k * m <= y);
    assert(k <= np) by (nonlinear_arith)
        requires
            k * m <= y,
            y == m * np + y % m,
            0 <= y % m < m,
            m > 0,
    ;
    assert(k * m <= np * m) by (nonlinear_arith)
        requires
            k <= np,
            m > 0,
    ;
    let t = flash_initialized(f, start, key, own_node_id, init_params);
    let slot = flash_slot(t, start, index);
    assert forall|j: int| 0 <= j < slot.len() implies slot[j] == 0xFF by {
        let a = slot_address(start, index) + j;
        assert(slot[j] == t[a]);
        assert(t[a] == erased[a]);
    }
}

/// When every replica page holds the encoding of an encodable record, loading
/// returns that record and writes nothing.
pub proof fn lemma_flash_uniform_replicas_load(f: Seq<u8>, start: int, v: ControlPlaneView)
    requires
        0 <= start,
        control_plane_fits(f.len() as int, start),
        encodable(v),
        forall|r: int| 0 <= r < CONTROL_PLANE_COUNT ==> #[trigger] flash_entry(f, start, r) == encode_entry(v),
    ensures
        flash_load(f, start) == Ok::<ControlPlaneView, StorageError>(v),
        flash_repaired(f, start) == f,
{
    assert(flash_entries(f, start)[0] == flash_entry(f, start, 0));
    lemma_uniform_authoritative(flash_entries(f, start), v, 0xFF);
    lemma_flash_heal_noop(f, start, 0, encode_entry(v), CONTROL_PLANE_COUNT as nat);
}

/// Healing writes nothing when every replica other than `keep` already holds
/// `entry`.
pub proof fn lemma_flash_heal_noop(f: Seq<u8>, start: int, keep: int, entry: Seq<u8>, n: nat)
    requires
        forall|r: int| 0 <= r < n && r != keep ==> #[trigger] flash_entry(f, start, r) == entry,
    ensures
        flash_replicas_healed(f, start, keep, entry, n) == f,
    decreases n,
{
    if n > 0 {
        lemma_flash_heal_noop(f, start, keep, entry, (n - 1) as nat);
    }
}

/// Control-plane round trip on flash: a successful `init(k, n, p)` followed by
/// `load_control_data()` returns exactly `(k, n, p, None)` and repairs nothing.
pub proof fn lemma_flash_init_then_load(f: Seq<u8>, start: int, key: Seq<u8>, own_node_id: u32, init_params: Seq<u8>)
    requires
        0 <= start,
        flash_init_result(f.len() as int, start) is Ok,
        key.len() == PRIVATE_KEY_SIZE,
        init_params.len() == INIT_PARAMS_SIZE,
    ensures
        flash_load(flash_initialized(f, start, key, own_node_id, init_params), start) == Ok::<ControlPlaneView, StorageError>(
            fresh_record(key, own_node_id, init_params),
        ),
        flash_repaired(flash_initialized(f, start, key, own_node_id, init_params), start) == flash_initialized(
            f,
            start,
            key,
            own_node_id,
            init_params,
        ),
{
    let v = fresh_record(key, own_node_id, init_params);
    lemma_entry_round_trip(v, 0xFF);
    let np = pages_from(f.len() as int, start);
    let erased = filled(f, start, start + np * FLASH_PAGE_SIZE, 0xFF);
    lemma_flash_replicas_written(erased, start, encode_entry(v), CONTROL_PLANE_COUNT as nat);
    lemma_flash_uniform_replicas_load(flash_initialized(f, start, key, own_node_id, init_params), start, v);
}

/// The record that loading returns is one that encodes and decodes back.
pub proof fn lemma_flash_loaded_is_encodable(f: Seq<u8>, start: int)
    requires
        0 <= start,
        flash_load(f, start) is Ok,
    ensures
        encodable(flash_load(f, start)->Ok_0),
        flash_repaired(f, start).len() == f.len(),
        control_plane_fits(f.len() as int, start),
{
    let ds = replica_decodes(flash_entries(f, start), 0xFF);
    lemma_first_valid(ds);
    let i = first_valid(ds)->Some_0;
    assert(ds[i] == decode_entry(flash_entry(f, start, i), 0xFF));
    lemma_replica_page_bounds(start, i);
    lemma_decoded_is_encodable(flash_entry(f, start, i), 0xFF);
    let v = flash_load(f, start)->Ok_0;
    lemma_entry_round_trip(v, 0xFF);
    lemma_flash_replicas_healed(f, start, i, encode_entry(v), CONTROL_PLANE_COUNT as nat);
}

/// Read-repair on flash: after a successful load every replica decodes to the
/// record that was returned.
pub proof fn lemma_flash_repair_heals_every_replica(f: Seq<u8>, start: int)
    requires
        0 <= start,
        flash_load(f, start) is Ok,
    ensures
        forall|r: int|
            0 <= r < CONTROL_PLANE_COUNT ==> decode_entry(#[trigger] flash_entry(flash_repaired(f, start), start, r), 0xFF)
                == flash_load(f, start),
{
    let ds = replica_decodes(flash_entries(f, start), 0xFF);
    lemma_first_valid(ds);
    let i = first_valid(ds)->Some_0;
    let v = flash_load(f, start)->Ok_0;
    lemma_flash_loaded_is_encodable(f, start);
    lemma_entry_round_trip(v, 0xFF);
    lemma_flash_replicas_healed(f, start, i, encode_entry(v), CONTROL_PLANE_COUNT as nat);
    assert forall|r: int| 0 <= r < CONTROL_PLANE_COUNT implies decode_entry(
        #[trigger] flash_entry(flash_repaired(f, start), start, r),
        0xFF,
    ) == flash_load(f, start) by {
        assert(ds[i] == decode_entry(flash_entry(f, start, i), 0xFF));
    }
}

/// Replica self-heal on flash: when every replica page holds the encoding of
/// record `v` (as right after `init`) and one byte of one replica page is
/// changed, loading still returns `v`, and afterwards every replica, the
/// damaged one included, decodes to `v`.
pub proof fn lemma_flash_single_byte_damage_heals(f: Seq<u8>, start: int, v: ControlPlaneView, q: int, x: u8)
    requires
        0 <= start,
        control_plane_fits(f.len() as int, start),
        encodable(v),
        forall|r: int| 0 <= r < CONTROL_PLANE_COUNT ==> #[trigger] flash_entry(f, start, r) == encode_entry(v),
        start <= q < start + CONTROL_PLANE_RESERVED_BYTES,
        x != f[q],
    ensures
        flash_load(f.update(q, x), start) == Ok::<ControlPlaneView, StorageError>(v),
        forall|r: int|
            0 <= r < CONTROL_PLANE_COUNT ==> decode_entry(#[trigger] flash_entry(flash_repaired(f.update(q, x), start), start, r), 0xFF)
                == Ok::<ControlPlaneView, StorageError>(v),
{
    let t = f.update(q, x);
    let r0 = lemma_flash_damage_touches_one_replica(f, start, v, q, x);
    lemma_all_but_one_authoritative(flash_entries(t, start), v, r0, 0xFF);
    lemma_flash_repair_heals_every_replica(t, start);
}

/// Changing one byte of the control-plane pages leaves every replica but one
/// as it was.
proof fn lemma_flash_damage_touches_one_replica(f: Seq<u8>, start: int, v: ControlPlaneView, q: int, x: u8) -> (r0: int)
    requires
        0 <= start,
        encodable(v),
        x != f[q],
        control_plane_fits(f.len() as int, start),
        forall|r: int| 0 <= r < CONTROL_PLANE_COUNT ==> #[trigger] flash_entry(f, start, r) == encode_entry(v),
        start <= q < start + CONTROL_PLANE_RESERVED_BYTES,
    ensures
        0 <= r0 < CONTROL_PLANE_COUNT,
        forall|r: int|
            0 <= r < CONTROL_PLANE_COUNT && r != r0 ==> #[trigger] flash_entries(f.update(q, x), start)[r] == encode_entry(v),
        flash_entries(f.update(q, x), start)[r0] == encode_entry(v) || decode_entry(flash_entries(f.update(q, x), start)[r0], 0xFF) is Err,
{
    let t = f.update(q, x);
    let m = FLASH_PAGE_SIZE as int;
    let r0: int = if q < start + m {
        0
    } else if q < start + 2 * m {
        1
    } else {
        2
    };
    assert forall|r: int| 0 <= r < CONTROL_PLANE_COUNT && r != r0 implies #[trigger] flash_entries(t, start)[r] == encode_entry(v) by {
        lemma_replica_page_bounds(start, r);
        assert(flash_entry(f, start, r) == encode_entry(v));
        assert(flash_entry(t, start, r) =~= flash_entry(f, start, r));
    }
    let e = CONTROL_PLANE_ENTRY_SIZE as int;
    let o = q - start - r0 * m;
    lemma_layout_fits();
    lemma_replica_page_bounds(start, r0);
    lemma_entry_round_trip(v, 0xFF);
    let enc = encode_entry(v);
    assert(flash_entry(f, start, r0) == enc);
    if o < e {
        assert(flash_entry(t, start, r0) =~= enc.update(o, x));
        assert(enc[o] == f[q]);
        lemma_entry_one_byte_damage(v, o, x, 0xFF);
    } else {
        assert(flash_entry(t, start, r0) =~= enc);
    }
    r0
}

/// Chain-configuration one-shot on flash: with a loadable record that has no
/// configuration, the first `set_chain_configuration(c)` succeeds, a second one
/// fails with `ChainConfigurationAlreadySet`, and loading afterwards returns the
/// record with exactly `c` as its configuration.
pub proof fn lemma_flash_chain_configuration_set_once(f: Seq<u8>, start: int, c: Seq<u8>)
    requires
        0 <= start,
        flash_load(f, start) matches Ok(v) && v.chain_configuration is None,
        canonical_block_bytes(c),
    ensures
        flash_set_result(f, start) == Ok::<(), StorageError>(()),
        flash_load(flash_after_set(f, start, c), start) matches Ok(w) && w.chain_configuration == Some(c),
        flash_load(flash_after_set(f, start, c), start) == Ok::<ControlPlaneView, StorageError>(
            with_chain_configuration(flash_load(f, start)->Ok_0, c),
        ),
        flash_set_result(flash_after_set(f, start, c), start) == Err::<(), StorageError>(
            StorageError::ChainConfigurationAlreadySet,
        ),
{
    let v = flash_load(f, start)->Ok_0;
    let w = with_chain_configuration(v, c);
    lemma_flash_loaded_is_encodable(f, start);
    assert(encodable(w));
    lemma_entry_round_trip(w, 0xFF);
    let t = flash_repaired(f, start);
    lemma_flash_replicas_written(t, start, encode_entry(w), CONTROL_PLANE_COUNT as nat);
    lemma_flash_uniform_replicas_load(flash_after_set(f, start, c), start, w);
}

pub open spec fn bytes_result_view(r: Result<Vec<u8>, StorageError>) -> Result<Seq<u8>, StorageError> {
    match r {
        Ok(v) => Ok(v@),
        Err(e) => Err(e),
    }
}

/// Flash backend of `RP2040_FLASH_SIZE` bytes over an in-memory flash model.
pub struct Rp2040Backend<const RP2040_FLASH_SIZE: usize> {
    data_storage_start_address: usize,
    max_storage_slots: StorageIndex,
    flash_mock: MockFlash<RP2040_FLASH_SIZE>,
}

impl<const RP2040_FLASH_SIZE: usize> Rp2040Backend<RP2040_FLASH_SIZE> {
    /// Well-formedness: addresses fit the flash interface and the slot count
    /// matches the geometry.
    pub closed spec fn wf(&self) -> bool {
        &&& RP2040_FLASH_SIZE <= u32::MAX
        &&& self.max_storage_slots == flash_slot_count(RP2040_FLASH_SIZE as int, self.data_storage_start_address as int)
    }

    /// The configured start address.
    pub closed spec fn start(&self) -> int {
        self.data_storage_start_address as int
    }

    /// The flash contents.
    pub closed spec fn flash(&self) -> Seq<u8> {
        self.flash_mock@
    }

    fn validate_page_aligned_start_address(data_storage_start_address: usize) -> (r: Result<(), StorageError>)
        ensures
            r is Err <==> data_storage_start_address % FLASH_PAGE_SIZE != 0,
            r is Err ==> r == Err::<(), StorageError>(StorageError::InvalidConfiguration),
    {
        if data_storage_start_address % FLASH_PAGE_SIZE != 0 {
            return Err(StorageError::InvalidConfiguration);
        }
        Ok(())
    }

    fn calculate_max_storage_slots(data_storage_start_address: usize) -> (r: StorageIndex)
        requires
            RP2040_FLASH_SIZE <= u32::MAX,
        ensures
            r == flash_slot_count(RP2040_FLASH_SIZE as int, data_storage_start_address as int),
    {
        let available_bytes = RP2040_FLASH_SIZE.saturating_sub(data_storage_start_address);
        let block_storage_bytes = available_bytes.saturating_sub(CONTROL_PLANE_RESERVED_BYTES);
        let usable_pages = block_storage_bytes / FLASH_PAGE_SIZE;
        proof {
            lemma_layout_fits();
        }
        (usable_pages * BLOCKS_PER_PAGE) as StorageIndex
    }

    /// A backend over a fully erased flash; fails with `InvalidConfiguration`,
    /// before touching the flash, when the start address is not page aligned.
    pub fn new(data_storage_start_address: usize) -> (r: Result<Self, StorageError>)
        requires
            RP2040_FLASH_SIZE <= u32::MAX,
        ensures
            data_storage_start_address % FLASH_PAGE_SIZE != 0 ==> r == Err::<Self, StorageError>(StorageError::InvalidConfiguration),
            data_storage_start_address % FLASH_PAGE_SIZE == 0 ==> (r matches Ok(b) && b.wf() && b.start() == data_storage_start_address
                && b.flash() == Seq::new(RP2040_FLASH_SIZE as nat, |i: int| 0xFFu8)),
    {
        match Self::validate_page_aligned_start_address(data_storage_start_address) {
            Ok(()) => {},
            Err(err) => {
                return Err(err);
            },
        }
        let max_storage_slots = Self::calculate_max_storage_slots(data_storage_start_address);
        Ok(Self { data_storage_start_address, max_storage_slots, flash_mock: MockFlash::new() })
    }

    /// The same as [`Self::new`].
    pub fn new_for_tests(data_storage_start_address: usize) -> (r: Result<Self, StorageError>)
        requires
            RP2040_FLASH_SIZE <= u32::MAX,
        ensures
            data_storage_start_address % FLASH_PAGE_SIZE != 0 ==> r == Err::<Self, StorageError>(StorageError::InvalidConfiguration),
            data_storage_start_address % FLASH_PAGE_SIZE == 0 ==> (r matches Ok(b) && b.wf() && b.start() == data_storage_start_address
                && b.flash() == Seq::new(RP2040_FLASH_SIZE as nat, |i: int| 0xFFu8)),
    {
        Self::new(data_storage_start_address)
    }

    /// Number of block slots.
    pub fn max_storage_slots(&self) -> (r: StorageIndex)
        requires
            self.wf(),
        ensures
            self.flash().len() == RP2040_FLASH_SIZE,
            r == flash_slot_count(RP2040_FLASH_SIZE as int, self.start()),
    {
        self.max_storage_slots
    }

    /// The configured start address.
    pub fn data_storage_start_address(&self) -> (r: usize)
        ensures
            r == self.start(),
    {
        self.data_storage_start_address
    }

    /// Moves the start address, with no check and no change to the flash;
    /// `init` refuses an address that is not page aligned.
    pub fn set_data_storage_start_address(&mut self, data_storage_start_address: usize)
        requires
            old(self).wf(),
        ensures
            old(self).flash().len() == RP2040_FLASH_SIZE,
            final(self).wf(),
            final(self).start() == data_storage_start_address,
            final(self).flash() == old(self).flash(),
    {
        self.max_storage_slots = Self::calculate_max_storage_slots(data_storage_start_address);
        self.data_storage_start_address = data_storage_start_address;
    }

    fn page_flash_address(&self, mapping: &Rp2040SlotMapping) -> (r: usize)
        requires
            page_address(self.start(), mapping.page_index as int) + FLASH_PAGE_SIZE <= RP2040_FLASH_SIZE,
            0 <= page_address(self.start(), mapping.page_index as int),
        ensures
            r == page_address(self.start(), mapping.page_index as int),
    {
        proof {
            assert(0 <= mapping.page_index * FLASH_PAGE_SIZE) by (nonlinear_arith)
                requires
                    0 <= mapping.page_index,
            ;
        }
        self.data_storage_start_address + CONTROL_PLANE_RESERVED_BYTES + mapping.page_index as usize
            * FLASH_PAGE_SIZE
    }

    /// Flash address of the slot that `mapping` names.
    pub fn slot_flash_address(&self, mapping: &Rp2040SlotMapping) -> (r: usize)
        requires
            page_address(self.start(), mapping.page_index as int) + FLASH_PAGE_SIZE <= RP2040_FLASH_SIZE,
            mapping.byte_offset_in_page < FLASH_PAGE_SIZE,
        ensures
            r == page_address(self.start(), mapping.page_index as int) + mapping.byte_offset_in_page,
    {
        proof {
            assert(0 <= mapping.page_index * FLASH_PAGE_SIZE) by (nonlinear_arith)
                requires
                    0 <= mapping.page_index,
            ;
        }
        self.page_flash_address(mapping) + mapping.byte_offset_in_page
    }

    /// Reads the page at `page_address`.
    pub fn read_page(&self, page_address: usize) -> (r: Result<Vec<u8>, StorageError>)
        requires
            self.wf(),
        ensures
            self.flash().len() == RP2040_FLASH_SIZE,
            page_address + FLASH_PAGE_SIZE <= RP2040_FLASH_SIZE ==> (r matches Ok(v) && v@ == self.flash().subrange(page_address as int, page_address + FLASH_PAGE_SIZE)),
            page_address + FLASH_PAGE_SIZE > RP2040_FLASH_SIZE ==> r == Err::<Vec<u8>, StorageError>(StorageError::BackendIo { code: 230 }),
    {
        if page_address > u32::MAX as usize {
            return Err(StorageError::BackendIo { code: 230 });
        }
        match self.flash_mock.read(page_address as u32, FLASH_PAGE_SIZE) {
            Ok(page) => Ok(page),
            Err(code) => Err(StorageError::BackendIo { code }),
        }
    }

    fn erase_page(&mut self, page_address: usize) -> (r: Result<(), StorageError>)
        requires
            old(self).wf(),
            page_address + FLASH_PAGE_SIZE <= RP2040_FLASH_SIZE,
        ensures
            r is Ok,
            final(self).wf(),
            final(self).flash() == filled(old(self).flash(), page_address as int, page_address + FLASH_PAGE_SIZE, 0xFF),
            final(self).start() == old(self).start(),
    {
        let page_end = page_address + FLASH_PAGE_SIZE;
        match self.flash_mock.erase(page_address as u32, page_end as u32) {
            Ok(()) => Ok(()),
            Err(code) => Err(StorageError::BackendIo { code }),
        }
    }

    fn write_page(&mut self, page_address: usize, page: &[u8]) -> (r: Result<(), StorageError>)
        requires
            old(self).wf(),
            page_address + FLASH_PAGE_SIZE <= RP2040_FLASH_SIZE,
            page@.len() == FLASH_PAGE_SIZE,
        ensures
            r is Ok,
            final(self).wf(),
            final(self).flash() == overwrite(old(self).flash(), page_address as int, page@),
            final(self).start() == old(self).start(),
    {
        match self.flash_mock.write(page_address as u32, page) {
            Ok(()) => Ok(()),
            Err(code) => Err(StorageError::BackendIo { code }),
        }
    }
    fn encode_block_to_slot(
        page_buffer: &[u8],
        mapping: &Rp2040SlotMapping,
        block: &Block,
        block_hash: &[u8; HASH_SIZE],
    ) -> (r: Vec<u8>)
        requires
            page_buffer@.len() == FLASH_PAGE_SIZE,
            mapping.byte_offset_in_page + SLOT_SIZE_BYTES <= FLASH_PAGE_SIZE,
        ensures
            r@ == overwrite(page_buffer@, mapping.byte_offset_in_page as int, padded(block@) + block_hash@),
            r@.len() == FLASH_PAGE_SIZE,
    {
        let slot_start = mapping.byte_offset_in_page;
        let slot_end = slot_start + SLOT_SIZE_BYTES;
        let mut out = copy_range(page_buffer, 0, slot_start);
        let block_bytes = block.padded_bytes();
        extend_bytes(&mut out, block_bytes.as_slice());
        extend_bytes(&mut out, block_hash);
        extend_bytes(&mut out, slice_subrange(page_buffer, slot_end, FLASH_PAGE_SIZE));
        proof {
            assert(out@ =~= overwrite(page_buffer@, slot_start as int, padded(block@) + block_hash@));
        }
        out
    }

    fn write_slot(&mut self, mapping: &Rp2040SlotMapping, block: &Block, block_hash: &[u8; HASH_SIZE]) -> (r: Result<(), StorageError>)
        requires
            old(self).wf(),
            page_address(old(self).start(), mapping.page_index as int) + FLASH_PAGE_SIZE <= RP2040_FLASH_SIZE,
            0 <= page_address(old(self).start(), mapping.page_index as int),
            mapping.byte_offset_in_page + SLOT_SIZE_BYTES <= FLASH_PAGE_SIZE,
        ensures
            r is Ok,
            final(self).wf(),
            final(self).start() == old(self).start(),
            final(self).flash() == overwrite(
                old(self).flash(),
                page_address(old(self).start(), mapping.page_index as int) + mapping.byte_offset_in_page,
                padded(block@) + block_hash@,
            ),
    {
        let page_address = self.page_flash_address(mapping);
        let page_buffer = match self.read_page(page_address) {
            Ok(page) => page,
            Err(err) => {
                return Err(err);
            },
        };
        let updated = Self::encode_block_to_slot(page_buffer.as_slice(), mapping, block, block_hash);
        match self.erase_page(page_address) {
            Ok(()) => {},
            Err(err) => {
                return Err(err);
            },
        }
        let r = self.write_page(page_address, updated.as_slice());
        proof {
            let a = page_address as int;
            let o = mapping.byte_offset_in_page as int;
            assert(self.flash() =~= overwrite(old(self).flash(), a + o, padded(block@) + block_hash@));
        }
        r
    }

    /// Stores `block` in slot `storage_index`, followed by `block_hash`, which
    /// must be the integrity hash of the block zero-filled to `MAX_BLOCK_SIZE`
    /// bytes (see [`Block::padded_bytes`]). The page holding the slot is read,
    /// changed in that slot only, erased and programmed back.
    pub fn save_block(&mut self, storage_index: StorageIndex, block: &Block, block_hash: &[u8; HASH_SIZE]) -> (r: Result<(), StorageError>)
        requires
            old(self).wf(),
        ensures
            old(self).flash().len() == RP2040_FLASH_SIZE,
            final(self).wf(),
            final(self).start() == old(self).start(),
            storage_index >= flash_slot_count(RP2040_FLASH_SIZE as int, old(self).start()) ==> r == Err::<(), StorageError>(StorageError::InvalidIndex) && final(self).flash() == old(self).flash(),
            storage_index < flash_slot_count(RP2040_FLASH_SIZE as int, old(self).start()) ==> r is Ok && final(self).flash() == flash_saved(old(self).flash(), old(self).start(), storage_index as int, block@, block_hash@),
    {
        if storage_index >= self.max_storage_slots {
            return Err(StorageError::InvalidIndex);
        }
        let mapping = map_storage_index(storage_index);
        proof {
            lemma_layout_fits();
            lemma_flash_slot_in_bounds(RP2040_FLASH_SIZE as int, self.start(), storage_index as int);
        }
        self.write_slot(&mapping, block, block_hash)
    }

    /// The raw bytes of slot `storage_index`: the block bytes, then the stored
    /// hash.
    pub fn read_slot_bytes(&self, storage_index: StorageIndex) -> (r: Result<Vec<u8>, StorageError>)
        requires
            self.wf(),
        ensures
            self.flash().len() == RP2040_FLASH_SIZE,
            bytes_result_view(r) == flash_read(self.flash(), self.start(), storage_index as int),
            r matches Ok(v) ==> v@.len() == SLOT_SIZE_BYTES,
    {
        if storage_index >= self.max_storage_slots {
            return Err(StorageError::InvalidIndex);
        }
        let mapping = map_storage_index(storage_index);
        proof {
            lemma_layout_fits();
            lemma_flash_slot_in_bounds(RP2040_FLASH_SIZE as int, self.start(), storage_index as int);
        }
        let page_address = self.page_flash_address(&mapping);
        let page_buffer = match self.read_page(page_address) {
            Ok(page) => page,
            Err(err) => {
                return Err(err);
            },
        };
        let slot = copy_range(page_buffer.as_slice(), mapping.byte_offset_in_page, SLOT_SIZE_BYTES);
        proof {
            assert(slot@ =~= flash_slot(self.flash(), self.start(), storage_index as int));
        }
        Ok(slot)
    }

    /// Decodes the raw bytes of a slot, given the integrity hash of its first
    /// `MAX_BLOCK_SIZE` bytes: `BlockAbsent` if every byte is erased,
    /// `IntegrityFailure` if the stored hash differs or the bytes do not form a
    /// block, else the block.
    pub fn decode_slot_block(slot_bytes: &[u8], computed_hash: &[u8; HASH_SIZE]) -> (r: Result<Block, StorageError>)
        requires
            slot_bytes@.len() == SLOT_SIZE_BYTES,
        ensures
            crate::backend_memory::block_result_view(r) == decode_slot(slot_bytes@, computed_hash@),
    {
        if all_equal(slot_bytes, 0xFF) {
            return Err(StorageError::BlockAbsent);
        }
        let stored_hash = slice_subrange(slot_bytes, SLOT_HASH_OFFSET, SLOT_SIZE_BYTES);
        if !same_bytes(stored_hash, computed_hash) {
            return Err(StorageError::IntegrityFailure);
        }
        match Block::from_bytes(slice_subrange(slot_bytes, 0, MAX_BLOCK_SIZE)) {
            Ok(block) => Ok(block),
            Err(_) => Err(StorageError::IntegrityFailure),
        }
    }

    /// Flips every bit of the flash byte at `address`, to simulate damage.
    pub fn with_corrupted_mock_byte(&mut self, address: usize)
        requires
            old(self).wf(),
            address < RP2040_FLASH_SIZE,
        ensures
            old(self).flash().len() == RP2040_FLASH_SIZE,
            final(self).wf(),
            final(self).start() == old(self).start(),
            final(self).flash() == old(self).flash().update(address as int, old(self).flash()[address as int] ^ 0xFF),
    {
        let current = match self.flash_mock.read(address as u32, 1) {
            Ok(bytes) => bytes[0],
            Err(_) => {
                return;
            },
        };
        let flipped: [u8; 1] = [current ^ 0xFF];
        let _ = self.flash_mock.write(address as u32, &flipped);
        proof {
            assert(self.flash() =~= old(self).flash().update(address as int, old(self).flash()[address as int] ^ 0xFF));
        }
    }

    /// Flips every bit of byte `byte_index` of slot `storage_index`.
    pub fn with_corrupted_mock_slot_byte(&mut self, storage_index: StorageIndex, byte_index: usize)
        requires
            old(self).wf(),
            storage_index < flash_slot_count(RP2040_FLASH_SIZE as int, old(self).start()),
            byte_index < SLOT_SIZE_BYTES,
        ensures
            old(self).flash().len() == RP2040_FLASH_SIZE,
            final(self).wf(),
            final(self).start() == old(self).start(),
            final(self).flash() == old(self).flash().update(
                slot_address(old(self).start(), storage_index as int) + byte_index,
                old(self).flash()[slot_address(old(self).start(), storage_index as int) + byte_index] ^ 0xFF,
            ),
    {
        let mapping = map_storage_index(storage_index);
        proof {
            lemma_layout_fits();
            lemma_flash_slot_in_bounds(RP2040_FLASH_SIZE as int, self.start(), storage_index as int);
        }
        let slot_start = self.slot_flash_address(&mapping);
        self.with_corrupted_mock_byte(slot_start + byte_index);
    }

    /// Programs `slot_bytes` over slot `storage_index` as they are, to simulate
    /// an interrupted or foreign write.
    pub fn write_mock_slot_raw(&mut self, storage_index: StorageIndex, slot_bytes: &[u8])
        requires
            old(self).wf(),
            storage_index < flash_slot_count(RP2040_FLASH_SIZE as int, old(self).start()),
            slot_bytes@.len() == SLOT_SIZE_BYTES,
        ensures
            old(self).flash().len() == RP2040_FLASH_SIZE,
            final(self).wf(),
            final(self).start() == old(self).start(),
            final(self).flash() == overwrite(old(self).flash(), slot_address(old(self).start(), storage_index as int), slot_bytes@),
    {
        let mapping = map_storage_index(storage_index);
        proof {
            lemma_layout_fits();
            lemma_flash_slot_in_bounds(RP2040_FLASH_SIZE as int, self.start(), storage_index as int);
        }
        let slot_start = self.slot_flash_address(&mapping);
        let _ = self.flash_mock.write(slot_start as u32, slot_bytes);
    }
    /// Flash address of the page of replica `replica_index`.
    pub fn control_plane_page_address(&self, replica_index: usize) -> (r: usize)
        requires
            replica_index < CONTROL_PLANE_COUNT,
            control_plane_fits(RP2040_FLASH_SIZE as int, self.start()),
        ensures
            r == self.start() + replica_index * FLASH_PAGE_SIZE,
    {
        proof {
            lemma_replica_page_bounds(self.start(), replica_index as int);
        }
        self.data_storage_start_address + replica_index * FLASH_PAGE_SIZE
    }

    fn read_control_entry(&self, replica_index: usize) -> (r: Result<Vec<u8>, StorageError>)
        requires
            self.wf(),
            replica_index < CONTROL_PLANE_COUNT,
            control_plane_fits(RP2040_FLASH_SIZE as int, self.start()),
        ensures
            r matches Ok(v) && v@ == flash_entry(self.flash(), self.start(), replica_index as int)
                && v@.len() == CONTROL_PLANE_ENTRY_SIZE,
    {
        proof {
            lemma_replica_page_bounds(self.start(), replica_index as int);
            lemma_layout_fits();
        }
        let page_address = self.control_plane_page_address(replica_index);
        let page = match self.read_page(page_address) {
            Ok(page) => page,
            Err(err) => {
                return Err(err);
            },
        };
        let entry = copy_range(page.as_slice(), 0, CONTROL_PLANE_ENTRY_SIZE);
        proof {
            assert(entry@ =~= flash_entry(self.flash(), self.start(), replica_index as int));
        }
        Ok(entry)
    }

    fn write_control_entry_to_replica(&mut self, replica_index: usize, encoded: &[u8]) -> (r: Result<(), StorageError>)
        requires
            old(self).wf(),
            replica_index < CONTROL_PLANE_COUNT,
            control_plane_fits(RP2040_FLASH_SIZE as int, old(self).start()),
            encoded@.len() == CONTROL_PLANE_ENTRY_SIZE,
        ensures
            r is Ok,
            final(self).wf(),
            final(self).start() == old(self).start(),
            final(self).flash() == overwrite(old(self).flash(), old(self).start() + replica_index * FLASH_PAGE_SIZE, replica_page(encoded@)),
    {
        proof {
            lemma_replica_page_bounds(self.start(), replica_index as int);
            lemma_layout_fits();
        }
        let page_address = self.control_plane_page_address(replica_index);
        let mut page: Vec<u8> = Vec::with_capacity(FLASH_PAGE_SIZE);
        extend_bytes(&mut page, encoded);
        push_zeros(&mut page, FLASH_PAGE_SIZE - CONTROL_PLANE_ENTRY_SIZE);
        match self.erase_page(page_address) {
            Ok(()) => {},
            Err(err) => {
                return Err(err);
            },
        }
        let r = self.write_page(page_address, page.as_slice());
        proof {
            assert(self.flash() =~= overwrite(old(self).flash(), page_address as int, replica_page(encoded@)));
        }
        r
    }

    fn write_control_record_to_all_replicas(&mut self, record: &ControlPlaneData)
        requires
            old(self).wf(),
            control_plane_fits(RP2040_FLASH_SIZE as int, old(self).start()),
        ensures
            final(self).wf(),
            final(self).start() == old(self).start(),
            final(self).flash() == flash_replicas_written(old(self).flash(), old(self).start(), encode_entry(record@), CONTROL_PLANE_COUNT as nat),
    {
        let encoded = encode_control_record(record);
        let mut replica_index: usize = 0;
        while replica_index < CONTROL_PLANE_COUNT
            invariant
                replica_index <= CONTROL_PLANE_COUNT,
                self.wf(),
                self.start() == old(self).start(),
                control_plane_fits(RP2040_FLASH_SIZE as int, self.start()),
                encoded@ == encode_entry(record@),
                encoded@.len() == CONTROL_PLANE_ENTRY_SIZE,
                self.flash() == flash_replicas_written(old(self).flash(), old(self).start(), encoded@, replica_index as nat),
            decreases CONTROL_PLANE_COUNT - replica_index,
        {
            let _ = self.write_control_entry_to_replica(replica_index, encoded.as_slice());
            replica_index += 1;
        }
    }

    /// Reads every replica, takes the first valid one as authoritative and
    /// rewrites each other replica that differs from its encoding.
    fn load_primary_control_record_and_repair(&mut self) -> (r: Result<ControlPlaneData, StorageError>)
        requires
            old(self).wf(),
        ensures
            final(self).wf(),
            final(self).start() == old(self).start(),
            crate::backend_memory::data_result_view(r) == flash_load(old(self).flash(), old(self).start()),
            final(self).flash() == flash_repaired(old(self).flash(), old(self).start()),
            r matches Ok(d) ==> d.version == CONTROL_PLANE_VERSION,
    {
        if self.data_storage_start_address > RP2040_FLASH_SIZE
            || RP2040_FLASH_SIZE - self.data_storage_start_address < CONTROL_PLANE_RESERVED_BYTES {
            return Err(StorageError::BackendIo { code: 230 });
        }
        let mut entries: Vec<Vec<u8>> = Vec::with_capacity(CONTROL_PLANE_COUNT);
        let mut index: usize = 0;
        while index < CONTROL_PLANE_COUNT
            invariant
                index <= CONTROL_PLANE_COUNT,
                self.wf(),
                control_plane_fits(RP2040_FLASH_SIZE as int, self.start()),
                entries@.len() == index,
                forall|k: int| 0 <= k < index ==> (#[trigger] entries@[k])@ == flash_entry(self.flash(), self.start(), k),
                forall|k: int| 0 <= k < index ==> (#[trigger] entries@[k])@.len() == CONTROL_PLANE_ENTRY_SIZE,
            decreases CONTROL_PLANE_COUNT - index,
        {
            let entry = match self.read_control_entry(index) {
                Ok(entry) => entry,
                Err(err) => {
                    return Err(err);
                },
            };
            entries.push(entry);
            index += 1;
        }
        proof {
            assert(vec_views(entries@) == flash_entries(self.flash(), self.start()));
        }
        let (first_index, record) = match select_authoritative(&entries, 0xFF) {
            Ok(found) => found,
            Err(err) => {
                return Err(err);
            },
        };
        let encoded = encode_control_record(&record);
        let mut repair_index: usize = 0;
        while repair_index < CONTROL_PLANE_COUNT
            invariant
                repair_index <= CONTROL_PLANE_COUNT,
                self.wf(),
                self.start() == old(self).start(),
                control_plane_fits(RP2040_FLASH_SIZE as int, self.start()),
                entries@.len() == CONTROL_PLANE_COUNT,
                forall|k: int| 0 <= k < CONTROL_PLANE_COUNT ==> (#[trigger] entries@[k])@ == flash_entry(old(self).flash(), old(self).start(), k),
                encoded@.len() == CONTROL_PLANE_ENTRY_SIZE,
                self.flash() == flash_replicas_healed(old(self).flash(), old(self).start(), first_index as int, encoded@, repair_index as nat),
            decreases CONTROL_PLANE_COUNT - repair_index,
        {
            if repair_index != first_index && !same_bytes(entries[repair_index].as_slice(), encoded.as_slice()) {
                let _ = self.write_control_entry_to_replica(repair_index, encoded.as_slice());
            }
            repair_index += 1;
        }
        Ok(record)
    }

    /// Erases every page from the start address to the end of the flash and
    /// writes a fresh record to every replica. Fails with
    /// `InvalidConfiguration` before any write when the start address is not
    /// page aligned, and with `BackendIo` before any write when the replicas do
    /// not fit.
    pub fn init(
        &mut self,
        private_key: [u8; PRIVATE_KEY_SIZE],
        own_node_id: u32,
        init_params: [u8; INIT_PARAMS_SIZE],
    ) -> (r: Result<(), StorageError>)
        requires
            old(self).wf(),
        ensures
            old(self).flash().len() == RP2040_FLASH_SIZE,
            final(self).wf(),
            final(self).start() == old(self).start(),
            r == flash_init_result(RP2040_FLASH_SIZE as int, old(self).start()),
            final(self).flash() == flash_initialized(old(self).flash(), old(self).start(), private_key@, own_node_id, init_params@),
    {
        match Self::validate_page_aligned_start_address(self.data_storage_start_address) {
            Ok(()) => {},
            Err(err) => {
                return Err(err);
            },
        }
        if self.data_storage_start_address > RP2040_FLASH_SIZE
            || RP2040_FLASH_SIZE - self.data_storage_start_address < CONTROL_PLANE_RESERVED_BYTES {
            return Err(StorageError::BackendIo { code: 231 });
        }
        let start = self.data_storage_start_address;
        let page_count = (RP2040_FLASH_SIZE - start) / FLASH_PAGE_SIZE;
        proof {
            let x = RP2040_FLASH_SIZE - start;
            lemma_fundamental_div_mod(x as int, FLASH_PAGE_SIZE as int);
            lemma_mod_bound(x as int, FLASH_PAGE_SIZE as int);
        }
        let mut page: usize = 0;
        while page < page_count
            invariant
                page <= page_count,
                page_count == (RP2040_FLASH_SIZE - start) / (FLASH_PAGE_SIZE as int),
                page_count * FLASH_PAGE_SIZE <= RP2040_FLASH_SIZE - start,
                start == self.start(),
                self.wf(),
                self.flash() == filled(old(self).flash(), start as int, start + page * FLASH_PAGE_SIZE, 0xFF),
            decreases page_count - page,
        {
            proof {
                assert((page + 1) * FLASH_PAGE_SIZE <= page_count * FLASH_PAGE_SIZE) by (nonlinear_arith)
                    requires
                        page + 1 <= page_count,
                ;
            }
            let page_address = start + page * FLASH_PAGE_SIZE;
            let _ = self.erase_page(page_address);
            page += 1;
            proof {
                assert(self.flash() =~= filled(old(self).flash(), start as int, start + page * FLASH_PAGE_SIZE, 0xFF));
            }
        }
        let record = ControlPlaneData {
            version: CONTROL_PLANE_VERSION,
            private_key,
            own_node_id,
            init_params,
            chain_configuration: None,
        };
        self.write_control_record_to_all_replicas(&record);
        Ok(())
    }

    /// Stores the chain configuration once: repairs the replicas, refuses if a
    /// configuration is already present, else writes the augmented record to
    /// every replica.
    pub fn set_chain_configuration(&mut self, block: &Block) -> (r: Result<(), StorageError>)
        requires
            old(self).wf(),
        ensures
            old(self).flash().len() == RP2040_FLASH_SIZE,
            final(self).wf(),
            final(self).start() == old(self).start(),
            r == flash_set_result(old(self).flash(), old(self).start()),
            final(self).flash() == flash_after_set(old(self).flash(), old(self).start(), block@),
    {
        let mut record = match self.load_primary_control_record_and_repair() {
            Ok(record) => record,
            Err(err) => {
                return Err(err);
            },
        };
        if record.chain_configuration.is_some() {
            return Err(StorageError::ChainConfigurationAlreadySet);
        }
        let configuration = match Block::from_bytes(block.as_bytes()) {
            Ok(configuration) => configuration,
            Err(_) => {
                return Err(StorageError::BackendIo { code: 1 });
            },
        };
        record.chain_configuration = Some(configuration);
        self.write_control_record_to_all_replicas(&record);
        Ok(())
    }

    /// Returns the authoritative control-plane record, repairing the other
    /// replicas on the way.
    pub fn load_control_data(&mut self) -> (r: Result<ControlPlaneData, StorageError>)
        requires
            old(self).wf(),
        ensures
            old(self).flash().len() == RP2040_FLASH_SIZE,
            final(self).wf(),
            final(self).start() == old(self).start(),
            crate::backend_memory::data_result_view(r) == flash_load(old(self).flash(), old(self).start()),
            final(self).flash() == flash_repaired(old(self).flash(), old(self).start()),
            r matches Ok(d) ==> d.version == CONTROL_PLANE_VERSION,
    {
        self.load_primary_control_record_and_repair()
    }

    /// Decodes a control-plane entry read from this flash, whose blank byte is
    /// `0xFF`.
    pub fn deserialize_control_record(bytes: &[u8]) -> (r: Result<ControlPlaneData, StorageError>)
        requires
            bytes@.len() == CONTROL_PLANE_ENTRY_SIZE,
        ensures
            crate::backend_memory::data_result_view(r) == decode_entry(bytes@, 0xFF),
    {
        crate::control_plane::decode_control_entry(bytes, 0xFF)
    }
}

} // verus!
