//! Backend over a plain byte array: control-plane replicas first, then block
//! slots of exactly `MAX_BLOCK_SIZE` bytes each; a slot whose first byte is
//! zero is empty.

use crate::block::{
    canonical_block_bytes, lemma_trim_zero_filled, padded, trimmed, valid_block_bytes, Block,
};
use crate::bytes::{fill_range, filled, overwrite, write_range, zeros, copy_range, same_bytes};
use crate::control_plane::{
    authoritative, decode_entry, encodable, encode_control_record, encode_entry, first_valid,
    fresh_record, lemma_all_but_one_authoritative, lemma_decoded_is_encodable,
    lemma_entry_one_byte_damage, lemma_entry_round_trip, lemma_first_valid,
    replica_decodes, select_authoritative, vec_views, ControlPlaneData, ControlPlaneView, CONTROL_PLANE_ENTRY_SIZE,
};
use crate::error::StorageError;
use crate::{
    StorageIndex, CONTROL_PLANE_COUNT, CONTROL_PLANE_VERSION, INIT_PARAMS_SIZE, MAX_BLOCK_SIZE,
    PRIVATE_KEY_SIZE,
};
use vstd::prelude::*;
use vstd::slice::slice_subrange;
use vstd::arithmetic::div_mod::{lemma_fundamental_div_mod, lemma_mod_bound};

verus! {

/// Bytes taken by the control-plane replicas at the start of the array.
pub const CONTROL_PLANE_RESERVED_BYTES: usize = CONTROL_PLANE_COUNT * CONTROL_PLANE_ENTRY_SIZE;

/// Number of whole slots after the control plane in an array of `size` bytes,
/// capped to the index type.
pub open spec fn memory_slot_count(size: int) -> int {
    if size > CONTROL_PLANE_RESERVED_BYTES {
        let n = (size - CONTROL_PLANE_RESERVED_BYTES) / (MAX_BLOCK_SIZE as int);
        if n > u32::MAX {
            u32::MAX as int
        } else {
            n
        }
    } else {
        0
    }
}

pub open spec fn slot_start(index: int) -> int {
    CONTROL_PLANE_RESERVED_BYTES + index * MAX_BLOCK_SIZE
}

/// The bytes of slot `index`.
pub open spec fn slot_at(s: Seq<u8>, index: int) -> Seq<u8> {
    s.subrange(slot_start(index), slot_start(index) + MAX_BLOCK_SIZE)
}

/// The bytes of replica `r`.
pub open spec fn entry_at(s: Seq<u8>, r: int) -> Seq<u8> {
    s.subrange(r * CONTROL_PLANE_ENTRY_SIZE, r * CONTROL_PLANE_ENTRY_SIZE + CONTROL_PLANE_ENTRY_SIZE)
}

pub open spec fn memory_entries(s: Seq<u8>) -> Seq<Seq<u8>> {
    Seq::new(CONTROL_PLANE_COUNT as nat, |r: int| entry_at(s, r))
}

/// What `read_block(index)` returns on array contents `s`.
pub open spec fn memory_read(s: Seq<u8>, index: int) -> Result<Seq<u8>, StorageError> {
    if index >= memory_slot_count(s.len() as int) {
        Err(StorageError::InvalidIndex)
    } else if slot_at(s, index)[0] == 0 {
        Err(StorageError::BlockAbsent)
    } else if !valid_block_bytes(slot_at(s, index)) {
        Err(StorageError::BackendIo { code: 2 })
    } else {
        Ok(trimmed(slot_at(s, index)))
    }
}

/// The array after a successful `save_block(index, b)`.
pub open spec fn memory_saved(s: Seq<u8>, index: int, b: Seq<u8>) -> Seq<u8> {
    overwrite(s, slot_start(index), padded(b))
}

/// `s` with the first `n` replicas replaced by `entry`.
pub open spec fn replicas_written(s: Seq<u8>, entry: Seq<u8>, n: nat) -> Seq<u8>
    decreases n,
{
    if n == 0 {
        s
    } else {
        overwrite(replicas_written(s, entry, (n - 1) as nat), (n - 1) * CONTROL_PLANE_ENTRY_SIZE, entry)
    }
}

/// `s` with each of the first `n` replicas other than `keep` that differs from
/// `entry` replaced by `entry`.
pub open spec fn replicas_healed(s: Seq<u8>, keep: int, entry: Seq<u8>, n: nat) -> Seq<u8>
    decreases n,
{
    if n == 0 {
        s
    } else {
        let prev = replicas_healed(s, keep, entry, (n - 1) as nat);
        let r = n - 1;
        if r != keep && entry_at(s, r) != entry {
            overwrite(prev, r * CONTROL_PLANE_ENTRY_SIZE, entry)
        } else {
            prev
        }
    }
}

/// The record that `load_control_data` returns on array contents `s`.
pub open spec fn memory_load(s: Seq<u8>) -> Result<ControlPlaneView, StorageError> {
    match authoritative(memory_entries(s), 0) {
        Ok((_, v)) => Ok(v),
        Err(e) => Err(e),
    }
}

/// The array after the replica repair that loading performs.
pub open spec fn memory_repaired(s: Seq<u8>) -> Seq<u8> {
    match authoritative(memory_entries(s), 0) {
        Ok((f, v)) => replicas_healed(s, f, encode_entry(v), CONTROL_PLANE_COUNT as nat),
        Err(_) => s,
    }
}

/// The array right after `init(key, own_node_id, init_params)`.
pub open spec fn memory_initialized(size: nat, key: Seq<u8>, own_node_id: u32, init_params: Seq<u8>) -> Seq<u8> {
    replicas_written(
        zeros(size),
        encode_entry(fresh_record(key, own_node_id, init_params)),
        CONTROL_PLANE_COUNT as nat,
    )
}

/// `v` with the chain configuration set to `c`.
pub open spec fn with_chain_configuration(v: ControlPlaneView, c: Seq<u8>) -> ControlPlaneView {
    ControlPlaneView {
        private_key: v.private_key,
        own_node_id: v.own_node_id,
        init_params: v.init_params,
        chain_configuration: Some(c),
    }
}

/// What `set_chain_configuration(c)` returns on array contents `s`.
pub open spec fn memory_set_result(s: Seq<u8>) -> Result<(), StorageError> {
    match memory_load(s) {
        Err(e) => Err(e),
        Ok(v) => if v.chain_configuration is Some {
            Err(StorageError::ChainConfigurationAlreadySet)
        } else {
            Ok(())
        },
    }
}

/// The array after `set_chain_configuration(c)` on contents `s`.
pub open spec fn memory_after_set(s: Seq<u8>, c: Seq<u8>) -> Seq<u8> {
    match memory_load(s) {
        Err(_) => s,
        Ok(v) => if v.chain_configuration is Some {
            memory_repaired(s)
        } else {
            replicas_written(
                memory_repaired(s),
                encode_entry(with_chain_configuration(v, c)),
                CONTROL_PLANE_COUNT as nat,
            )
        },
    }
}

pub open spec fn block_result_view(r: Result<Block, StorageError>) -> Result<Seq<u8>, StorageError> {
    match r {
        Ok(b) => Ok(b@),
        Err(e) => Err(e),
    }
}

pub open spec fn data_result_view(r: Result<ControlPlaneData, StorageError>) -> Result<ControlPlaneView, StorageError> {
    match r {
        Ok(d) => Ok(d@),
        Err(e) => Err(e),
    }
}

/// Replica `r` lies inside the control-plane region.
pub proof fn lemma_entry_bounds(s: Seq<u8>, r: int)
    requires
        s.len() >= CONTROL_PLANE_RESERVED_BYTES,
        0 <= r < CONTROL_PLANE_COUNT,
    ensures
        0 <= r * CONTROL_PLANE_ENTRY_SIZE,
        r * CONTROL_PLANE_ENTRY_SIZE + CONTROL_PLANE_ENTRY_SIZE <= CONTROL_PLANE_RESERVED_BYTES,
        entry_at(s, r).len() == CONTROL_PLANE_ENTRY_SIZE,
{
    assert(r == 0 || r == 1 || r == 2);
}

/// Writing one replica changes that replica only.
pub proof fn lemma_entry_overwrite(s: Seq<u8>, q: int, e: Seq<u8>)
    requires
        s.len() >= CONTROL_PLANE_RESERVED_BYTES,
        0 <= q < CONTROL_PLANE_COUNT,
        e.len() == CONTROL_PLANE_ENTRY_SIZE,
    ensures
        overwrite(s, q * CONTROL_PLANE_ENTRY_SIZE, e).len() == s.len(),
        forall|r: int|
            0 <= r < CONTROL_PLANE_COUNT ==> #[trigger] entry_at(overwrite(s, q * CONTROL_PLANE_ENTRY_SIZE, e), r) == if r == q {
                e
            } else {
                entry_at(s, r)
            },
        forall|j: int|
            CONTROL_PLANE_RESERVED_BYTES <= j < s.len() ==> #[trigger] overwrite(s, q * CONTROL_PLANE_ENTRY_SIZE, e)[j] == s[j],
{
    let t = overwrite(s, q * CONTROL_PLANE_ENTRY_SIZE, e);
    assert forall|r: int| 0 <= r < CONTROL_PLANE_COUNT implies #[trigger] entry_at(t, r) == if r == q {
        e
    } else {
        entry_at(s, r)
    } by {
        if r == q {
            assert(entry_at(t, r) =~= e);
        } else {
            assert(entry_at(t, r) =~= entry_at(s, r));
        }
    }
}

/// Replicas written so far hold `entry`; the others and the slots are untouched.
pub proof fn lemma_replicas_written(s: Seq<u8>, entry: Seq<u8>, n: nat)
    requires
        s.len() >= CONTROL_PLANE_RESERVED_BYTES,
        n <= CONTROL_PLANE_COUNT,
        entry.len() == CONTROL_PLANE_ENTRY_SIZE,
    ensures
        replicas_written(s, entry, n).len() == s.len(),
        forall|r: int| 0 <= r < CONTROL_PLANE_COUNT ==> #[trigger] entry_at(replicas_written(s, entry, n), r) == if r < n {
            entry
        } else {
            entry_at(s, r)
        },
        forall|j: int|
            CONTROL_PLANE_RESERVED_BYTES <= j < s.len() ==> #[trigger] replicas_written(s, entry, n)[j] == s[j],
    decreases n,
{
    if n > 0 {
        lemma_replicas_written(s, entry, (n - 1) as nat);
        lemma_entry_overwrite(replicas_written(s, entry, (n - 1) as nat), n - 1, entry);
    }
}

/// Healed replicas hold `entry`; the others and the slots are untouched.
pub proof fn lemma_replicas_healed(s: Seq<u8>, keep: int, entry: Seq<u8>, n: nat)
    requires
        s.len() >= CONTROL_PLANE_RESERVED_BYTES,
        n <= CONTROL_PLANE_COUNT,
        entry.len() == CONTROL_PLANE_ENTRY_SIZE,
    ensures
        replicas_healed(s, keep, entry, n).len() == s.len(),
        forall|r: int| 0 <= r < CONTROL_PLANE_COUNT ==> #[trigger] entry_at(replicas_healed(s, keep, entry, n), r) == if r < n && r != keep {
            entry
        } else {
            entry_at(s, r)
        },
        forall|j: int|
            CONTROL_PLANE_RESERVED_BYTES <= j < s.len() ==> #[trigger] replicas_healed(s, keep, entry, n)[j] == s[j],
    decreases n,
{
    if n > 0 {
        let prev = replicas_healed(s, keep, entry, (n - 1) as nat);
        lemma_replicas_healed(s, keep, entry, (n - 1) as nat);
        lemma_entry_overwrite(prev, n - 1, entry);
    }
}

/// Every slot below the slot count lies inside the array.
pub proof fn lemma_slot_in_bounds(size: int, index: int)
    requires
        0 <= index < memory_slot_count(size),
    ensures
        CONTROL_PLANE_RESERVED_BYTES <= slot_start(index),
        slot_start(index) + MAX_BLOCK_SIZE <= size,
{
    let x = size - CONTROL_PLANE_RESERVED_BYTES;
    let m = MAX_BLOCK_SIZE as int;
    let q = x / m;
    lemma_fundamental_div_mod(x, m);
    lemma_mod_bound(x, m);
    assert((index + 1) * m <= x) by (nonlinear_arith)
        requires
            x == m * q + x % m,
            0 <= x % m,
            index + 1 <= q,
            m > 0,
    ;
    assert(0 <= index * m) by (nonlinear_arith)
        requires
            0 <= index,
            m > 0,
    ;
}

/// Round trip: a block saved at a valid index reads back byte-identical.
pub proof fn lemma_save_then_read(s: Seq<u8>, index: int, b: Seq<u8>)
    requires
        0 <= index < memory_slot_count(s.len() as int),
        canonical_block_bytes(b),
    ensures
        memory_read(memory_saved(s, index, b), index) == Ok::<Seq<u8>, StorageError>(b),
{
    lemma_slot_in_bounds(s.len() as int, index);
    let t = memory_saved(s, index, b);
    assert(slot_at(t, index) =~= padded(b));
    assert(padded(b)[0] == b[0]);
    lemma_trim_zero_filled(b, (MAX_BLOCK_SIZE - b.len()) as nat);
}

/// Index boundary: the last slot accepts a block and reads it back, and the
/// index equal to the slot count is refused (`save_block` refuses it too, by
/// its contract).
pub proof fn lemma_index_boundary(s: Seq<u8>, b: Seq<u8>)
    requires
        memory_slot_count(s.len() as int) >= 1,
        canonical_block_bytes(b),
    ensures
        memory_read(memory_saved(s, memory_slot_count(s.len() as int) - 1, b), memory_slot_count(s.len() as int) - 1) is Ok,
        memory_read(s, memory_slot_count(s.len() as int)) == Err::<Seq<u8>, StorageError>(StorageError::InvalidIndex),
{
    lemma_save_then_read(s, memory_slot_count(s.len() as int) - 1, b);
}

/// Overwrite determinism: saving `a` then `b` at one index leaves the array
/// exactly as saving `b` alone, so nothing of `a` remains in the slot.
pub proof fn lemma_overwrite_leaves_no_residue(s: Seq<u8>, index: int, a: Seq<u8>, b: Seq<u8>)
    requires
        0 <= index < memory_slot_count(s.len() as int),
        valid_block_bytes(a),
        valid_block_bytes(b),
    ensures
        memory_saved(memory_saved(s, index, a), index, b) == memory_saved(s, index, b),
{
    lemma_slot_in_bounds(s.len() as int, index);
    assert(memory_saved(memory_saved(s, index, a), index, b) =~= memory_saved(s, index, b));
}

/// Absence before write: right after `init`, every valid slot reads as absent.
pub proof fn lemma_initialized_slots_absent(
    size: nat,
    key: Seq<u8>,
    own_node_id: u32,
    init_params: Seq<u8>,
    index: int,
)
    requires
        size >= CONTROL_PLANE_RESERVED_BYTES,
        key.len() == PRIVATE_KEY_SIZE,
        init_params.len() == INIT_PARAMS_SIZE,
        0 <= index < memory_slot_count(size as int),
    ensures
        memory_read(memory_initialized(size, key, own_node_id, init_params), index)
            == Err::<Seq<u8>, StorageError>(StorageError::BlockAbsent),
{
    let v = fresh_record(key, own_node_id, init_params);
    let s = memory_initialized(size, key, own_node_id, init_params);
    lemma_entry_round_trip(v, 0);
    lemma_replicas_written(zeros(size), encode_entry(v), CONTROL_PLANE_COUNT as nat);
    lemma_slot_in_bounds(size as int, index);
    assert(slot_at(s, index)[0] == s[slot_start(index)]);
}

/// When every replica holds the encoding of an encodable record, loading
/// returns that record and writes nothing.
pub proof fn lemma_uniform_replicas_load(s: Seq<u8>, v: ControlPlaneView)
    requires
        s.len() >= CONTROL_PLANE_RESERVED_BYTES,
        encodable(v),
        forall|r: int| 0 <= r < CONTROL_PLANE_COUNT ==> #[trigger] entry_at(s, r) == encode_entry(v),
    ensures
        memory_load(s) == Ok::<ControlPlaneView, StorageError>(v),
        memory_repaired(s) == s,
{
    lemma_entry_round_trip(v, 0);
    let ds = replica_decodes(memory_entries(s), 0);
    assert(ds[0] == decode_entry(entry_at(s, 0), 0));
    lemma_first_valid(ds);
    assert(first_valid(ds) == Some(0int));
    lemma_heal_noop(s, 0, encode_entry(v), CONTROL_PLANE_COUNT as nat);
}

/// Healing writes nothing when every replica other than `keep` already holds
/// `entry`.
pub proof fn lemma_heal_noop(s: Seq<u8>, keep: int, entry: Seq<u8>, n: nat)
    requires
        forall|r: int| 0 <= r < n && r != keep ==> #[trigger] entry_at(s, r) == entry,
    ensures
        replicas_healed(s, keep, entry, n) == s,
    decreases n,
{
    if n > 0 {
        lemma_heal_noop(s, keep, entry, (n - 1) as nat);
    }
}

/// Control-plane round trip: `init(k, n, p)` followed by `load_control_data()`
/// returns exactly `(k, n, p, None)` and repairs nothing.
pub proof fn lemma_init_then_load(size: nat, key: Seq<u8>, own_node_id: u32, init_params: Seq<u8>)
    requires
        size >= CONTROL_PLANE_RESERVED_BYTES,
        key.len() == PRIVATE_KEY_SIZE,
        init_params.len() == INIT_PARAMS_SIZE,
    ensures
        memory_load(memory_initialized(size, key, own_node_id, init_params)) == Ok::<ControlPlaneView, StorageError>(
            fresh_record(key, own_node_id, init_params),
        ),
        memory_repaired(memory_initialized(size, key, own_node_id, init_params)) == memory_initialized(
            size,
            key,
            own_node_id,
            init_params,
        ),
{
    let v = fresh_record(key, own_node_id, init_params);
    lemma_entry_round_trip(v, 0);
    lemma_replicas_written(zeros(size), encode_entry(v), CONTROL_PLANE_COUNT as nat);
    lemma_uniform_replicas_load(memory_initialized(size, key, own_node_id, init_params), v);
}

/// The record that loading returns is one that encodes and decodes back.
pub proof fn lemma_loaded_is_encodable(s: Seq<u8>)
    requires
        s.len() >= CONTROL_PLANE_RESERVED_BYTES,
        memory_load(s) is Ok,
    ensures
        encodable(memory_load(s)->Ok_0),
        memory_repaired(s).len() == s.len(),
{
    let ds = replica_decodes(memory_entries(s), 0);
    lemma_first_valid(ds);
    let i = first_valid(ds)->Some_0;
    assert(ds[i] == decode_entry(entry_at(s, i), 0));
    lemma_entry_bounds(s, i);
    lemma_decoded_is_encodable(entry_at(s, i), 0);
    let v = memory_load(s)->Ok_0;
    lemma_entry_round_trip(v, 0);
    lemma_replicas_healed(s, i, encode_entry(v), CONTROL_PLANE_COUNT as nat);
}

/// Read-repair: after a successful load every replica decodes to the record
/// that was returned.
pub proof fn lemma_repair_heals_every_replica(s: Seq<u8>)
    requires
        s.len() >= CONTROL_PLANE_RESERVED_BYTES,
        memory_load(s) is Ok,
    ensures
        forall|r: int|
            0 <= r < CONTROL_PLANE_COUNT ==> decode_entry(#[trigger] entry_at(memory_repaired(s), r), 0)
                == memory_load(s),
{
    let ds = replica_decodes(memory_entries(s), 0);
    lemma_first_valid(ds);
    let i = first_valid(ds)->Some_0;
    let v = memory_load(s)->Ok_0;
    lemma_loaded_is_encodable(s);
    lemma_entry_round_trip(v, 0);
    lemma_replicas_healed(s, i, encode_entry(v), CONTROL_PLANE_COUNT as nat);
    assert forall|r: int| 0 <= r < CONTROL_PLANE_COUNT implies decode_entry(
        #[trigger] entry_at(memory_repaired(s), r),
        0,
    ) == memory_load(s) by {
        assert(ds[i] == decode_entry(entry_at(s, i), 0));
    }
}

/// Replica self-heal: when every replica holds the encoding of record `v` (as
/// right after `init`) and one byte of one replica is changed, loading still
/// returns `v`, and afterwards every replica, the damaged one included,
/// decodes to `v`.
pub proof fn lemma_single_byte_damage_heals(s: Seq<u8>, v: ControlPlaneView, q: int, x: u8)
    requires
        s.len() >= CONTROL_PLANE_RESERVED_BYTES,
        encodable(v),
        forall|r: int| 0 <= r < CONTROL_PLANE_COUNT ==> #[trigger] entry_at(s, r) == encode_entry(v),
        0 <= q < CONTROL_PLANE_RESERVED_BYTES,
        x != s[q],
    ensures
        memory_load(s.update(q, x)) == Ok::<ControlPlaneView, StorageError>(v),
        forall|r: int|
            0 <= r < CONTROL_PLANE_COUNT ==> decode_entry(#[trigger] entry_at(memory_repaired(s.update(q, x)), r), 0)
                == Ok::<ControlPlaneView, StorageError>(v),
{
    let t = s.update(q, x);
    let r0 = lemma_damage_touches_one_replica(s, v, q, x);
    lemma_all_but_one_authoritative(memory_entries(t), v, r0, 0);
    lemma_repair_heals_every_replica(t);
}

/// Changing one byte of the control-plane region leaves every replica but one
/// as it was.
proof fn lemma_damage_touches_one_replica(s: Seq<u8>, v: ControlPlaneView, q: int, x: u8) -> (r0: int)
    requires
        s.len() >= CONTROL_PLANE_RESERVED_BYTES,
        encodable(v),
        x != s[q],
        forall|r: int| 0 <= r < CONTROL_PLANE_COUNT ==> #[trigger] entry_at(s, r) == encode_entry(v),
        0 <= q < CONTROL_PLANE_RESERVED_BYTES,
    ensures
        0 <= r0 < CONTROL_PLANE_COUNT,
        forall|r: int|
            0 <= r < CONTROL_PLANE_COUNT && r != r0 ==> #[trigger] memory_entries(s.update(q, x))[r] == encode_entry(v),
        decode_entry(memory_entries(s.update(q, x))[r0], 0) is Err,
{
    let t = s.update(q, x);
    let e = CONTROL_PLANE_ENTRY_SIZE as int;
    let r0: int = if q < e {
        0
    } else if q < 2 * e {
        1
    } else {
        2
    };
    assert forall|r: int| 0 <= r < CONTROL_PLANE_COUNT && r != r0 implies #[trigger] memory_entries(t)[r] == encode_entry(v) by {
        assert(entry_at(s, r) == encode_entry(v));
        assert(entry_at(t, r) =~= entry_at(s, r));
    }
    lemma_entry_round_trip(v, 0);
    let enc = encode_entry(v);
    assert(entry_at(s, r0) == enc);
    assert(entry_at(t, r0) =~= enc.update(q - r0 * e, x));
    assert(enc[q - r0 * e] == s[q]);
    lemma_entry_one_byte_damage(v, q - r0 * e, x, 0);
    r0
}

/// Chain-configuration one-shot: on an initialized array without a
/// configuration, the first `set_chain_configuration(c)` succeeds, a second one
/// fails with `ChainConfigurationAlreadySet`, and loading afterwards returns the
/// record with exactly `c` as its configuration.
pub proof fn lemma_chain_configuration_set_once(s: Seq<u8>, c: Seq<u8>)
    requires
        s.len() >= CONTROL_PLANE_RESERVED_BYTES,
        memory_load(s) matches Ok(v) && v.chain_configuration is None,
        canonical_block_bytes(c),
    ensures
        memory_set_result(s) == Ok::<(), StorageError>(()),
        memory_load(memory_after_set(s, c)) matches Ok(w) && w.chain_configuration == Some(c),
        memory_load(memory_after_set(s, c)) == Ok::<ControlPlaneView, StorageError>(
            with_chain_configuration(memory_load(s)->Ok_0, c),
        ),
        memory_set_result(memory_after_set(s, c)) == Err::<(), StorageError>(
            StorageError::ChainConfigurationAlreadySet,
        ),
{
    let v = memory_load(s)->Ok_0;
    let w = with_chain_configuration(v, c);
    lemma_loaded_is_encodable(s);
    assert(encodable(w));
    lemma_entry_round_trip(w, 0);
    let t = memory_repaired(s);
    lemma_replicas_written(t, encode_entry(w), CONTROL_PLANE_COUNT as nat);
    lemma_uniform_replicas_load(memory_after_set(s, c), w);
}

/// In-memory backend of `STORAGE_SIZE` bytes.
pub struct MemoryBackend<const STORAGE_SIZE: usize> {
    storage: [u8; STORAGE_SIZE],
}

impl<const STORAGE_SIZE: usize> View for MemoryBackend<STORAGE_SIZE> {
    type V = Seq<u8>;

    closed spec fn view(&self) -> Seq<u8> {
        self.storage@
    }
}

impl<const STORAGE_SIZE: usize> MemoryBackend<STORAGE_SIZE> {
    /// Creates a backend whose array is all zero.
    pub fn new() -> (r: Self)
        ensures
            r@ == zeros(STORAGE_SIZE as nat),
    {
        let r = Self { storage: [0u8; STORAGE_SIZE] };
        proof {
            assert(r@ == zeros(STORAGE_SIZE as nat));
        }
        r
    }

    /// Number of block slots.
    pub fn max_storage_slots() -> (r: StorageIndex)
        ensures
            r == memory_slot_count(STORAGE_SIZE as int),
    {
        if STORAGE_SIZE > CONTROL_PLANE_RESERVED_BYTES {
            let n = (STORAGE_SIZE - CONTROL_PLANE_RESERVED_BYTES) / MAX_BLOCK_SIZE;
            if n > u32::MAX as usize {
                u32::MAX
            } else {
                n as u32
            }
        } else {
            0
        }
    }

    fn slot_range(storage_index: StorageIndex) -> (r: Result<(usize, usize), StorageError>)
        ensures
            storage_index >= memory_slot_count(STORAGE_SIZE as int) ==> r == Err::<(usize, usize), StorageError>(StorageError::InvalidIndex),
            storage_index < memory_slot_count(STORAGE_SIZE as int) ==> (r matches Ok((a, b)) && a == slot_start(storage_index as int) && b == a + MAX_BLOCK_SIZE && b <= STORAGE_SIZE),
    {
        if storage_index >= Self::max_storage_slots() {
            return Err(StorageError::InvalidIndex);
        }
        proof {
            let x = STORAGE_SIZE - CONTROL_PLANE_RESERVED_BYTES;
            let q = x / (MAX_BLOCK_SIZE as int);
            let i = storage_index as int;
            let m = MAX_BLOCK_SIZE as int;
            lemma_fundamental_div_mod(x, m);
            lemma_mod_bound(x, m);
            assert((i + 1) * m <= x) by (nonlinear_arith)
                requires
                    x == m * q + x % m,
                    0 <= x % m,
                    i + 1 <= q,
                    m > 0,
            ;
        }
        let slot_start = CONTROL_PLANE_RESERVED_BYTES + storage_index as usize * MAX_BLOCK_SIZE;
        let slot_end = slot_start + MAX_BLOCK_SIZE;
        Ok((slot_start, slot_end))
    }

    /// Byte offset of replica `replica_index`.
    pub fn control_plane_entry_offset(replica_index: usize) -> (r: usize)
        requires
            replica_index < CONTROL_PLANE_COUNT,
        ensures
            r == replica_index * CONTROL_PLANE_ENTRY_SIZE,
    {
        replica_index * CONTROL_PLANE_ENTRY_SIZE
    }

    /// The raw bytes of replica `replica_index`.
    pub fn read_control_plane_entry(&self, replica_index: usize) -> (r: Vec<u8>)
        requires
            replica_index < CONTROL_PLANE_COUNT,
            STORAGE_SIZE >= CONTROL_PLANE_RESERVED_BYTES,
        ensures
            self@.len() == STORAGE_SIZE,
            r@ == entry_at(self@, replica_index as int),
    {
        let start = Self::control_plane_entry_offset(replica_index);
        copy_range(self.storage.as_slice(), start, CONTROL_PLANE_ENTRY_SIZE)
    }

    /// Overwrites replica `replica_index` with `entry`.
    pub fn write_control_plane_entry(&mut self, replica_index: usize, entry: &[u8])
        requires
            replica_index < CONTROL_PLANE_COUNT,
            STORAGE_SIZE >= CONTROL_PLANE_RESERVED_BYTES,
            entry@.len() == CONTROL_PLANE_ENTRY_SIZE,
        ensures
            old(self)@.len() == STORAGE_SIZE,
            final(self)@ == overwrite(old(self)@, replica_index * CONTROL_PLANE_ENTRY_SIZE, entry@),
    {
        let start = Self::control_plane_entry_offset(replica_index);
        write_range(&mut self.storage, start, entry);
    }

    fn write_record_to_all_replicas(&mut self, record: &ControlPlaneData)
        requires
            STORAGE_SIZE >= CONTROL_PLANE_RESERVED_BYTES,
        ensures
            final(self)@ == replicas_written(old(self)@, encode_entry(record@), CONTROL_PLANE_COUNT as nat),
    {
        let encoded = encode_control_record(record);
        let mut index: usize = 0;
        while index < CONTROL_PLANE_COUNT
            invariant
                index <= CONTROL_PLANE_COUNT,
                STORAGE_SIZE >= CONTROL_PLANE_RESERVED_BYTES,
                encoded@ == encode_entry(record@),
                encoded@.len() == CONTROL_PLANE_ENTRY_SIZE,
                self@ == replicas_written(old(self)@, encoded@, index as nat),
            decreases CONTROL_PLANE_COUNT - index,
        {
            self.write_control_plane_entry(index, encoded.as_slice());
            index += 1;
        }
    }

    /// Reads every replica, takes the first valid one as authoritative and
    /// rewrites each other replica that differs from its encoding.
    fn load_primary_record_and_repair(&mut self) -> (r: Result<ControlPlaneData, StorageError>)
        requires
            STORAGE_SIZE >= CONTROL_PLANE_RESERVED_BYTES,
        ensures
            data_result_view(r) == memory_load(old(self)@),
            final(self)@ == memory_repaired(old(self)@),
            r matches Ok(d) ==> d.version == CONTROL_PLANE_VERSION,
    {
        let mut entries: Vec<Vec<u8>> = Vec::with_capacity(CONTROL_PLANE_COUNT);
        let mut index: usize = 0;
        while index < CONTROL_PLANE_COUNT
            invariant
                index <= CONTROL_PLANE_COUNT,
                STORAGE_SIZE >= CONTROL_PLANE_RESERVED_BYTES,
                entries@.len() == index,
                forall|k: int| 0 <= k < index ==> (#[trigger] entries@[k])@ == entry_at(self@, k),
                forall|k: int| 0 <= k < index ==> (#[trigger] entries@[k])@.len() == CONTROL_PLANE_ENTRY_SIZE,
            decreases CONTROL_PLANE_COUNT - index,
        {
            let entry = self.read_control_plane_entry(index);
            proof {
                lemma_entry_bounds(self@, index as int);
            }
            entries.push(entry);
            index += 1;
        }
        proof {
            assert(vec_views(entries@) == memory_entries(self@));
        }
        let ghost old_storage = self@;
        let (first_index, record) = match select_authoritative(&entries, 0) {
            Ok(found) => found,
            Err(err) => {
                return Err(err);
            },
        };
        let encoded = encode_control_record(&record);
        let mut repair_index: usize = 0;
        while repair_index < CONTROL_PLANE_COUNT
            invariant
                repair_index <= CONTROL_PLANE_COUNT,
                STORAGE_SIZE >= CONTROL_PLANE_RESERVED_BYTES,
                entries@.len() == CONTROL_PLANE_COUNT,
                forall|k: int| 0 <= k < CONTROL_PLANE_COUNT ==> (#[trigger] entries@[k])@ == entry_at(old_storage, k),
                encoded@.len() == CONTROL_PLANE_ENTRY_SIZE,
                self@ == replicas_healed(old_storage, first_index as int, encoded@, repair_index as nat),
            decreases CONTROL_PLANE_COUNT - repair_index,
        {
            if repair_index != first_index && !same_bytes(entries[repair_index].as_slice(), encoded.as_slice()) {
                self.write_control_plane_entry(repair_index, encoded.as_slice());
            }
            repair_index += 1;
        }
        Ok(record)
    }

    /// Clears the whole array and writes a fresh record to every replica.
    pub fn init(
        &mut self,
        private_key: [u8; PRIVATE_KEY_SIZE],
        own_node_id: u32,
        init_params: [u8; INIT_PARAMS_SIZE],
    ) -> (r: Result<(), StorageError>)
        requires
            STORAGE_SIZE >= CONTROL_PLANE_RESERVED_BYTES,
        ensures
            old(self)@.len() == STORAGE_SIZE,
            r is Ok,
            final(self)@ == memory_initialized(STORAGE_SIZE as nat, private_key@, own_node_id, init_params@),
    {
        fill_range(&mut self.storage, 0, STORAGE_SIZE, 0);
        proof {
            assert(self@ == zeros(STORAGE_SIZE as nat));
        }
        let record = ControlPlaneData {
            version: CONTROL_PLANE_VERSION,
            private_key,
            own_node_id,
            init_params,
            chain_configuration: None,
        };
        self.write_record_to_all_replicas(&record);
        Ok(())
    }

    /// Stores `block` in slot `storage_index`, zero-filling the rest of the slot.
    pub fn save_block(&mut self, storage_index: StorageIndex, block: &Block) -> (r: Result<(), StorageError>)
        ensures
            old(self)@.len() == STORAGE_SIZE,
            storage_index >= memory_slot_count(STORAGE_SIZE as int) ==> r == Err::<(), StorageError>(StorageError::InvalidIndex) && final(self)@ == old(self)@,
            storage_index < memory_slot_count(STORAGE_SIZE as int) ==> r is Ok && final(self)@ == memory_saved(old(self)@, storage_index as int, block@),
    {
        let (slot_start, slot_end) = match Self::slot_range(storage_index) {
            Ok(range) => range,
            Err(err) => {
                return Err(err);
            },
        };
        let block_bytes = block.as_bytes();
        fill_range(&mut self.storage, slot_start, slot_end, 0);
        write_range(&mut self.storage, slot_start, block_bytes);
        proof {
            assert(self@ =~= memory_saved(old(self)@, storage_index as int, block@));
        }
        Ok(())
    }

    /// The raw bytes of slot `storage_index`, padding included.
    pub fn read_slot_bytes(&self, storage_index: StorageIndex) -> (r: Result<Vec<u8>, StorageError>)
        ensures
            self@.len() == STORAGE_SIZE,
            storage_index >= memory_slot_count(STORAGE_SIZE as int) ==> r == Err::<Vec<u8>, StorageError>(StorageError::InvalidIndex),
            storage_index < memory_slot_count(STORAGE_SIZE as int) ==> (r matches Ok(v) && v@ == slot_at(self@, storage_index as int)),
    {
        let (slot_start, _) = match Self::slot_range(storage_index) {
            Ok(range) => range,
            Err(err) => {
                return Err(err);
            },
        };
        Ok(copy_range(self.storage.as_slice(), slot_start, MAX_BLOCK_SIZE))
    }

    /// Reads the block in slot `storage_index`.
    pub fn read_block(&self, storage_index: StorageIndex) -> (r: Result<Block, StorageError>)
        ensures
            self@.len() == STORAGE_SIZE,
            block_result_view(r) == memory_read(self@, storage_index as int),
    {
        let (slot_start, slot_end) = match Self::slot_range(storage_index) {
            Ok(range) => range,
            Err(err) => {
                return Err(err);
            },
        };
        if self.storage[slot_start] == 0 {
            return Err(StorageError::BlockAbsent);
        }
        match Block::from_bytes(slice_subrange(self.storage.as_slice(), slot_start, slot_end)) {
            Ok(block) => Ok(block),
            Err(_) => Err(StorageError::BackendIo { code: 2 }),
        }
    }

    /// Stores the chain configuration once: repairs the replicas, refuses if a
    /// configuration is already present, else writes the augmented record to
    /// every replica.
    pub fn set_chain_configuration(&mut self, block: &Block) -> (r: Result<(), StorageError>)
        requires
            STORAGE_SIZE >= CONTROL_PLANE_RESERVED_BYTES,
        ensures
            old(self)@.len() == STORAGE_SIZE,
            r == memory_set_result(old(self)@),
            final(self)@ == memory_after_set(old(self)@, block@),
    {
        let mut record = match self.load_primary_record_and_repair() {
            Ok(record) => record,
            Err(err) => {
                return Err(err);
            },
        };
        if record.chain_configuration.is_some() {
            return Err(StorageError::ChainConfigurationAlreadySet);
        }
        let configuration = match Block::from_bytes(block.as_bytes()) {
            Ok(configuration) => configuration,
            Err(_) => {
                return Err(StorageError::BackendIo { code: 1 });
            },
        };
        record.chain_configuration = Some(configuration);
        self.write_record_to_all_replicas(&record);
        Ok(())
    }

    /// Decodes a control-plane entry read from this array, whose blank byte is
    /// zero.
    pub fn deserialize_record(bytes: &[u8]) -> (r: Result<ControlPlaneData, StorageError>)
        requires
            bytes@.len() == CONTROL_PLANE_ENTRY_SIZE,
        ensures
            data_result_view(r) == decode_entry(bytes@, 0),
    {
        crate::control_plane::decode_control_entry(bytes, 0)
    }

    /// Returns the authoritative control-plane record, repairing the other
    /// replicas on the way.
    pub fn load_control_data(&mut self) -> (r: Result<ControlPlaneData, StorageError>)
        requires
            STORAGE_SIZE >= CONTROL_PLANE_RESERVED_BYTES,
        ensures
            old(self)@.len() == STORAGE_SIZE,
            data_result_view(r) == memory_load(old(self)@),
            final(self)@ == memory_repaired(old(self)@),
            r matches Ok(d) ==> d.version == CONTROL_PLANE_VERSION,
    {
        self.load_primary_record_and_repair()
    }
}

} // verus!
