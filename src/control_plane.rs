//! The replicated control-plane record and its fixed-layout, CRC-protected
//! encoding, plus the choice of an authoritative record among the replicas.

use crate::block::{
    canonical_block_bytes, lemma_trim_zero_filled, lemma_trimmed_canonical, padded, trimmed,
    valid_block_bytes, Block,
};
use crate::bytes::{all_equal, array_from, extend_bytes, push_le16, push_le32, push_zeros, read_le16, read_le32, all_bytes_equal, from_le16, from_le32, le16, le32, lemma_from_le32_injective, lemma_le16_round_trip, lemma_le32_round_trip, zeros};
use crate::crc::{crc32, crc32_spec, lemma_crc32_detects_one_byte};
use crate::error::StorageError;
use crate::{
    CONTROL_PLANE_COUNT, CONTROL_PLANE_VERSION, INIT_PARAMS_SIZE, MAX_BLOCK_SIZE,
    PRIVATE_KEY_SIZE,
};
use vstd::prelude::*;
use vstd::slice::slice_subrange;

verus! {

pub const VERSION_OFFSET: usize = 0;
pub const PRIVATE_KEY_SIZE_OFFSET: usize = VERSION_OFFSET + 1;
pub const PRIVATE_KEY_OFFSET: usize = PRIVATE_KEY_SIZE_OFFSET + 1;
pub const OWN_NODE_ID_OFFSET: usize = PRIVATE_KEY_OFFSET + PRIVATE_KEY_SIZE;
pub const INIT_PARAMS_SIZE_OFFSET: usize = OWN_NODE_ID_OFFSET + 4;
pub const INIT_PARAMS_OFFSET: usize = INIT_PARAMS_SIZE_OFFSET + 1;
pub const MAX_BLOCK_SIZE_OFFSET: usize = INIT_PARAMS_OFFSET + INIT_PARAMS_SIZE;
pub const CHAIN_CONFIG_OFFSET: usize = MAX_BLOCK_SIZE_OFFSET + 2;
pub const CONTROL_CRC32_OFFSET: usize = CHAIN_CONFIG_OFFSET + MAX_BLOCK_SIZE;
/// Encoded size of one control-plane entry.
pub const CONTROL_PLANE_ENTRY_SIZE: usize = CONTROL_CRC32_OFFSET + 4;

/// The node identity record as persisted and returned to callers.
#[derive(Debug)]
pub struct ControlPlaneData {
    /// Schema version of the entry the record was read from.
    pub version: u8,
    pub private_key: [u8; PRIVATE_KEY_SIZE],
    pub own_node_id: u32,
    pub init_params: [u8; INIT_PARAMS_SIZE],
    /// Present only after the chain configuration was stored once.
    pub chain_configuration: Option<Block>,
}

/// Mathematical model of [`ControlPlaneData`].
pub ghost struct ControlPlaneView {
    pub private_key: Seq<u8>,
    pub own_node_id: u32,
    pub init_params: Seq<u8>,
    pub chain_configuration: Option<Seq<u8>>,
}

pub open spec fn block_option_view(b: Option<Block>) -> Option<Seq<u8>> {
    match b {
        Some(block) => Some(block@),
        None => None,
    }
}

impl View for ControlPlaneData {
    type V = ControlPlaneView;

    open spec fn view(&self) -> ControlPlaneView {
        ControlPlaneView {
            private_key: self.private_key@,
            own_node_id: self.own_node_id,
            init_params: self.init_params@,
            chain_configuration: block_option_view(self.chain_configuration),
        }
    }
}

/// The record that `init` writes.
pub open spec fn fresh_record(key: Seq<u8>, own_node_id: u32, init_params: Seq<u8>) -> ControlPlaneView {
    ControlPlaneView { private_key: key, own_node_id, init_params, chain_configuration: None }
}

/// A record that the encoding can hold and give back unchanged: fields of the
/// fixed sizes, and a chain configuration (if any) in canonical encoding.
pub open spec fn encodable(v: ControlPlaneView) -> bool {
    &&& v.private_key.len() == PRIVATE_KEY_SIZE
    &&& v.init_params.len() == INIT_PARAMS_SIZE
    &&& v.chain_configuration matches Some(c) ==> canonical_block_bytes(c)
}

/// The chain-configuration region: the block zero-filled, or all zero if absent.
pub open spec fn chain_region(c: Option<Seq<u8>>) -> Seq<u8> {
    match c {
        Some(bytes) => padded(bytes),
        None => zeros(MAX_BLOCK_SIZE as nat),
    }
}

/// Every byte of an entry before its CRC field.
pub open spec fn entry_prefix(v: ControlPlaneView) -> Seq<u8> {
    seq![CONTROL_PLANE_VERSION, PRIVATE_KEY_SIZE as u8] + v.private_key + le32(v.own_node_id)
        + seq![INIT_PARAMS_SIZE as u8] + v.init_params + le16(MAX_BLOCK_SIZE as u16)
        + chain_region(v.chain_configuration)
}

/// The encoded entry of a record.
pub open spec fn encode_entry(v: ControlPlaneView) -> Seq<u8> {
    entry_prefix(v) + le32(crc32_spec(entry_prefix(v)))
}

pub open spec fn entry_field(e: Seq<u8>, offset: usize, len: usize) -> Seq<u8> {
    e.subrange(offset as int, offset + len)
}

/// What an entry decodes to, on a medium whose blank byte is `erased`.
pub open spec fn decode_entry(e: Seq<u8>, erased: u8) -> Result<ControlPlaneView, StorageError> {
    if all_bytes_equal(e, erased) {
        Err(StorageError::ControlPlaneUninitialized)
    } else if from_le32(entry_field(e, CONTROL_CRC32_OFFSET, 4)) != crc32_spec(
        e.subrange(0, CONTROL_CRC32_OFFSET as int),
    ) {
        Err(StorageError::ControlPlaneCorrupted)
    } else if e[VERSION_OFFSET as int] != CONTROL_PLANE_VERSION || e[PRIVATE_KEY_SIZE_OFFSET as int]
        != PRIVATE_KEY_SIZE as u8 || e[INIT_PARAMS_SIZE_OFFSET as int] != INIT_PARAMS_SIZE as u8
        || from_le16(entry_field(e, MAX_BLOCK_SIZE_OFFSET, 2)) != MAX_BLOCK_SIZE as u16 {
        Err(StorageError::ControlPlaneIncompatible)
    } else if e[CHAIN_CONFIG_OFFSET as int] != 0 && !valid_block_bytes(
        entry_field(e, CHAIN_CONFIG_OFFSET, MAX_BLOCK_SIZE),
    ) {
        Err(StorageError::ControlPlaneCorrupted)
    } else {
        Ok(
            ControlPlaneView {
                private_key: entry_field(e, PRIVATE_KEY_OFFSET, PRIVATE_KEY_SIZE),
                own_node_id: from_le32(entry_field(e, OWN_NODE_ID_OFFSET, 4)),
                init_params: entry_field(e, INIT_PARAMS_OFFSET, INIT_PARAMS_SIZE),
                chain_configuration: if e[CHAIN_CONFIG_OFFSET as int] == 0 {
                    None
                } else {
                    Some(trimmed(entry_field(e, CHAIN_CONFIG_OFFSET, MAX_BLOCK_SIZE)))
                },
            },
        )
    }
}

/// Decoding the encoding of an encodable record gives the record back, on
/// either medium.
pub proof fn lemma_entry_round_trip(v: ControlPlaneView, erased: u8)
    requires
        encodable(v),
        erased == 0 || erased == 0xFF,
    ensures
        encode_entry(v).len() == CONTROL_PLANE_ENTRY_SIZE,
        decode_entry(encode_entry(v), erased) == Ok::<ControlPlaneView, StorageError>(v),
{
    let p = entry_prefix(v);
    let e = encode_entry(v);
    let crc = crc32_spec(p);
    lemma_le32_round_trip(crc);
    lemma_le32_round_trip(v.own_node_id);
    lemma_le16_round_trip(MAX_BLOCK_SIZE as u16);
    let c = chain_region(v.chain_configuration);
    assert(c.len() == MAX_BLOCK_SIZE);
    assert(p.len() == CONTROL_CRC32_OFFSET);
    assert(e.subrange(0, CONTROL_CRC32_OFFSET as int) == p);
    assert(entry_field(e, CONTROL_CRC32_OFFSET, 4) == le32(crc));
    assert(entry_field(e, PRIVATE_KEY_OFFSET, PRIVATE_KEY_SIZE) == v.private_key);
    assert(entry_field(e, OWN_NODE_ID_OFFSET, 4) == le32(v.own_node_id));
    assert(entry_field(e, INIT_PARAMS_OFFSET, INIT_PARAMS_SIZE) == v.init_params);
    assert(entry_field(e, MAX_BLOCK_SIZE_OFFSET, 2) == le16(MAX_BLOCK_SIZE as u16));
    assert(entry_field(e, CHAIN_CONFIG_OFFSET, MAX_BLOCK_SIZE) == c);
    assert(e[0] == CONTROL_PLANE_VERSION);
    assert(!all_bytes_equal(e, erased));
    match v.chain_configuration {
        Some(bytes) => {
            assert(e[CHAIN_CONFIG_OFFSET as int] == c[0]);
            assert(c[0] == bytes[0]);
            lemma_trim_zero_filled(bytes, (MAX_BLOCK_SIZE - bytes.len()) as nat);
        },
        None => {
            assert(e[CHAIN_CONFIG_OFFSET as int] == c[0]);
        },
    }
}

/// Index of the first successfully decoded replica, if any.
pub open spec fn first_valid(ds: Seq<Result<ControlPlaneView, StorageError>>) -> Option<int>
    decreases ds.len(),
{
    if ds.len() == 0 {
        None
    } else {
        match first_valid(ds.drop_last()) {
            Some(i) => Some(i),
            None => if ds.last() is Ok {
                Some(ds.len() - 1)
            } else {
                None
            },
        }
    }
}

pub open spec fn has_error(ds: Seq<Result<ControlPlaneView, StorageError>>, e: StorageError) -> bool {
    exists|i: int| 0 <= i < ds.len() && ds[i] == Err::<ControlPlaneView, StorageError>(e)
}

/// The error reported when no replica decodes: incompatible before corrupted
/// before uninitialized.
pub open spec fn scan_failure(ds: Seq<Result<ControlPlaneView, StorageError>>) -> StorageError {
    if has_error(ds, StorageError::ControlPlaneIncompatible) {
        StorageError::ControlPlaneIncompatible
    } else if has_error(ds, StorageError::ControlPlaneCorrupted) {
        StorageError::ControlPlaneCorrupted
    } else {
        StorageError::ControlPlaneUninitialized
    }
}

pub open spec fn replica_decodes(entries: Seq<Seq<u8>>, erased: u8) -> Seq<Result<ControlPlaneView, StorageError>> {
    Seq::new(entries.len(), |i: int| decode_entry(entries[i], erased))
}

/// The authoritative replica and its record, or the error of the replica set.
pub open spec fn authoritative(entries: Seq<Seq<u8>>, erased: u8) -> Result<(int, ControlPlaneView), StorageError> {
    let ds = replica_decodes(entries, erased);
    match first_valid(ds) {
        Some(i) => Ok((i, ds[i]->Ok_0)),
        None => Err(scan_failure(ds)),
    }
}

pub open spec fn vec_views(entries: Seq<Vec<u8>>) -> Seq<Seq<u8>> {
    Seq::new(entries.len(), |i: int| entries[i]@)
}

pub open spec fn selection_view(r: Result<(usize, ControlPlaneData), StorageError>) -> Result<(int, ControlPlaneView), StorageError> {
    match r {
        Ok((i, d)) => Ok((i as int, d@)),
        Err(e) => Err(e),
    }
}

/// Decodes every replica in index order and returns the first valid one with
/// its index; when none is valid, the error of the whole set.
pub fn select_authoritative(entries: &Vec<Vec<u8>>, erased: u8) -> (r: Result<(usize, ControlPlaneData), StorageError>)
    requires
        forall|i: int| 0 <= i < entries@.len() ==> (#[trigger] entries@[i])@.len() == CONTROL_PLANE_ENTRY_SIZE,
    ensures
        selection_view(r) == authoritative(vec_views(entries@), erased),
        r matches Ok((_, d)) ==> d.version == CONTROL_PLANE_VERSION,
{
    let ghost ds = replica_decodes(vec_views(entries@), erased);
    let mut first: Option<(usize, ControlPlaneData)> = None;
    let mut saw_incompatible = false;
    let mut saw_corrupted = false;
    let mut i: usize = 0;
    while i < entries.len()
        invariant
            i <= entries@.len(),
            ds == replica_decodes(vec_views(entries@), erased),
            forall|k: int| 0 <= k < entries@.len() ==> (#[trigger] entries@[k])@.len() == CONTROL_PLANE_ENTRY_SIZE,
            match first {
                Some((j, d)) => first_valid(ds.subrange(0, i as int)) == Some(j as int) && ds[j as int]
                    == Ok::<ControlPlaneView, StorageError>(d@) && d.version == CONTROL_PLANE_VERSION,
                None => first_valid(ds.subrange(0, i as int)) is None,
            },
            saw_incompatible == has_error(ds.subrange(0, i as int), StorageError::ControlPlaneIncompatible),
            saw_corrupted == has_error(ds.subrange(0, i as int), StorageError::ControlPlaneCorrupted),
        decreases entries@.len() - i,
    {
        let decoded = decode_control_entry(entries[i].as_slice(), erased);
        let ghost prefix = ds.subrange(0, i + 1);
        proof {
            assert(prefix.drop_last() == ds.subrange(0, i as int));
            assert(prefix.last() == ds[i as int]);
            assert(ds[i as int] == result_view(decoded));
        }
        match decoded {
            Ok(record) => {
                if first.is_none() {
                    first = Some((i, record));
                }
            },
            Err(err) => {
                if err == StorageError::ControlPlaneIncompatible {
                    saw_incompatible = true;
                }
                if err == StorageError::ControlPlaneCorrupted {
                    saw_corrupted = true;
                }
            },
        }
        proof {
            let e1 = StorageError::ControlPlaneIncompatible;
            let e2 = StorageError::ControlPlaneCorrupted;
            if has_error(ds.subrange(0, i as int), e1) {
                let k = choose|k: int| 0 <= k < i && ds.subrange(0, i as int)[k] == Err::<ControlPlaneView, StorageError>(e1);
                assert(prefix[k] == ds.subrange(0, i as int)[k]);
            }
            if has_error(ds.subrange(0, i as int), e2) {
                let k = choose|k: int| 0 <= k < i && ds.subrange(0, i as int)[k] == Err::<ControlPlaneView, StorageError>(e2);
                assert(prefix[k] == ds.subrange(0, i as int)[k]);
            }
            if has_error(prefix, e1) {
                let k = choose|k: int| 0 <= k < i + 1 && prefix[k] == Err::<ControlPlaneView, StorageError>(e1);
                if k < i {
                    assert(ds.subrange(0, i as int)[k] == prefix[k]);
                }
            }
            if has_error(prefix, e2) {
                let k = choose|k: int| 0 <= k < i + 1 && prefix[k] == Err::<ControlPlaneView, StorageError>(e2);
                if k < i {
                    assert(ds.subrange(0, i as int)[k] == prefix[k]);
                }
            }
        }
        i += 1;
    }
    proof {
        assert(ds.subrange(0, entries@.len() as int) == ds);
    }
    match first {
        Some(found) => Ok(found),
        None => {
            if saw_incompatible {
                Err(StorageError::ControlPlaneIncompatible)
            } else if saw_corrupted {
                Err(StorageError::ControlPlaneCorrupted)
            } else {
                Err(StorageError::ControlPlaneUninitialized)
            }
        },
    }
}

/// `first_valid` picks the lowest index whose decode succeeded.
pub proof fn lemma_first_valid(ds: Seq<Result<ControlPlaneView, StorageError>>)
    ensures
        match first_valid(ds) {
            Some(i) => 0 <= i < ds.len() && ds[i] is Ok && forall|j: int| 0 <= j < i ==> ds[j] is Err,
            None => forall|j: int| 0 <= j < ds.len() ==> ds[j] is Err,
        },
    decreases ds.len(),
{
    if ds.len() > 0 {
        let prev = ds.drop_last();
        lemma_first_valid(prev);
        assert(forall|j: int| 0 <= j < prev.len() ==> prev[j] == ds[j]);
    }
}

/// Changing any single byte of an encoded entry makes it fail to decode: the
/// checksum no longer matches.
pub proof fn lemma_entry_one_byte_damage(v: ControlPlaneView, p: int, x: u8, erased: u8)
    requires
        encodable(v),
        erased == 0 || erased == 0xFF,
        0 <= p < CONTROL_PLANE_ENTRY_SIZE,
        x != encode_entry(v)[p],
    ensures
        decode_entry(encode_entry(v).update(p, x), erased) is Err,
{
    lemma_entry_round_trip(v, erased);
    let e = encode_entry(v);
    let d = e.update(p, x);
    let crc_off = CONTROL_CRC32_OFFSET as int;
    if !all_bytes_equal(d, erased) {
        let f1 = entry_field(e, CONTROL_CRC32_OFFSET, 4);
        let f2 = entry_field(d, CONTROL_CRC32_OFFSET, 4);
        let p1 = e.subrange(0, crc_off);
        let p2 = d.subrange(0, crc_off);
        assert(from_le32(f1) == crc32_spec(p1));
        if p < crc_off {
            assert(f1 =~= f2);
            assert(p1[p] != p2[p]);
            lemma_crc32_detects_one_byte(p1, p2, p);
        } else {
            assert(p1 =~= p2);
            assert(f1[p - crc_off] != f2[p - crc_off]);
            lemma_from_le32_injective(f1, f2);
        }
    }
}

/// When every replica holds the encoding of one encodable record, the first
/// replica is authoritative and holds that record.
pub proof fn lemma_uniform_authoritative(entries: Seq<Seq<u8>>, v: ControlPlaneView, erased: u8)
    requires
        entries.len() >= 1,
        encodable(v),
        erased == 0 || erased == 0xFF,
        entries[0] == encode_entry(v),
    ensures
        authoritative(entries, erased) == Ok::<(int, ControlPlaneView), StorageError>((0, v)),
{
    let ds = replica_decodes(entries, erased);
    lemma_entry_round_trip(v, erased);
    assert(ds[0] == decode_entry(entries[0], erased));
    lemma_first_valid_head(ds);
}

/// When all replicas but one hold the encoding of one encodable record, and
/// the odd one holds it too or fails to decode, that record is authoritative.
pub proof fn lemma_all_but_one_authoritative(entries: Seq<Seq<u8>>, v: ControlPlaneView, odd: int, erased: u8)
    requires
        entries.len() == CONTROL_PLANE_COUNT,
        0 <= odd < CONTROL_PLANE_COUNT,
        encodable(v),
        erased == 0 || erased == 0xFF,
        forall|r: int| 0 <= r < CONTROL_PLANE_COUNT && r != odd ==> #[trigger] entries[r] == encode_entry(v),
        entries[odd] == encode_entry(v) || decode_entry(entries[odd], erased) is Err,
    ensures
        authoritative(entries, erased) matches Ok((_, w)) && w == v,
{
    let ds = replica_decodes(entries, erased);
    lemma_entry_round_trip(v, erased);
    let other: int = if odd == 0 {
        1
    } else {
        0
    };
    assert(ds[other] == decode_entry(entries[other], erased));
    lemma_first_valid(ds);
    let i = first_valid(ds)->Some_0;
    assert(ds[i] == decode_entry(entries[i], erased));
    assert(ds[odd] == decode_entry(entries[odd], erased));
    assert(entries[i] == encode_entry(v));
}

/// A scan whose first replica decodes picks that replica.
proof fn lemma_first_valid_head(ds: Seq<Result<ControlPlaneView, StorageError>>)
    requires
        ds.len() >= 1,
        ds[0] is Ok,
    ensures
        first_valid(ds) == Some(0int),
{
    lemma_first_valid(ds);
}

/// A record decoded from an entry can be encoded and decoded back unchanged.
pub proof fn lemma_decoded_is_encodable(e: Seq<u8>, erased: u8)
    requires
        e.len() == CONTROL_PLANE_ENTRY_SIZE,
        decode_entry(e, erased) is Ok,
    ensures
        encodable(decode_entry(e, erased)->Ok_0),
{
    if e[CHAIN_CONFIG_OFFSET as int] != 0 {
        lemma_trimmed_canonical(entry_field(e, CHAIN_CONFIG_OFFSET, MAX_BLOCK_SIZE));
    }
}

/// The model of a decode result.
pub open spec fn result_view(r: Result<ControlPlaneData, StorageError>) -> Result<ControlPlaneView, StorageError> {
    match r {
        Ok(d) => Ok(d@),
        Err(e) => Err(e),
    }
}

/// Serializes a record into one control-plane entry.
pub fn encode_control_record(record: &ControlPlaneData) -> (r: Vec<u8>)
    ensures
        r@ == encode_entry(record@),
        r@.len() == CONTROL_PLANE_ENTRY_SIZE,
{
    let mut out: Vec<u8> = Vec::with_capacity(CONTROL_PLANE_ENTRY_SIZE);
    out.push(CONTROL_PLANE_VERSION);
    out.push(PRIVATE_KEY_SIZE as u8);
    extend_bytes(&mut out, &record.private_key);
    push_le32(&mut out, record.own_node_id);
    out.push(INIT_PARAMS_SIZE as u8);
    extend_bytes(&mut out, &record.init_params);
    push_le16(&mut out, MAX_BLOCK_SIZE as u16);
    match &record.chain_configuration {
        Some(block) => {
            let bytes = block.padded_bytes();
            extend_bytes(&mut out, bytes.as_slice());
        },
        None => {
            push_zeros(&mut out, MAX_BLOCK_SIZE);
        },
    }
    proof {
        assert(out@ == entry_prefix(record@));
    }
    let crc = crc32(out.as_slice());
    push_le32(&mut out, crc);
    out
}

/// Decodes one control-plane entry read from a medium whose blank byte is
/// `erased`.
pub fn decode_control_entry(bytes: &[u8], erased: u8) -> (r: Result<ControlPlaneData, StorageError>)
    requires
        bytes@.len() == CONTROL_PLANE_ENTRY_SIZE,
    ensures
        result_view(r) == decode_entry(bytes@, erased),
        r matches Ok(d) ==> d.version == CONTROL_PLANE_VERSION,
{
    if all_equal(bytes, erased) {
        return Err(StorageError::ControlPlaneUninitialized);
    }
    let stored_crc = read_le32(bytes, CONTROL_CRC32_OFFSET);
    let computed_crc = crc32(slice_subrange(bytes, 0, CONTROL_CRC32_OFFSET));
    if stored_crc != computed_crc {
        return Err(StorageError::ControlPlaneCorrupted);
    }
    if bytes[VERSION_OFFSET] != CONTROL_PLANE_VERSION || bytes[PRIVATE_KEY_SIZE_OFFSET]
        != PRIVATE_KEY_SIZE as u8 || bytes[INIT_PARAMS_SIZE_OFFSET] != INIT_PARAMS_SIZE as u8
        || read_le16(bytes, MAX_BLOCK_SIZE_OFFSET) != MAX_BLOCK_SIZE as u16 {
        return Err(StorageError::ControlPlaneIncompatible);
    }
    let chain_configuration = if bytes[CHAIN_CONFIG_OFFSET] == 0 {
        None
    } else {
        match Block::from_bytes(
            slice_subrange(bytes, CHAIN_CONFIG_OFFSET, CHAIN_CONFIG_OFFSET + MAX_BLOCK_SIZE),
        ) {
            Ok(block) => Some(block),
            Err(_) => {
                return Err(StorageError::ControlPlaneCorrupted);
            },
        }
    };
    let private_key: [u8; PRIVATE_KEY_SIZE] = array_from(bytes, PRIVATE_KEY_OFFSET);
    let init_params: [u8; INIT_PARAMS_SIZE] = array_from(bytes, INIT_PARAMS_OFFSET);
    let own_node_id = read_le32(bytes, OWN_NODE_ID_OFFSET);
    Ok(
        ControlPlaneData {
            version: CONTROL_PLANE_VERSION,
            private_key,
            own_node_id,
            init_params,
            chain_configuration,
        },
    )
}

} // verus!
