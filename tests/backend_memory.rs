use moonblokz_storage::backend_memory::CONTROL_PLANE_RESERVED_BYTES;
use moonblokz_storage::control_plane::{CONTROL_CRC32_OFFSET, VERSION_OFFSET};
use moonblokz_storage::{
    crc32, Block, MemoryBackend, StorageError, CONTROL_PLANE_VERSION, INIT_PARAMS_SIZE,
    MAX_BLOCK_SIZE, PRIVATE_KEY_SIZE,
};

const HEADER_SIZE: usize = 120;
const TEST_PRIVATE_KEY: [u8; PRIVATE_KEY_SIZE] = [7u8; PRIVATE_KEY_SIZE];
const TEST_NODE_ID: u32 = 42;
const TEST_INIT_PARAMS: [u8; INIT_PARAMS_SIZE] = [9u8; INIT_PARAMS_SIZE];
const TEST_STORAGE_SIZE_2_SLOTS: usize = CONTROL_PLANE_RESERVED_BYTES + (2 * MAX_BLOCK_SIZE);
const TEST_STORAGE_SIZE_3_SLOTS: usize = CONTROL_PLANE_RESERVED_BYTES + (3 * MAX_BLOCK_SIZE);
const TEST_STORAGE_SIZE_4_SLOTS: usize = CONTROL_PLANE_RESERVED_BYTES + (4 * MAX_BLOCK_SIZE);

fn block_from_len_and_marker(len: usize, marker: u8) -> Block {
    let mut bytes = [0u8; HEADER_SIZE + 8];
    bytes[0] = marker;
    let parse_result = Block::from_bytes(&bytes[..len]);
    assert!(parse_result.is_ok());
    match parse_result {
        Ok(value) => value,
        Err(_) => unreachable!(),
    }
}

fn expected_slot_bytes(block: &Block) -> [u8; MAX_BLOCK_SIZE] {
    let mut out = [0u8; MAX_BLOCK_SIZE];
    let bytes = block.as_bytes();
    out[..bytes.len()].copy_from_slice(bytes);
    out
}

fn initialized_backend<const STORAGE_SIZE: usize>() -> MemoryBackend<STORAGE_SIZE> {
    let mut backend = MemoryBackend::<STORAGE_SIZE>::new();
    assert!(backend
        .init(TEST_PRIVATE_KEY, TEST_NODE_ID, TEST_INIT_PARAMS)
        .is_ok());
    backend
}

#[test]
fn load_control_data_reports_uninitialized_before_init() {
    let mut backend = MemoryBackend::<TEST_STORAGE_SIZE_2_SLOTS>::new();
    assert!(matches!(
        backend.load_control_data(),
        Err(StorageError::ControlPlaneUninitialized)
    ));
}

#[test]
fn load_control_data_reports_incompatible_when_all_replicas_incompatible() {
    let mut backend = initialized_backend::<TEST_STORAGE_SIZE_2_SLOTS>();
    let mut replica = backend.read_control_plane_entry(0);
    replica[VERSION_OFFSET] = CONTROL_PLANE_VERSION.wrapping_add(1);
    let crc = crc32(&replica[..CONTROL_CRC32_OFFSET]);
    replica[CONTROL_CRC32_OFFSET..CONTROL_CRC32_OFFSET + 4].copy_from_slice(&crc.to_le_bytes());
    backend.write_control_plane_entry(0, &replica);
    backend.write_control_plane_entry(1, &replica);
    backend.write_control_plane_entry(2, &replica);

    assert!(matches!(
        backend.load_control_data(),
        Err(StorageError::ControlPlaneIncompatible)
    ));
}

#[test]
fn init_stores_control_plane_and_clears_block_slots() {
    let mut backend = MemoryBackend::<TEST_STORAGE_SIZE_2_SLOTS>::new();
    let block = block_from_len_and_marker(HEADER_SIZE, 1);
    assert!(backend.save_block(0, &block).is_ok());

    assert!(backend
        .init(TEST_PRIVATE_KEY, TEST_NODE_ID, TEST_INIT_PARAMS)
        .is_ok());

    assert!(matches!(backend.read_block(0), Err(StorageError::BlockAbsent)));
    let loaded = backend.load_control_data();
    assert!(loaded.is_ok());
    let loaded = match loaded {
        Ok(value) => value,
        Err(_) => return,
    };
    assert_eq!(loaded.version, CONTROL_PLANE_VERSION);
    assert_eq!(loaded.private_key, TEST_PRIVATE_KEY);
    assert_eq!(loaded.own_node_id, TEST_NODE_ID);
    assert_eq!(loaded.init_params, TEST_INIT_PARAMS);
    assert!(loaded.chain_configuration.is_none());
}

#[test]
fn set_chain_configuration_is_set_once() {
    let mut backend = initialized_backend::<TEST_STORAGE_SIZE_2_SLOTS>();
    let config = block_from_len_and_marker(HEADER_SIZE, 3);

    assert!(backend.set_chain_configuration(&config).is_ok());
    assert!(matches!(
        backend.set_chain_configuration(&config),
        Err(StorageError::ChainConfigurationAlreadySet)
    ));

    let loaded = backend.load_control_data();
    assert!(loaded.is_ok());
    let loaded = match loaded {
        Ok(value) => value,
        Err(_) => return,
    };
    assert!(loaded.chain_configuration.is_some());
}

#[test]
fn load_repairs_corrupted_control_plane_replica() {
    let mut backend = initialized_backend::<TEST_STORAGE_SIZE_2_SLOTS>();
    let mut replica = backend.read_control_plane_entry(1);
    replica[VERSION_OFFSET] ^= 0xFF;
    backend.write_control_plane_entry(1, &replica);

    let loaded = backend.load_control_data();
    assert!(loaded.is_ok());
    let repaired = MemoryBackend::<TEST_STORAGE_SIZE_2_SLOTS>::deserialize_record(
        &backend.read_control_plane_entry(1),
    );
    assert!(repaired.is_ok());
}

#[test]
fn compile_time_block_storage_size_is_enforced() {
    let mut backend = initialized_backend::<TEST_STORAGE_SIZE_2_SLOTS>();
    let block = block_from_len_and_marker(HEADER_SIZE, 1);

    assert!(backend.save_block(0, &block).is_ok());
    assert!(backend.save_block(1, &block).is_ok());
    assert!(matches!(
        backend.save_block(2, &block),
        Err(StorageError::InvalidIndex)
    ));
}

#[test]
fn read_reports_absent_for_valid_empty_slot() {
    let backend = initialized_backend::<TEST_STORAGE_SIZE_2_SLOTS>();
    assert!(matches!(
        backend.read_block(0),
        Err(StorageError::BlockAbsent)
    ));
}

#[test]
fn read_reports_invalid_index_for_out_of_range_slot() {
    let backend = initialized_backend::<TEST_STORAGE_SIZE_2_SLOTS>();
    assert!(matches!(
        backend.read_block(2),
        Err(StorageError::InvalidIndex)
    ));
}

#[test]
fn save_and_read_round_trip() {
    let mut backend = initialized_backend::<TEST_STORAGE_SIZE_2_SLOTS>();
    let block = block_from_len_and_marker(HEADER_SIZE, 1);

    assert!(backend.save_block(0, &block).is_ok());
    let read_result = backend.read_block(0);
    assert!(read_result.is_ok());
    let read_block = match read_result {
        Ok(value) => value,
        Err(_) => return,
    };
    assert_eq!(read_block.len(), block.len());
    assert_eq!(read_block.as_bytes(), block.as_bytes());
    let raw_slot = backend.read_slot_bytes(0);
    assert_eq!(raw_slot, Ok(expected_slot_bytes(&block).to_vec()));
}

#[test]
fn startup_read_cycle_over_empty_backend_is_deterministic() {
    let backend = initialized_backend::<TEST_STORAGE_SIZE_3_SLOTS>();

    for storage_index in 0u32..3u32 {
        let result = backend.read_block(storage_index);
        assert!(matches!(result, Err(StorageError::BlockAbsent)));
    }

    assert!(matches!(
        backend.read_block(3),
        Err(StorageError::InvalidIndex)
    ));
}

#[test]
fn overwrite_same_index_is_deterministic() {
    let mut backend = initialized_backend::<TEST_STORAGE_SIZE_2_SLOTS>();
    let first = block_from_len_and_marker(HEADER_SIZE, 3);
    let second = block_from_len_and_marker(HEADER_SIZE + 1, 4);

    assert!(backend.save_block(0, &first).is_ok());
    assert!(backend.save_block(0, &second).is_ok());

    let read_result = backend.read_block(0);
    assert!(read_result.is_ok());
    let read_block = match read_result {
        Ok(value) => value,
        Err(_) => return,
    };
    assert_eq!(read_block.as_bytes(), second.as_bytes());
    let raw_slot = backend.read_slot_bytes(0);
    assert_eq!(raw_slot, Ok(expected_slot_bytes(&second).to_vec()));
}

#[test]
fn multi_index_save_and_retrieve_returns_expected_blocks() {
    let mut backend = initialized_backend::<TEST_STORAGE_SIZE_3_SLOTS>();
    let block_a = block_from_len_and_marker(HEADER_SIZE, 5);
    let block_b = block_from_len_and_marker(HEADER_SIZE + 2, 6);

    assert!(backend.save_block(0, &block_a).is_ok());
    assert!(backend.save_block(1, &block_b).is_ok());

    let read_a = backend.read_block(0);
    let read_b = backend.read_block(1);
    assert!(read_a.is_ok());
    assert!(read_b.is_ok());

    let read_a = match read_a {
        Ok(value) => value,
        Err(_) => return,
    };
    let read_b = match read_b {
        Ok(value) => value,
        Err(_) => return,
    };

    assert_eq!(read_a.as_bytes(), block_a.as_bytes());
    assert_eq!(read_b.as_bytes(), block_b.as_bytes());
}

#[test]
fn startup_read_cycle_with_mixed_slots_returns_typed_outcomes() {
    let mut backend = initialized_backend::<TEST_STORAGE_SIZE_4_SLOTS>();
    let block = block_from_len_and_marker(HEADER_SIZE + 1, 7);

    assert!(backend.save_block(1, &block).is_ok());
    assert!(backend.save_block(3, &block).is_ok());

    assert!(matches!(
        backend.read_block(0),
        Err(StorageError::BlockAbsent)
    ));
    assert!(matches!(backend.read_block(1), Ok(_)));
    assert!(matches!(
        backend.read_block(2),
        Err(StorageError::BlockAbsent)
    ));
    assert!(matches!(backend.read_block(3), Ok(_)));
    assert!(matches!(
        backend.read_block(4),
        Err(StorageError::InvalidIndex)
    ));
}

#[test]
fn ingest_query_integration_flow_covers_positive_and_negative_paths() {
    let mut backend = initialized_backend::<TEST_STORAGE_SIZE_4_SLOTS>();
    let block_a = block_from_len_and_marker(HEADER_SIZE, 8);
    let block_b = block_from_len_and_marker(HEADER_SIZE + 3, 9);

    assert!(matches!(
        backend.read_block(0),
        Err(StorageError::BlockAbsent)
    ));
    assert!(matches!(
        backend.read_block(1),
        Err(StorageError::BlockAbsent)
    ));

    assert!(backend.save_block(0, &block_a).is_ok());
    assert!(backend.save_block(2, &block_b).is_ok());

    let read_a = backend.read_block(0);
    let read_b = backend.read_block(2);
    assert!(read_a.is_ok());
    assert!(read_b.is_ok());
    let read_a = match read_a {
        Ok(value) => value,
        Err(_) => return,
    };
    let read_b = match read_b {
        Ok(value) => value,
        Err(_) => return,
    };
    assert_eq!(read_a.as_bytes(), block_a.as_bytes());
    assert_eq!(read_b.as_bytes(), block_b.as_bytes());

    assert!(matches!(
        backend.read_block(1),
        Err(StorageError::BlockAbsent)
    ));
    assert!(matches!(
        backend.save_block(4, &block_a),
        Err(StorageError::InvalidIndex)
    ));
    assert!(matches!(
        backend.read_block(4),
        Err(StorageError::InvalidIndex)
    ));
}
