use moonblokz_storage::backend_rp2040::{
    map_storage_index, BLOCKS_PER_PAGE, BLOCKS_PER_PAGE_INDEX, FLASH_PAGE_SIZE, SLOT_HASH_OFFSET,
    SLOT_SIZE_BYTES,
};
use moonblokz_storage::control_plane::CONTROL_PLANE_ENTRY_SIZE;
use moonblokz_storage::{
    Block, Rp2040Backend, StorageError, StorageIndex, CONTROL_PLANE_COUNT, HASH_SIZE,
    INIT_PARAMS_SIZE, MAX_BLOCK_SIZE, PRIVATE_KEY_SIZE,
};

const TEST_FLASH_ONE_BLOCK_PAGE: usize = (CONTROL_PLANE_COUNT + 1) * FLASH_PAGE_SIZE;
const TEST_FLASH_TWO_BLOCK_PAGES: usize = (CONTROL_PLANE_COUNT + 2) * FLASH_PAGE_SIZE;
const TEST_FLASH_THREE_BLOCK_PAGES: usize = (CONTROL_PLANE_COUNT + 3) * FLASH_PAGE_SIZE;
const TEST_FLASH_FOUR_BLOCK_PAGES: usize = (CONTROL_PLANE_COUNT + 4) * FLASH_PAGE_SIZE;
const TEST_FLASH_EIGHT_BLOCK_PAGES: usize = (CONTROL_PLANE_COUNT + 8) * FLASH_PAGE_SIZE;

/// Integrity hash used by these tests in place of the chain's block hash:
/// any deterministic digest of the block bytes serves.
fn calculate_hash(bytes: &[u8]) -> [u8; HASH_SIZE] {
    let mut state: [u64; 4] = [
        0xcbf2_9ce4_8422_2325,
        0x8422_2325_cbf2_9ce4,
        0x9e37_79b9_7f4a_7c15,
        0x7f4a_7c15_9e37_79b9,
    ];
    for (i, byte) in bytes.iter().enumerate() {
        let lane = i % 4;
        state[lane] ^= *byte as u64;
        state[lane] = state[lane].wrapping_mul(0x0000_0100_0000_01b3);
        state[(lane + 1) % 4] ^= state[lane].rotate_left(17);
    }
    let mut out = [0u8; HASH_SIZE];
    for lane in 0..4 {
        out[lane * 8..lane * 8 + 8].copy_from_slice(&state[lane].to_le_bytes());
    }
    out
}

fn save_block<const N: usize>(
    backend: &mut Rp2040Backend<N>,
    storage_index: StorageIndex,
    block: &Block,
) -> Result<(), StorageError> {
    let hash = calculate_hash(&block.padded_bytes());
    backend.save_block(storage_index, block, &hash)
}

fn read_block<const N: usize>(
    backend: &Rp2040Backend<N>,
    storage_index: StorageIndex,
) -> Result<Block, StorageError> {
    let slot = backend.read_slot_bytes(storage_index)?;
    let hash = calculate_hash(&slot[..MAX_BLOCK_SIZE]);
    Rp2040Backend::<N>::decode_slot_block(&slot, &hash)
}

fn new_backend<const N: usize>(start: usize) -> Rp2040Backend<N> {
    Rp2040Backend::<N>::new_for_tests(start).unwrap_or_else(|_| unreachable!())
}

fn block_from_marker(marker: u8) -> Block {
    let mut bytes = [0u8; MAX_BLOCK_SIZE];
    bytes[0] = marker;

    let parse_result = Block::from_bytes(&bytes);
    assert!(parse_result.is_ok());
    match parse_result {
        Ok(value) => value,
        Err(_) => unreachable!(),
    }
}

#[test]
fn new_calculates_max_slots_from_storage_geometry() {
    let backend = new_backend::<TEST_FLASH_THREE_BLOCK_PAGES>(FLASH_PAGE_SIZE);
    assert_eq!(
        backend.max_storage_slots(),
        (2 * BLOCKS_PER_PAGE) as StorageIndex
    );
}

#[test]
fn new_for_tests_returns_error_on_misaligned_start_address() {
    let backend = Rp2040Backend::<TEST_FLASH_ONE_BLOCK_PAGE>::new_for_tests(1);
    assert!(matches!(backend, Err(StorageError::InvalidConfiguration)));
}

#[test]
fn first_page_mapping_is_deterministic() {
    let mapping = map_storage_index(0);
    assert_eq!(mapping.page_index, 0);
    assert_eq!(mapping.slot_index, 0);
    assert_eq!(mapping.byte_offset_in_page, 0);
}

#[test]
fn last_slot_in_page_maps_to_expected_offset() {
    let index = (BLOCKS_PER_PAGE - 1) as StorageIndex;
    let mapping = map_storage_index(index);

    assert_eq!(mapping.page_index, 0);
    assert_eq!(mapping.slot_index, (BLOCKS_PER_PAGE - 1) as StorageIndex);
    assert_eq!(
        mapping.byte_offset_in_page,
        (BLOCKS_PER_PAGE - 1) * SLOT_SIZE_BYTES
    );
}

#[test]
fn page_boundary_transition_maps_correctly() {
    let first_next_page = BLOCKS_PER_PAGE as StorageIndex;
    let mapping = map_storage_index(first_next_page);

    assert_eq!(mapping.page_index, 1);
    assert_eq!(mapping.slot_index, 0);
    assert_eq!(mapping.byte_offset_in_page, 0);
}

#[test]
fn high_index_mapping_stays_consistent() {
    let high_index = StorageIndex::MAX;
    let mapping = map_storage_index(high_index);

    let expected_page = high_index / BLOCKS_PER_PAGE_INDEX;
    let expected_slot = high_index % BLOCKS_PER_PAGE_INDEX;

    assert_eq!(mapping.page_index, expected_page);
    assert_eq!(mapping.slot_index, expected_slot);
    assert_eq!(
        mapping.byte_offset_in_page,
        expected_slot as usize * SLOT_SIZE_BYTES
    );
}

#[test]
fn save_block_succeeds_for_valid_index() {
    let mut backend = new_backend::<TEST_FLASH_TWO_BLOCK_PAGES>(0);
    let block = block_from_marker(7);

    let save_result = save_block(&mut backend, 1, &block);
    assert!(save_result.is_ok());

    let read_result = read_block(&backend, 1);
    assert!(read_result.is_ok());
    let read_block = match read_result {
        Ok(value) => value,
        Err(_) => return,
    };
    assert_eq!(read_block.as_bytes(), block.as_bytes());
}

#[test]
fn save_block_rejects_invalid_index() {
    let mut backend = new_backend::<TEST_FLASH_ONE_BLOCK_PAGE>(0);
    let block = block_from_marker(8);

    let save_result = save_block(&mut backend, BLOCKS_PER_PAGE as StorageIndex, &block);
    assert!(matches!(save_result, Err(StorageError::InvalidIndex)));
}

#[test]
fn save_block_succeeds_at_last_valid_index() {
    let mut backend = new_backend::<TEST_FLASH_EIGHT_BLOCK_PAGES>(0);
    let block = block_from_marker(9);
    let last_valid_index = backend.max_storage_slots() - 1;

    let save_result = save_block(&mut backend, last_valid_index, &block);
    assert!(save_result.is_ok());
}

#[test]
fn storage_start_address_reduces_capacity() {
    let backend = new_backend::<TEST_FLASH_THREE_BLOCK_PAGES>(2 * FLASH_PAGE_SIZE);
    assert_eq!(backend.max_storage_slots(), BLOCKS_PER_PAGE as StorageIndex);
    assert_eq!(backend.data_storage_start_address(), 2 * FLASH_PAGE_SIZE);
}

#[test]
fn slot_flash_address_uses_storage_start_address() {
    let backend = new_backend::<TEST_FLASH_FOUR_BLOCK_PAGES>(FLASH_PAGE_SIZE);
    let mapping = map_storage_index(BLOCKS_PER_PAGE as StorageIndex);
    let address = backend.slot_flash_address(&mapping);

    assert_eq!(address, (CONTROL_PLANE_COUNT + 2) * FLASH_PAGE_SIZE);
}

#[test]
fn read_block_reports_absent_for_empty_slot() {
    let backend = new_backend::<TEST_FLASH_ONE_BLOCK_PAGE>(0);
    let read_result = read_block(&backend, 0);
    assert!(matches!(read_result, Err(StorageError::BlockAbsent)));
}

#[test]
fn read_block_rejects_invalid_index() {
    let backend = new_backend::<TEST_FLASH_ONE_BLOCK_PAGE>(0);
    let read_result = read_block(&backend, BLOCKS_PER_PAGE as StorageIndex);
    assert!(matches!(read_result, Err(StorageError::InvalidIndex)));
}

#[test]
fn read_block_detects_hash_mismatch() {
    let mut backend = new_backend::<TEST_FLASH_ONE_BLOCK_PAGE>(0);
    let block = block_from_marker(11);
    assert!(save_block(&mut backend, 0, &block).is_ok());

    // Corrupt first byte of stored hash in slot.
    let hash_byte_index = SLOT_HASH_OFFSET;
    backend.with_corrupted_mock_slot_byte(0, hash_byte_index);

    let read_result = read_block(&backend, 0);
    assert!(matches!(read_result, Err(StorageError::IntegrityFailure)));
}

#[test]
fn read_block_succeeds_at_last_valid_index() {
    let mut backend = new_backend::<TEST_FLASH_EIGHT_BLOCK_PAGES>(0);
    let block = block_from_marker(12);
    let last_valid_index = backend.max_storage_slots() - 1;
    assert!(save_block(&mut backend, last_valid_index, &block).is_ok());

    let read_result = read_block(&backend, last_valid_index);
    assert!(read_result.is_ok());
}

#[test]
fn read_block_detects_partially_written_slot_data() {
    let mut backend = new_backend::<TEST_FLASH_ONE_BLOCK_PAGE>(0);
    let mut raw_slot = [0xFFu8; SLOT_SIZE_BYTES];
    raw_slot[0] = 1;
    raw_slot[1] = 2;
    backend.write_mock_slot_raw(0, &raw_slot);

    let read_result = read_block(&backend, 0);
    assert!(matches!(read_result, Err(StorageError::IntegrityFailure)));
}

#[test]
fn read_block_detects_malformed_slot_with_matching_hash() {
    let mut backend = new_backend::<TEST_FLASH_ONE_BLOCK_PAGE>(0);
    let mut raw_slot = [0u8; SLOT_SIZE_BYTES];
    let computed_hash = calculate_hash(&raw_slot[..MAX_BLOCK_SIZE]);
    raw_slot[SLOT_HASH_OFFSET..SLOT_HASH_OFFSET + HASH_SIZE].copy_from_slice(&computed_hash);
    backend.write_mock_slot_raw(0, &raw_slot);

    let read_result = read_block(&backend, 0);
    assert!(matches!(read_result, Err(StorageError::IntegrityFailure)));
}

#[test]
fn startup_read_cycle_reports_typed_outcomes_for_mixed_slot_states() {
    let mut backend = new_backend::<TEST_FLASH_TWO_BLOCK_PAGES>(0);
    let block = block_from_marker(13);
    assert!(save_block(&mut backend, 0, &block).is_ok());

    let mut partial_slot = [0xFFu8; SLOT_SIZE_BYTES];
    partial_slot[0] = 1;
    backend.write_mock_slot_raw(1, &partial_slot);

    let slot0 = read_block(&backend, 0);
    let slot1 = read_block(&backend, 1);
    let slot2 = read_block(&backend, 2);

    assert!(matches!(slot0, Ok(_)));
    assert!(matches!(slot1, Err(StorageError::IntegrityFailure)));
    assert!(matches!(slot2, Err(StorageError::BlockAbsent)));
}

#[test]
fn integration_startup_ingest_query_flow_with_valid_dataset() {
    let mut backend = new_backend::<TEST_FLASH_THREE_BLOCK_PAGES>(0);
    let block_a = block_from_marker(21);
    let block_b = block_from_marker(22);
    let block_c = block_from_marker(23);

    // Ingest flow: accepted blocks are saved at deterministic indices.
    assert!(save_block(&mut backend, 0, &block_a).is_ok());
    assert!(save_block(&mut backend, 2, &block_b).is_ok());
    assert!(save_block(&mut backend, 5, &block_c).is_ok());

    // Startup flow: chain logic reads a contiguous range and gets typed outcomes.
    let startup_scan = [
        read_block(&backend, 0),
        read_block(&backend, 1),
        read_block(&backend, 2),
        read_block(&backend, 3),
        read_block(&backend, 4),
        read_block(&backend, 5),
    ];

    assert!(matches!(startup_scan[0], Ok(_)));
    assert!(matches!(startup_scan[1], Err(StorageError::BlockAbsent)));
    assert!(matches!(startup_scan[2], Ok(_)));
    assert!(matches!(startup_scan[3], Err(StorageError::BlockAbsent)));
    assert!(matches!(startup_scan[4], Err(StorageError::BlockAbsent)));
    assert!(matches!(startup_scan[5], Ok(_)));

    // Query flow: retrieval returns exact stored blocks for populated indices.
    let read_a = read_block(&backend, 0);
    let read_b = read_block(&backend, 2);
    let read_c = read_block(&backend, 5);
    assert!(read_a.is_ok());
    assert!(read_b.is_ok());
    assert!(read_c.is_ok());
    let read_a = match read_a {
        Ok(value) => value,
        Err(_) => return,
    };
    let read_b = match read_b {
        Ok(value) => value,
        Err(_) => return,
    };
    let read_c = match read_c {
        Ok(value) => value,
        Err(_) => return,
    };
    assert_eq!(read_a.as_bytes(), block_a.as_bytes());
    assert_eq!(read_b.as_bytes(), block_b.as_bytes());
    assert_eq!(read_c.as_bytes(), block_c.as_bytes());
}

#[test]
fn integration_startup_and_query_flow_reports_integrity_on_corrupted_dataset() {
    let mut backend = new_backend::<TEST_FLASH_TWO_BLOCK_PAGES>(0);
    let block_ok = block_from_marker(31);
    let block_corrupted = block_from_marker(32);

    // Ingest flow.
    assert!(save_block(&mut backend, 0, &block_ok).is_ok());
    assert!(save_block(&mut backend, 1, &block_corrupted).is_ok());

    // Corrupt one persisted slot and inject one partial slot.
    backend.with_corrupted_mock_slot_byte(1, SLOT_HASH_OFFSET);
    let mut partial_slot = [0xFFu8; SLOT_SIZE_BYTES];
    partial_slot[0] = 1;
    backend.write_mock_slot_raw(2, &partial_slot);

    // Startup flow over mixed health states.
    assert!(matches!(read_block(&backend, 0), Ok(_)));
    assert!(matches!(
        read_block(&backend, 1),
        Err(StorageError::IntegrityFailure)
    ));
    assert!(matches!(
        read_block(&backend, 2),
        Err(StorageError::IntegrityFailure)
    ));
    assert!(matches!(
        read_block(&backend, 3),
        Err(StorageError::BlockAbsent)
    ));

    // Query flow: contract consistency for invalid index remains intact.
    let invalid_index = backend.max_storage_slots();
    assert!(matches!(
        read_block(&backend, invalid_index),
        Err(StorageError::InvalidIndex)
    ));
}

#[test]
fn control_plane_load_reports_uninitialized_before_init() {
    let mut backend = new_backend::<TEST_FLASH_ONE_BLOCK_PAGE>(0);
    assert!(matches!(
        backend.load_control_data(),
        Err(StorageError::ControlPlaneUninitialized)
    ));
}

#[test]
fn control_plane_init_and_load_round_trip() {
    let mut backend = new_backend::<TEST_FLASH_ONE_BLOCK_PAGE>(0);
    let private_key = [7u8; PRIVATE_KEY_SIZE];
    let init_params = [9u8; INIT_PARAMS_SIZE];
    assert!(backend.init(private_key, 42, init_params).is_ok());

    let loaded = backend.load_control_data();
    assert!(loaded.is_ok());
    let loaded = match loaded {
        Ok(value) => value,
        Err(_) => return,
    };

    assert_eq!(loaded.private_key, private_key);
    assert_eq!(loaded.own_node_id, 42);
    assert_eq!(loaded.init_params, init_params);
    assert!(loaded.chain_configuration.is_none());
}

#[test]
fn control_plane_set_chain_configuration_is_set_once() {
    let mut backend = new_backend::<TEST_FLASH_ONE_BLOCK_PAGE>(0);
    assert!(backend
        .init([1u8; PRIVATE_KEY_SIZE], 1, [2u8; INIT_PARAMS_SIZE])
        .is_ok());
    let cfg_block = block_from_marker(55);

    assert!(backend.set_chain_configuration(&cfg_block).is_ok());
    assert!(matches!(
        backend.set_chain_configuration(&cfg_block),
        Err(StorageError::ChainConfigurationAlreadySet)
    ));

    let loaded = backend.load_control_data();
    assert!(loaded.is_ok());
    let loaded = match loaded {
        Ok(value) => value,
        Err(_) => return,
    };
    assert!(loaded.chain_configuration.is_some());
}

#[test]
fn control_plane_load_repairs_corrupted_replica() {
    let mut backend = new_backend::<TEST_FLASH_ONE_BLOCK_PAGE>(0);
    assert!(backend
        .init([1u8; PRIVATE_KEY_SIZE], 2, [3u8; INIT_PARAMS_SIZE])
        .is_ok());

    // Corrupt first replica header byte.
    let replica0_addr = backend.control_plane_page_address(0);
    backend.with_corrupted_mock_byte(replica0_addr);

    assert!(backend.load_control_data().is_ok());

    // Re-read replica page and check CRC-valid deserialization.
    let repaired_page = backend.read_page(replica0_addr);
    assert!(repaired_page.is_ok());
    let repaired_page = match repaired_page {
        Ok(value) => value,
        Err(_) => return,
    };
    let repaired = Rp2040Backend::<TEST_FLASH_ONE_BLOCK_PAGE>::deserialize_control_record(
        &repaired_page[..CONTROL_PLANE_ENTRY_SIZE],
    );
    assert!(repaired.is_ok());
}

#[test]
fn init_returns_error_on_misaligned_start_address() {
    let mut backend = new_backend::<TEST_FLASH_ONE_BLOCK_PAGE>(0);
    backend.set_data_storage_start_address(1);
    let init_result = backend.init([1u8; PRIVATE_KEY_SIZE], 1, [0u8; INIT_PARAMS_SIZE]);
    assert!(matches!(init_result, Err(StorageError::InvalidConfiguration)));
}
