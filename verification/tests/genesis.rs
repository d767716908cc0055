use knotcoin::consensus::genesis::{
    check_genesis_miner, create_genesis_block, create_genesis_block_for, mainnet_genesis_target,
    GenesisError, MAINNET_GENESIS_TIMESTAMP,
};

#[test]
fn test_genesis_block_structure() {
    // the built-in miner address is the placeholder: no block is handed out with it
    assert!(matches!(create_genesis_block(), Err(GenesisError::PlaceholderAddress)));
    let genesis = create_genesis_block_for(&[0x42u8; 32]).unwrap();
    assert_eq!(genesis.previous_hash, [0u8; 32]);
    // Genesis miner address must NOT be all zeros (would burn reward)
    assert_ne!(genesis.miner_address, [0u8; 32], "genesis miner address cannot be zero");
    assert_eq!(u32::from_le_bytes(genesis.block_height), 0);
    assert_eq!(u32::from_le_bytes(genesis.timestamp), MAINNET_GENESIS_TIMESTAMP);
    assert!(genesis.tx_data.is_empty());
}

#[test]
fn test_genesis_fields() {
    let genesis = create_genesis_block_for(&[0x42u8; 32]).unwrap();
    assert_eq!(genesis.version, [1, 0, 0, 0]);
    assert_eq!(genesis.merkle_root, [0u8; 32]);
    assert_eq!(genesis.nonce, [0u8; 8]);
    let mut target = [0xFFu8; 32];
    target[0] = 0x7F;
    assert_eq!(genesis.difficulty_target, target);
    assert_eq!(mainnet_genesis_target(), target);
    assert_eq!(genesis.miner_address, [0x42u8; 32]);
    assert_ne!(genesis.miner_address, [0xFFu8; 32]);
}

#[test]
fn test_genesis_refuses_burn_address_and_placeholder() {
    assert_eq!(check_genesis_miner(&[0u8; 32]), Err(GenesisError::BurnAddress));
    assert_eq!(check_genesis_miner(&[0xFFu8; 32]), Err(GenesisError::PlaceholderAddress));
    assert_eq!(check_genesis_miner(&[0x01u8; 32]), Ok(()));
    let mut nearly = [0xFFu8; 32];
    nearly[31] = 0xFE;
    assert_eq!(check_genesis_miner(&nearly), Ok(()));
    assert!(matches!(create_genesis_block_for(&[0u8; 32]), Err(GenesisError::BurnAddress)));
    assert!(matches!(
        create_genesis_block_for(&[0xFFu8; 32]),
        Err(GenesisError::PlaceholderAddress)
    ));
    let block = create_genesis_block_for(&[0x42u8; 32]).unwrap();
    assert_eq!(block.miner_address, [0x42u8; 32]);
    assert_eq!(u32::from_le_bytes(block.block_height), 0);
    assert_eq!(u32::from_le_bytes(block.timestamp), 1771545600);
}
