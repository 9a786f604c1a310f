use poh_core::config::{
    check_id, id, process_instruction, Account, ConfigState, KeyedAccount, ProgramError,
};
use poh_core::transaction::Pubkey;

#[test]
fn test_config_serialize() {
    let config_state = ConfigState::new(42);
    let buffer = config_state.serialize();
    assert_eq!(buffer.len(), ConfigState::max_size(42) as usize);
    assert_eq!(ConfigState::deserialize(&buffer).unwrap(), config_state);
}

#[test]
fn test_config_store_ok_seq_plus_1() {
    let mut config_state = ConfigState::new(42);
    let mut new_config_state = ConfigState::new(42);
    new_config_state.seq = config_state.seq + 1;
    config_state.store(new_config_state).unwrap();
}

#[test]
fn test_config_store_ok_seq_plus_2() {
    let mut config_state = ConfigState::new(42);
    let mut new_config_state = ConfigState::new(42);
    new_config_state.seq = config_state.seq + 2;
    config_state.store(new_config_state).unwrap();
}

#[test]
fn test_config_store_ok_different_data_len() {
    let mut config_state = ConfigState::new(42);
    let mut new_config_state = ConfigState::new(41);
    new_config_state.seq = config_state.seq + 1;
    config_state.store(new_config_state).unwrap();
}

#[test]
fn test_config_store_fail_old_sequence_number() {
    let mut config_state = ConfigState::new(42);
    let mut new_config_state = ConfigState::new(42);
    new_config_state.seq = config_state.seq;
    config_state.store(new_config_state).unwrap_err();
}

fn config_account(data_len: u64) -> KeyedAccount {
    let state = ConfigState::new(data_len);
    KeyedAccount {
        signer_key: Some(Pubkey::from_bytes(vec![7u8; 32])),
        account: Account { owner: id(), data: state.serialize() },
    }
}

#[test]
fn test_process_store_ok() {
    let mut accounts = vec![config_account(42)];
    let mut new_state = ConfigState::new(42);
    new_state.seq = 1;
    new_state.data[0] = 0xaa;
    let instruction_data = new_state.serialize();

    process_instruction(&mut accounts, &instruction_data).unwrap();

    let stored = ConfigState::deserialize(&accounts[0].account.data).unwrap();
    assert_eq!(stored, new_state);
}

#[test]
fn test_process_store_fail_account0_invalid_owner() {
    let mut accounts = vec![config_account(42)];
    accounts[0].account.owner = Pubkey::from_bytes(vec![1u8; 32]);
    assert!(!check_id(&accounts[0].account.owner));
    let mut new_state = ConfigState::new(42);
    new_state.seq = 1;
    let instruction_data = new_state.serialize();

    let err = process_instruction(&mut accounts, &instruction_data).unwrap_err();
    assert_eq!(err, ProgramError::IncorrectProgramId);
}

#[test]
fn test_process_store_fail_account0_not_signer() {
    let mut accounts = vec![config_account(42)];
    accounts[0].signer_key = None;
    let mut new_state = ConfigState::new(42);
    new_state.seq = 1;
    let instruction_data = new_state.serialize();

    let err = process_instruction(&mut accounts, &instruction_data).unwrap_err();
    assert_eq!(err, ProgramError::MissingRequiredSignature);
}

#[test]
fn test_process_store_fail_old_sequence() {
    let mut accounts = vec![config_account(42)];
    let old_state = ConfigState::new(42);
    let instruction_data = old_state.serialize();

    let err = process_instruction(&mut accounts, &instruction_data).unwrap_err();
    assert_eq!(err, ProgramError::InvalidArgument);
}

#[test]
fn test_deserialize_rejects_short_buffer() {
    let err = ConfigState::deserialize(&[0u8; 8]).unwrap_err();
    assert_eq!(err, ProgramError::InvalidAccountData);

    // announces more payload than the buffer holds
    let mut state = ConfigState::new(8);
    state.seq = 3;
    let mut bytes = state.serialize();
    bytes.truncate(20);
    let err = ConfigState::deserialize(&bytes).unwrap_err();
    assert_eq!(err, ProgramError::InvalidAccountData);
}

#[test]
fn test_process_store_fail_bad_instruction_data() {
    let mut accounts = vec![config_account(42)];
    let err = process_instruction(&mut accounts, &[1, 2, 3]).unwrap_err();
    assert_eq!(err, ProgramError::InvalidInstructionData);
}

#[test]
fn test_process_store_fail_account_too_small() {
    let mut accounts = vec![config_account(4)];
    let mut new_state = ConfigState::new(64);
    new_state.seq = 1;
    let instruction_data = new_state.serialize();
    let err = process_instruction(&mut accounts, &instruction_data).unwrap_err();
    assert_eq!(err, ProgramError::InvalidAccountData);
}
