//! The configuration program: a versioned byte payload stored in an
//! account, updated only with a strictly increasing sequence number, and
//! the instruction processor that enforces ownership and signing.
use vstd::prelude::*;
use crate::transaction::Pubkey;
use vstd::bytes::{
    lemma_auto_spec_u64_to_from_le_bytes, spec_u64_from_le_bytes, spec_u64_to_le_bytes,
    u64_from_le_bytes, u64_to_le_bytes,
};

verus! {

/// How the config program rejects a request.
#[derive(Debug, Clone, Copy, PartialEq, Eq, Structural)]
pub enum ProgramError {
    IncorrectProgramId,
    MissingRequiredSignature,
    InvalidAccountData,
    InvalidInstructionData,
    InvalidArgument,
    GenericError,
}

/// A stored configuration: a sequence number that only ever increases, and
/// the configuration payload.
#[derive(Debug, Clone)]
pub struct ConfigState {
    pub seq: u64,
    pub data: Vec<u8>,
}

impl PartialEq for ConfigState {
    fn eq(&self, other: &ConfigState) -> (r: bool) {
        self.seq == other.seq && crate::hashing::bytes_eq(
            self.data.as_slice(),
            other.data.as_slice(),
        )
    }
}

impl Eq for ConfigState {}

impl vstd::std_specs::cmp::PartialEqSpecImpl for ConfigState {
    open spec fn obeys_eq_spec() -> bool {
        true
    }

    open spec fn eq_spec(&self, other: &ConfigState) -> bool {
        self.seq == other.seq && self.data@ == other.data@
    }
}

impl Default for ConfigState {
    /// Sequence number zero and an empty payload.
    fn default() -> (r: ConfigState)
        ensures
            r.seq == 0,
            r.data@.len() == 0,
    {
        ConfigState { seq: 0, data: Vec::new() }
    }
}

/// The serialized form of a configuration: the sequence number, the payload
/// length, and the payload, all lengths little-endian.
pub open spec fn config_encoded(seq: u64, data: Seq<u8>) -> Seq<u8> {
    spec_u64_to_le_bytes(seq) + spec_u64_to_le_bytes(data.len() as u64) + data
}

impl ConfigState {
    /// A fresh configuration at sequence number zero with `data_len` zero
    /// bytes of payload.
    pub fn new(data_len: u64) -> (r: ConfigState)
        requires
            data_len <= usize::MAX,
        ensures
            r.seq == 0,
            r.data@ == Seq::new(data_len as nat, |i: int| 0u8),
    {
        ConfigState { seq: 0, data: crate::transaction::zero_bytes(data_len as usize) }
    }

    /// The serialized size of a configuration with `data_len` payload
    /// bytes: two length-prefix words plus the payload.
    pub fn max_size(data_len: u64) -> (r: u64)
        requires
            data_len <= u64::MAX - 16,
        ensures
            r == 16 + data_len,
    {
        16 + data_len
    }

    /// This configuration's serialized bytes.
    pub fn serialize(&self) -> (r: Vec<u8>)
        ensures
            r@ == config_encoded(self.seq, self.data@),
    {
        let mut out = u64_to_le_bytes(self.seq);
        let mut len_bytes = u64_to_le_bytes(self.data.len() as u64);
        out.append(&mut len_bytes);
        out.extend_from_slice(self.data.as_slice());
        proof {
            assert(out@ =~= config_encoded(self.seq, self.data@));
        }
        out
    }

    /// Reads a configuration back from serialized bytes: the sequence
    /// number, the payload length, and that many payload bytes, with any
    /// trailing bytes ignored, as an account buffer may be larger than the
    /// value it stores. Rejects bytes too short for what they announce.
    pub fn deserialize(input: &[u8]) -> (r: Result<ConfigState, ProgramError>)
        ensures
            match r {
                Ok(cs) => {
                    &&& input@.len() >= 16
                    &&& cs.seq == spec_u64_from_le_bytes(input@.subrange(0, 8))
                    &&& spec_u64_from_le_bytes(input@.subrange(8, 16)) == cs.data@.len()
                    &&& cs.data@ == input@.subrange(16, 16 + cs.data@.len() as int)
                },
                Err(e) => {
                    &&& e == ProgramError::InvalidAccountData
                    &&& (input@.len() < 16 || input@.len() < 16 + spec_u64_from_le_bytes(
                        input@.subrange(8, 16),
                    ) as int)
                },
            },
    {
        if input.len() < 16 {
            return Err(ProgramError::InvalidAccountData);
        }
        let seq = u64_from_le_bytes(vstd::slice::slice_subrange(input, 0, 8));
        let dlen = u64_from_le_bytes(vstd::slice::slice_subrange(input, 8, 16));
        if ((input.len() - 16) as u64) < dlen {
            return Err(ProgramError::InvalidAccountData);
        }
        let dlen_us = dlen as usize;
        let data = vstd::slice::slice_to_vec(
            vstd::slice::slice_subrange(input, 16, 16 + dlen_us),
        );
        Ok(ConfigState { seq, data })
    }

    /// Accepts a new configuration exactly when its sequence number is
    /// strictly larger than the stored one, replacing the stored state;
    /// otherwise rejects it and leaves the state untouched.
    pub fn store(&mut self, new_config_state: ConfigState) -> (r: Result<(), ProgramError>)
        ensures
            r is Ok <==> new_config_state.seq > old(self).seq,
            r is Ok ==> final(self).seq == new_config_state.seq && final(self).data@
                == new_config_state.data@,
            r matches Err(e) ==> e == ProgramError::InvalidArgument && *final(self) == *old(self),
    {
        if new_config_state.seq <= self.seq {
            return Err(ProgramError::InvalidArgument);
        }
        *self = new_config_state;
        Ok(())
    }
}

/// The config program's own address: one fixed byte followed by zeros.
pub open spec fn config_program_id() -> Seq<u8> {
    Seq::new(32, |i: int| if i == 0 {
        133u8
    } else {
        0u8
    })
}

/// The config program's address as a key value.
pub fn id() -> (r: Pubkey)
    ensures
        r@ == config_program_id(),
        r.wf(),
{
    let mut bytes: Vec<u8> = Vec::new();
    bytes.push(133u8);
    let mut i: usize = 1;
    while i < 32
        invariant
            1 <= i <= 32,
            bytes@.len() == i,
            bytes@[0] == 133u8,
            forall|j: int| 1 <= j < i ==> bytes@[j] == 0u8,
        decreases 32 - i,
    {
        bytes.push(0u8);
        i += 1;
    }
    proof {
        assert(bytes@ =~= config_program_id());
    }
    Pubkey::from_bytes(bytes)
}

/// Whether an address is the config program's own.
pub fn check_id(program_id: &Pubkey) -> (r: bool)
    ensures
        r == (program_id@ == config_program_id()),
{
    let own = id();
    crate::hashing::bytes_eq(program_id.bytes.as_slice(), own.bytes.as_slice())
}

/// An account as the program sees it: its owner and its data buffer.
#[derive(Debug, Clone)]
pub struct Account {
    pub owner: Pubkey,
    pub data: Vec<u8>,
}

/// An account handed to the program, with the signing key when the
/// account's key signed the transaction.
#[derive(Debug, Clone)]
pub struct KeyedAccount {
    pub signer_key: Option<Pubkey>,
    pub account: Account,
}

/// Processes one store instruction against the config account: the account
/// must be owned by the config program and must have signed; the account
/// data must hold a readable configuration and the instruction a readable
/// replacement with a strictly larger sequence number, which is then
/// serialized back into the account.
pub fn process_instruction(keyed_accounts: &mut Vec<KeyedAccount>, data: &[u8]) -> (r: Result<
    (),
    ProgramError,
>)
    requires
        old(keyed_accounts)@.len() >= 1,
    ensures
        final(keyed_accounts)@.len() == old(keyed_accounts)@.len(),
        r matches Err(ProgramError::IncorrectProgramId) <==> old(
            keyed_accounts,
        )@[0].account.owner@ != config_program_id(),
        r is Ok ==> {
            &&& old(keyed_accounts)@[0].signer_key is Some
            &&& exists|cur: ConfigState, new: ConfigState|
                {
                    &&& #[trigger] new.seq > #[trigger] cur.seq
                    &&& final(keyed_accounts)@[0].account.data@ == config_encoded(
                        new.seq,
                        new.data@,
                    ) + old(keyed_accounts)@[0].account.data@.skip(16 + new.data@.len() as int)
                }
        },
{
    let owner_ok = check_id(&keyed_accounts[0].account.owner);
    if !owner_ok {
        return Err(ProgramError::IncorrectProgramId);
    }
    let has_signer = match &keyed_accounts[0].signer_key {
        Some(_) => true,
        None => false,
    };
    if !has_signer {
        return Err(ProgramError::MissingRequiredSignature);
    }
    let mut config_state = match ConfigState::deserialize(keyed_accounts[0].account.data.as_slice())
    {
        Ok(cs) => cs,
        Err(_) => {
            return Err(ProgramError::InvalidAccountData);
        },
    };
    let ghost cur = config_state;
    let new_config_state = match ConfigState::deserialize(data) {
        Ok(cs) => cs,
        Err(_) => {
            return Err(ProgramError::InvalidInstructionData);
        },
    };
    let ghost newer = new_config_state;
    match config_state.store(new_config_state) {
        Ok(_) => {},
        Err(e) => {
            return Err(e);
        },
    }
    let encoded = config_state.serialize();
    let account_len = keyed_accounts[0].account.data.len();
    if account_len < encoded.len() {
        return Err(ProgramError::InvalidAccountData);
    }
    let ghost enc_view = encoded@;
    let old_data = vstd::slice::slice_to_vec(keyed_accounts[0].account.data.as_slice());
    let mut new_data = encoded;
    new_data.extend_from_slice(
        vstd::slice::slice_subrange(old_data.as_slice(), new_data.len(), account_len),
    );
    let ghost final_data = new_data@;
    proof {
        lemma_auto_spec_u64_to_from_le_bytes();
        assert(enc_view.len() == 16 + newer.data@.len());
        assert(final_data =~= enc_view + old_data@.skip(enc_view.len() as int));
    }
    let signer_key = keyed_accounts[0].signer_key.clone();
    let owner = keyed_accounts[0].account.owner.dup();
    let replacement = KeyedAccount { signer_key, account: Account { owner, data: new_data } };
    keyed_accounts.set(0, replacement);
    proof {
        assert(final_data == config_encoded(newer.seq, newer.data@) + old(
            keyed_accounts,
        )@[0].account.data@.skip(16 + newer.data@.len() as int));
        assert(newer.seq > cur.seq);
    }
    Ok(())
}

} // verus!
