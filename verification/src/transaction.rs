//! A decoded transaction, held as plain values.

use crate::address::{Address, Credential};
use vstd::prelude::*;

verus! {

/// A reference to an output of an earlier transaction.
#[derive(Debug, Clone)]
pub struct TransactionInput {
    pub transaction_id: Vec<u8>,
    pub index: u64,
}

/// An amount of one asset.
#[derive(Debug, Clone)]
pub struct Asset {
    pub name: Vec<u8>,
    pub amount: u64,
}

/// The assets of one policy.
#[derive(Debug, Clone)]
pub struct PolicyAssets {
    pub policy_id: Vec<u8>,
    pub assets: Vec<Asset>,
}

/// An amount of one asset that is minted, or burned where it is negative.
#[derive(Debug, Clone)]
pub struct MintedAsset {
    pub name: Vec<u8>,
    pub amount: i64,
}

/// What is minted under one policy.
#[derive(Debug, Clone)]
pub struct PolicyMint {
    pub policy_id: Vec<u8>,
    pub assets: Vec<MintedAsset>,
}

/// Coin and assets.
#[derive(Debug, Clone)]
pub struct Value {
    pub coin: u64,
    pub multiasset: Vec<PolicyAssets>,
}

/// The datum of an output: its hash, or the datum itself in CBOR bytes.
#[derive(Debug, Clone)]
pub enum Datum {
    Hash(Vec<u8>),
    Inline(Vec<u8>),
}

/// An output of a transaction.
#[derive(Debug, Clone)]
pub struct TransactionOutput {
    pub address: Address,
    pub amount: Value,
    pub datum: Option<Datum>,
    /// The script that the output refers to, in CBOR bytes.
    pub script_reference: Option<Vec<u8>>,
}

/// A delegated representative.
#[derive(Debug, Clone)]
pub enum DRep {
    Key(Vec<u8>),
    Script(Vec<u8>),
    AlwaysAbstain,
    AlwaysNoConfidence,
}

/// A certificate, with what is shown of it.
#[derive(Debug, Clone)]
pub enum Certificate {
    StakeRegistration { stake_credential: Credential },
    StakeDeregistration { stake_credential: Credential },
    StakeDelegation { stake_credential: Credential, pool: Vec<u8> },
    PoolRegistration {
        operator: Vec<u8>,
        vrf_keyhash: Vec<u8>,
        pledge: u64,
        cost: u64,
        margin_start: u64,
        margin_end: u64,
    },
    PoolRetirement { pool: Vec<u8>, epoch: u64 },
    RegCert { stake_credential: Credential, deposit: u64 },
    UnregCert { stake_credential: Credential, deposit: u64 },
    VoteDelegCert { stake_credential: Credential, d_rep: DRep },
    StakeVoteDelegCert { stake_credential: Credential, pool: Vec<u8>, d_rep: DRep },
    StakeRegDelegCert { stake_credential: Credential, pool: Vec<u8>, deposit: u64 },
    VoteRegDelegCert { stake_credential: Credential, d_rep: DRep, deposit: u64 },
    StakeVoteRegDelegCert { stake_credential: Credential, pool: Vec<u8>, d_rep: DRep, deposit: u64 },
    AuthCommitteeHotCert { committee_cold_credential: Credential, committee_hot_credential: Credential },
    ResignCommitteeColdCert { committee_cold_credential: Credential },
    RegDrepCert { drep_credential: Credential, deposit: u64 },
    UnregDrepCert { drep_credential: Credential, deposit: u64 },
    UpdateDrepCert { drep_credential: Credential },
}

/// A withdrawal of rewards.
#[derive(Debug, Clone)]
pub struct Withdrawal {
    /// The reward address in bech32, or in hexadecimal where it has no
    /// bech32 form.
    pub reward_address: String,
    pub amount: u64,
}

/// A Plutus script among the witnesses: its hash and its size in bytes.
#[derive(Debug, Clone)]
pub struct PlutusScript {
    pub hash: Vec<u8>,
    pub size: u64,
}

/// What is shown of the witnesses of a transaction.
#[derive(Debug, Clone)]
pub struct TransactionWitnessSet {
    pub vkeywitnesses: Option<u64>,
    pub native_scripts: Option<u64>,
    pub plutus_v1_scripts: Option<Vec<PlutusScript>>,
    pub plutus_v2_scripts: Option<Vec<PlutusScript>>,
    pub plutus_v3_scripts: Option<Vec<PlutusScript>>,
    pub plutus_datums: Option<u64>,
    pub has_redeemers: bool,
}

/// A piece of metadata.
#[derive(Debug)]
pub enum Metadatum {
    Int(i128),
    Bytes(Vec<u8>),
    Text(String),
    List(Vec<Metadatum>),
    /// Keys with their values, in the order in which they were written.
    Entries(Vec<(Metadatum, Metadatum)>),
}

/// The metadata under one label.
#[derive(Debug)]
pub struct LabelledMetadatum {
    pub label: u64,
    pub value: Metadatum,
}

/// What is shown of the auxiliary data of a transaction.
#[derive(Debug)]
pub struct AuxiliaryData {
    pub metadata: Option<Vec<LabelledMetadatum>>,
    pub native_scripts: Option<u64>,
    pub plutus_v1_scripts: Option<u64>,
    pub plutus_v2_scripts: Option<u64>,
}

/// The body of a transaction.
#[derive(Debug, Clone)]
pub struct TransactionBody {
    pub inputs: Vec<TransactionInput>,
    pub outputs: Vec<TransactionOutput>,
    pub fee: u64,
    pub ttl: Option<u64>,
    pub validity_interval_start: Option<u64>,
    pub mint: Option<Vec<PolicyMint>>,
    pub collateral_inputs: Option<Vec<TransactionInput>>,
    pub required_signers: Option<Vec<Vec<u8>>>,
    pub network_id: Option<u64>,
    pub certs: Option<Vec<Certificate>>,
    pub withdrawals: Option<Vec<Withdrawal>>,
    pub script_data_hash: Option<Vec<u8>>,
    pub collateral_return: Option<TransactionOutput>,
    pub total_collateral: Option<u64>,
}

/// A decoded transaction with its hash.
#[derive(Debug)]
pub struct DecodedTransaction {
    /// The body of the transaction.
    pub body: TransactionBody,
    /// The witnesses.
    pub witness_set: TransactionWitnessSet,
    /// The auxiliary data, where there is some.
    pub auxiliary_data: Option<AuxiliaryData>,
    /// Whether the transaction is marked as valid.
    pub is_valid: bool,
    /// The hash of the body.
    pub hash: Vec<u8>,
}

impl DecodedTransaction {
    /// Access the transaction body.
    pub fn body(&self) -> (r: &TransactionBody)
        ensures
            *r == self.body,
    {
        &self.body
    }

    /// Access the witness set.
    pub fn witness_set(&self) -> (r: &TransactionWitnessSet)
        ensures
            *r == self.witness_set,
    {
        &self.witness_set
    }

    /// Access auxiliary data (metadata).
    pub fn auxiliary_data(&self) -> (r: Option<&AuxiliaryData>)
        ensures
            match r {
                Some(a) => self.auxiliary_data == Some(*a),
                None => self.auxiliary_data is None,
            },
    {
        self.auxiliary_data.as_ref()
    }

    /// Check if the transaction is marked as valid.
    pub fn is_valid(&self) -> (r: bool)
        ensures
            r == self.is_valid,
    {
        self.is_valid
    }
}

} // verus!
