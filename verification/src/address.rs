//! Decoded addresses: their parts, and the document that shows them.

use crate::hexcode::{encode_hex, hex_text};
use crate::value::{members_view, put, Number, QueryValue, Tree};
use vstd::prelude::*;

verus! {

/// Decoded address with all components.
pub struct DecodedAddress {
    /// The address as text: in bech32, or in hexadecimal for a Byron address.
    pub bech32: String,
    /// The address type.
    pub address_type: AddressType,
    /// Network (mainnet or testnet).
    pub network: Network,
    /// Payment credential (if applicable).
    pub payment_credential: Option<DecodedCredential>,
    /// Stake credential (if applicable).
    pub stake_credential: Option<DecodedCredential>,
    /// Pointer info for pointer addresses.
    pub pointer: Option<Pointer>,
}

/// Address type enumeration.
#[derive(Debug, Clone, Copy)]
pub enum AddressType {
    Base,
    Enterprise,
    Reward,
    Pointer,
    Byron,
}

/// Network enumeration.
#[derive(Debug, Clone, Copy)]
pub enum Network {
    Mainnet,
    Testnet,
    Unknown,
}

/// Decoded credential.
pub struct DecodedCredential {
    /// Type of credential (keyhash or scripthash).
    pub cred_type: CredentialType,
    /// Hash in hex.
    pub hash: String,
}

/// Credential type.
#[derive(Debug, Clone, Copy)]
pub enum CredentialType {
    KeyHash,
    ScriptHash,
}

/// Pointer info for pointer addresses.
pub struct Pointer {
    pub slot: u64,
    pub tx_index: u64,
    pub cert_index: u64,
}

impl AddressType {
    /// The short name of the type.
    pub open spec fn name(self) -> Seq<char> {
        match self {
            AddressType::Base => "base"@,
            AddressType::Enterprise => "enterprise"@,
            AddressType::Reward => "reward"@,
            AddressType::Pointer => "pointer"@,
            AddressType::Byron => "byron"@,
        }
    }

    /// The name of the type as it is shown to a reader.
    pub open spec fn title(self) -> Seq<char> {
        match self {
            AddressType::Base => "Base (Shelley)"@,
            AddressType::Enterprise => "Enterprise (Shelley, no staking)"@,
            AddressType::Reward => "Reward/Stake"@,
            AddressType::Pointer => "Pointer (Shelley)"@,
            AddressType::Byron => "Byron (Legacy)"@,
        }
    }

    /// The short name of the type.
    pub fn as_str(&self) -> (r: &'static str)
        ensures
            r@ == self.name(),
    {
        match self {
            AddressType::Base => "base",
            AddressType::Enterprise => "enterprise",
            AddressType::Reward => "reward",
            AddressType::Pointer => "pointer",
            AddressType::Byron => "byron",
        }
    }

    /// The name of the type as it is shown to a reader.
    pub fn description(&self) -> (r: &'static str)
        ensures
            r@ == self.title(),
    {
        match self {
            AddressType::Base => "Base (Shelley)",
            AddressType::Enterprise => "Enterprise (Shelley, no staking)",
            AddressType::Reward => "Reward/Stake",
            AddressType::Pointer => "Pointer (Shelley)",
            AddressType::Byron => "Byron (Legacy)",
        }
    }
}

impl Network {
    /// The name of the network.
    pub open spec fn name(self) -> Seq<char> {
        match self {
            Network::Mainnet => "mainnet"@,
            Network::Testnet => "testnet"@,
            Network::Unknown => "unknown"@,
        }
    }

    /// The network that the header byte of an address names: its lowest bit
    /// is 1 on mainnet and 0 on a testnet.
    pub open spec fn of_header(raw: Seq<u8>) -> Network {
        if raw.len() == 0 {
            Network::Unknown
        } else if raw[0] % 2 == 1 {
            Network::Mainnet
        } else {
            Network::Testnet
        }
    }

    /// The name of the network.
    pub fn as_str(&self) -> (r: &'static str)
        ensures
            r@ == self.name(),
    {
        match self {
            Network::Mainnet => "mainnet",
            Network::Testnet => "testnet",
            Network::Unknown => "unknown",
        }
    }

    /// Detects the network from the raw bytes of an address.
    pub fn from_header(raw: &[u8]) -> (r: Network)
        ensures
            r == Network::of_header(raw@),
    {
        if raw.len() == 0 {
            Network::Unknown
        } else if raw[0] % 2 == 1 {
            Network::Mainnet
        } else {
            Network::Testnet
        }
    }
}

impl CredentialType {
    /// The name of the credential type.
    pub open spec fn name(self) -> Seq<char> {
        match self {
            CredentialType::KeyHash => "keyhash"@,
            CredentialType::ScriptHash => "scripthash"@,
        }
    }

    /// The name of the credential type.
    pub fn as_str(&self) -> (r: &'static str)
        ensures
            r@ == self.name(),
    {
        match self {
            CredentialType::KeyHash => "keyhash",
            CredentialType::ScriptHash => "scripthash",
        }
    }
}

/// The document of a credential: its type and its hash.
pub open spec fn credential_tree(c: DecodedCredential) -> Tree {
    Tree::Object(seq![("type"@, Tree::Text(c.cred_type.name())), ("hash"@, Tree::Text(c.hash@))])
}

/// The document of a pointer: its three numbers.
pub open spec fn pointer_tree(p: Pointer) -> Tree {
    Tree::Object(
        seq![
            ("slot"@, Tree::Number(Number::PosInt(p.slot))),
            ("tx_index"@, Tree::Number(Number::PosInt(p.tx_index))),
            ("cert_index"@, Tree::Number(Number::PosInt(p.cert_index))),
        ],
    )
}

/// One member where `value` holds something, none otherwise.
pub open spec fn optional_member(name: Seq<char>, value: Option<Tree>) -> Seq<(Seq<char>, Tree)> {
    match value {
        Some(t) => seq![(name, t)],
        None => Seq::empty(),
    }
}

/// The document of an address: address, type and network, then the payment
/// credential, the stake credential and the pointer, each where there is one.
pub open spec fn address_tree(a: DecodedAddress) -> Tree {
    Tree::Object(
        seq![
            ("address"@, Tree::Text(a.bech32@)),
            ("type"@, Tree::Text(a.address_type.name())),
            ("network"@, Tree::Text(a.network.name())),
        ] + optional_member(
            "payment_credential"@,
            match a.payment_credential {
                Some(c) => Some(credential_tree(c)),
                None => None,
            },
        ) + optional_member(
            "stake_credential"@,
            match a.stake_credential {
                Some(c) => Some(credential_tree(c)),
                None => None,
            },
        ) + optional_member(
            "pointer"@,
            match a.pointer {
                Some(p) => Some(pointer_tree(p)),
                None => None,
            },
        ),
    )
}

fn credential_to_tree(c: &DecodedCredential) -> (r: QueryValue)
    ensures
        r@ == credential_tree(*c),
{
    let mut members: Vec<(String, QueryValue)> = Vec::new();
    put(&mut members, "type", QueryValue::text(c.cred_type.as_str()));
    put(&mut members, "hash", QueryValue::text(c.hash.as_str()));
    assert(members_view(members@) =~= credential_tree(*c)->Object_0);
    QueryValue::object(members)
}

fn pointer_to_tree(p: &Pointer) -> (r: QueryValue)
    ensures
        r@ == pointer_tree(*p),
{
    let mut members: Vec<(String, QueryValue)> = Vec::new();
    put(&mut members, "slot", QueryValue::unsigned(p.slot));
    put(&mut members, "tx_index", QueryValue::unsigned(p.tx_index));
    put(&mut members, "cert_index", QueryValue::unsigned(p.cert_index));
    assert(members_view(members@) =~= pointer_tree(*p)->Object_0);
    QueryValue::object(members)
}

impl DecodedAddress {
    /// Convert to a document.
    pub fn to_json(&self) -> (r: QueryValue)
        ensures
            r@ == address_tree(*self),
    {
        let mut members: Vec<(String, QueryValue)> = Vec::new();
        put(&mut members, "address", QueryValue::text(self.bech32.as_str()));
        put(&mut members, "type", QueryValue::text(self.address_type.as_str()));
        put(&mut members, "network", QueryValue::text(self.network.as_str()));
        if let Some(payment) = &self.payment_credential {
            put(&mut members, "payment_credential", credential_to_tree(payment));
        }
        if let Some(stake) = &self.stake_credential {
            put(&mut members, "stake_credential", credential_to_tree(stake));
        }
        if let Some(ptr) = &self.pointer {
            put(&mut members, "pointer", pointer_to_tree(ptr));
        }
        assert(members_view(members@) =~= address_tree(*self)->Object_0);
        QueryValue::object(members)
    }
}

/// What an address is bound to: the hash of a key or the hash of a script.
#[derive(Debug, Clone)]
pub enum Credential {
    PubKey(Vec<u8>),
    Script(Vec<u8>),
}

/// The kinds of address and what each holds.
#[derive(Debug, Clone)]
pub enum AddressShape {
    Base { payment: Credential, stake: Credential },
    Enterprise { payment: Credential },
    Pointer { payment: Credential, slot: u64, tx_index: u64, cert_index: u64 },
    Reward { stake: Credential },
    Byron { bytes: Vec<u8> },
}

/// An address as it was decoded: its text, its raw bytes and its shape.
#[derive(Debug, Clone)]
pub struct Address {
    /// The address in bech32, or in hexadecimal where it has no bech32 form.
    pub text: String,
    /// The raw bytes, of which the first is the header.
    pub raw: Vec<u8>,
    /// The kind of address and its parts.
    pub shape: AddressShape,
}

/// A credential as an address shows it: `keyhash` or `scripthash`, and the
/// hash in hexadecimal.
pub open spec fn shown_credential(c: Credential) -> (CredentialType, Seq<char>) {
    match c {
        Credential::PubKey(hash) => (CredentialType::KeyHash, hex_text(hash@)),
        Credential::Script(hash) => (CredentialType::ScriptHash, hex_text(hash@)),
    }
}

/// Decode a credential to the form in which an address shows it.
pub fn decode_credential(cred: &Credential) -> (r: DecodedCredential)
    ensures
        (r.cred_type, r.hash@) == shown_credential(*cred),
{
    match cred {
        Credential::PubKey(hash) => DecodedCredential {
            cred_type: CredentialType::KeyHash,
            hash: encode_hex(hash.as_slice()),
        },
        Credential::Script(hash) => DecodedCredential {
            cred_type: CredentialType::ScriptHash,
            hash: encode_hex(hash.as_slice()),
        },
    }
}

/// The type of address that a shape is.
pub open spec fn type_of(shape: AddressShape) -> AddressType {
    match shape {
        AddressShape::Base { .. } => AddressType::Base,
        AddressShape::Enterprise { .. } => AddressType::Enterprise,
        AddressShape::Pointer { .. } => AddressType::Pointer,
        AddressShape::Reward { .. } => AddressType::Reward,
        AddressShape::Byron { .. } => AddressType::Byron,
    }
}

/// The credential that an address pays to, where its shape has one.
pub open spec fn payment_of(shape: AddressShape) -> Option<Credential> {
    match shape {
        AddressShape::Base { payment, .. } => Some(payment),
        AddressShape::Enterprise { payment } => Some(payment),
        AddressShape::Pointer { payment, .. } => Some(payment),
        _ => None,
    }
}

/// The credential that an address stakes with, where its shape has one.
pub open spec fn stake_of(shape: AddressShape) -> Option<Credential> {
    match shape {
        AddressShape::Base { stake, .. } => Some(stake),
        AddressShape::Reward { stake } => Some(stake),
        _ => None,
    }
}

/// The credential of a decoded address is the given credential, shown.
pub open spec fn shows(d: Option<DecodedCredential>, c: Option<Credential>) -> bool {
    match (d, c) {
        (Some(d), Some(c)) => (d.cred_type, d.hash@) == shown_credential(c),
        (None, None) => true,
        _ => false,
    }
}

impl DecodedAddress {
    /// The parts of an address for display. `text` is the address as it was
    /// given; a Byron address is shown by its bytes in hexadecimal instead.
    pub fn describe(text: &str, raw: &[u8], shape: &AddressShape) -> (r: DecodedAddress)
        ensures
            r.address_type == type_of(*shape),
            r.network == Network::of_header(raw@),
            r.bech32@ == (match shape {
                AddressShape::Byron { bytes } => hex_text(bytes@),
                _ => text@,
            }),
            shows(r.payment_credential, payment_of(*shape)),
            shows(r.stake_credential, stake_of(*shape)),
            r.pointer == (match shape {
                AddressShape::Pointer { slot, tx_index, cert_index, .. } => Some(
                    Pointer { slot: *slot, tx_index: *tx_index, cert_index: *cert_index },
                ),
                _ => None,
            }),
    {
        let network = Network::from_header(raw);
        match shape {
            AddressShape::Base { payment, stake } => DecodedAddress {
                bech32: text.to_owned(),
                address_type: AddressType::Base,
                network,
                payment_credential: Some(decode_credential(payment)),
                stake_credential: Some(decode_credential(stake)),
                pointer: None,
            },
            AddressShape::Enterprise { payment } => DecodedAddress {
                bech32: text.to_owned(),
                address_type: AddressType::Enterprise,
                network,
                payment_credential: Some(decode_credential(payment)),
                stake_credential: None,
                pointer: None,
            },
            AddressShape::Pointer { payment, slot, tx_index, cert_index } => DecodedAddress {
                bech32: text.to_owned(),
                address_type: AddressType::Pointer,
                network,
                payment_credential: Some(decode_credential(payment)),
                stake_credential: None,
                pointer: Some(Pointer { slot: *slot, tx_index: *tx_index, cert_index: *cert_index }),
            },
            AddressShape::Reward { stake } => DecodedAddress {
                bech32: text.to_owned(),
                address_type: AddressType::Reward,
                network,
                payment_credential: None,
                stake_credential: Some(decode_credential(stake)),
                pointer: None,
            },
            AddressShape::Byron { bytes } => DecodedAddress {
                bech32: encode_hex(bytes.as_slice()),
                address_type: AddressType::Byron,
                network,
                payment_credential: None,
                stake_credential: None,
                pointer: None,
            },
        }
    }
}

/// The document of a credential in a transaction: `pubkey` or `script`, and
/// the hash in hexadecimal.
pub open spec fn credential_document(c: Credential) -> Tree {
    match c {
        Credential::PubKey(hash) => Tree::Object(
            seq![("type"@, Tree::Text("pubkey"@)), ("hash"@, Tree::Text(hex_text(hash@)))],
        ),
        Credential::Script(hash) => Tree::Object(
            seq![("type"@, Tree::Text("script"@)), ("hash"@, Tree::Text(hex_text(hash@)))],
        ),
    }
}

/// Convert credential to a document.
pub fn credential_to_json(cred: &Credential) -> (r: QueryValue)
    ensures
        r@ == credential_document(*cred),
{
    let mut members: Vec<(String, QueryValue)> = Vec::new();
    match cred {
        Credential::PubKey(hash) => {
            put(&mut members, "type", QueryValue::text("pubkey"));
            let shown = encode_hex(hash.as_slice());
            put(&mut members, "hash", QueryValue::text(shown.as_str()));
        },
        Credential::Script(hash) => {
            put(&mut members, "type", QueryValue::text("script"));
            let shown = encode_hex(hash.as_slice());
            put(&mut members, "hash", QueryValue::text(shown.as_str()));
        },
    }
    assert(members_view(members@) =~= credential_document(*cred)->Object_0);
    QueryValue::object(members)
}

/// What follows address, type and network in the document of an address:
/// the parts of its shape.
pub open spec fn shape_members(shape: AddressShape) -> Seq<(Seq<char>, Tree)> {
    match shape {
        AddressShape::Base { payment, stake } => seq![
            ("payment_credential"@, credential_document(payment)),
            ("stake_credential"@, credential_document(stake)),
        ],
        AddressShape::Enterprise { payment } => seq![
            ("payment_credential"@, credential_document(payment)),
        ],
        AddressShape::Pointer { payment, slot, tx_index, cert_index } => seq![
            ("payment_credential"@, credential_document(payment)),
            ("pointer"@, pointer_tree(Pointer { slot, tx_index, cert_index })),
        ],
        AddressShape::Reward { stake } => seq![("stake_credential"@, credential_document(stake))],
        AddressShape::Byron { bytes } => seq![("byron_address"@, Tree::Text(hex_text(bytes@)))],
    }
}

/// The network name that a transaction document gives an address.
pub open spec fn network_name(raw: Seq<u8>) -> Seq<char> {
    Network::of_header(raw).name()
}

/// The detailed document of an address: its text, its type and its network,
/// then the parts of its shape.
pub open spec fn detailed_document(a: Address) -> Tree {
    Tree::Object(
        seq![
            ("address"@, Tree::Text(a.text@)),
            ("type"@, Tree::Text(type_of(a.shape).name())),
            ("network"@, Tree::Text(network_name(a.raw@))),
        ] + shape_members(a.shape),
    )
}

/// Convert an address to a detailed document with type, network, and
/// credentials.
pub fn address_to_detailed_json(addr: &Address) -> (r: QueryValue)
    ensures
        r@ == detailed_document(*addr),
{
    let network = Network::from_header(addr.raw.as_slice());
    let mut members: Vec<(String, QueryValue)> = Vec::new();
    put(&mut members, "address", QueryValue::text(addr.text.as_str()));
    match &addr.shape {
        AddressShape::Base { payment, stake } => {
            put(&mut members, "type", QueryValue::text("base"));
            put(&mut members, "network", QueryValue::text(network.as_str()));
            put(&mut members, "payment_credential", credential_to_json(payment));
            put(&mut members, "stake_credential", credential_to_json(stake));
        },
        AddressShape::Enterprise { payment } => {
            put(&mut members, "type", QueryValue::text("enterprise"));
            put(&mut members, "network", QueryValue::text(network.as_str()));
            put(&mut members, "payment_credential", credential_to_json(payment));
        },
        AddressShape::Pointer { payment, slot, tx_index, cert_index } => {
            put(&mut members, "type", QueryValue::text("pointer"));
            put(&mut members, "network", QueryValue::text(network.as_str()));
            put(&mut members, "payment_credential", credential_to_json(payment));
            let pointer = Pointer { slot: *slot, tx_index: *tx_index, cert_index: *cert_index };
            put(&mut members, "pointer", pointer_to_tree(&pointer));
        },
        AddressShape::Reward { stake } => {
            put(&mut members, "type", QueryValue::text("reward"));
            put(&mut members, "network", QueryValue::text(network.as_str()));
            put(&mut members, "stake_credential", credential_to_json(stake));
        },
        AddressShape::Byron { bytes } => {
            put(&mut members, "type", QueryValue::text("byron"));
            put(&mut members, "network", QueryValue::text(network.as_str()));
            let shown = encode_hex(bytes.as_slice());
            put(&mut members, "byron_address", QueryValue::text(shown.as_str()));
        },
    }
    assert(members_view(members@) =~= detailed_document(*addr)->Object_0);
    QueryValue::object(members)
}

} // verus!
