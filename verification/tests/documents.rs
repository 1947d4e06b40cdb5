use cq::address::{
    address_to_detailed_json, credential_to_json, decode_credential, Address, AddressShape,
    AddressType, Credential, CredentialType, DecodedAddress, Network,
};
use cq::document::{
    auxiliary_data_to_json, certificate_to_json, decode_asset_name, decode_metadata_for_label,
    drep_to_json, is_control_code, metadata_value_to_json, output_to_json, read_printable,
    set_member, stake_credential_to_json, transaction_to_json, value_to_json, witness_set_to_json,
};
use cq::engine::{execute_query, QueryResult};
use cq::error::Error;
use cq::transaction::{
    Asset, AuxiliaryData, Certificate, DRep, Datum, DecodedTransaction, LabelledMetadatum,
    Metadatum, MintedAsset, PlutusScript, PolicyAssets, PolicyMint, TransactionBody,
    TransactionInput, TransactionOutput, TransactionWitnessSet, Value, Withdrawal,
};
use cq::value::{Number, QueryValue};

fn object(members: Vec<(&str, QueryValue)>) -> QueryValue {
    QueryValue::Object(members.into_iter().map(|(k, v)| (k.to_string(), v)).collect())
}

fn text(s: &str) -> QueryValue {
    QueryValue::String(s.to_string())
}

fn count(n: u64) -> QueryValue {
    QueryValue::Number(Number::PosInt(n))
}

fn key() -> Credential {
    Credential::PubKey(vec![0xab, 0x01])
}

fn script() -> Credential {
    Credential::Script(vec![0xcd])
}

fn key_doc() -> QueryValue {
    object(vec![("type", text("pubkey")), ("hash", text("ab01"))])
}

fn script_doc() -> QueryValue {
    object(vec![("type", text("script")), ("hash", text("cd"))])
}

fn enterprise() -> Address {
    Address {
        text: "addr_test1vp".to_string(),
        raw: vec![0x60, 0xab, 0x01],
        shape: AddressShape::Enterprise { payment: key() },
    }
}

fn enterprise_doc() -> QueryValue {
    object(vec![
        ("address", text("addr_test1vp")),
        ("type", text("enterprise")),
        ("network", text("testnet")),
        ("payment_credential", key_doc()),
    ])
}

#[test]
fn control_codes_are_what_std_says() {
    for code in 0..=0x10ffffu32 {
        if let Some(c) = char::from_u32(code) {
            assert_eq!(is_control_code(c), c.is_control(), "U+{:04X}", code);
        }
    }
}

#[test]
fn asset_names_are_text_or_hex() {
    assert_eq!(decode_asset_name(&b"HOSKY".to_vec()), "HOSKY");
    assert_eq!(decode_asset_name(&"caf\u{e9} \u{1f600}".as_bytes().to_vec()), "caf\u{e9} \u{1f600}");
    assert_eq!(decode_asset_name(&vec![]), "");
    assert_eq!(decode_asset_name(&vec![0xff, 0x00]), "ff00");
    assert_eq!(decode_asset_name(&b"a\nb".to_vec()), "610a62");
    assert_eq!(decode_asset_name(&b"a\x7fb".to_vec()), "617f62");
    assert_eq!(decode_asset_name(&"a\u{85}".as_bytes().to_vec()), "61c285");
    assert_eq!(decode_asset_name(&vec![0xc3]), "c3");
    assert_eq!(read_printable(&b"ok".to_vec()), Some("ok".to_string()));
    assert_eq!(read_printable(&vec![]), None);
    assert_eq!(read_printable(&vec![0x00]), None);
}

#[test]
fn credentials_and_dreps() {
    assert_eq!(credential_to_json(&key()), key_doc());
    assert_eq!(stake_credential_to_json(&script()), script_doc());
    let shown = decode_credential(&key());
    assert!(matches!(shown.cred_type, CredentialType::KeyHash));
    assert_eq!(shown.hash, "ab01");
    let shown = decode_credential(&script());
    assert!(matches!(shown.cred_type, CredentialType::ScriptHash));
    assert_eq!(shown.hash, "cd");
    assert_eq!(
        drep_to_json(&DRep::Key(vec![0x0f])),
        object(vec![("type", text("key")), ("hash", text("0f"))])
    );
    assert_eq!(
        drep_to_json(&DRep::Script(vec![0xf0])),
        object(vec![("type", text("script")), ("hash", text("f0"))])
    );
    assert_eq!(drep_to_json(&DRep::AlwaysAbstain), object(vec![("type", text("always_abstain"))]));
    assert_eq!(
        drep_to_json(&DRep::AlwaysNoConfidence),
        object(vec![("type", text("always_no_confidence"))])
    );
}

#[test]
fn addresses_in_detail() {
    assert_eq!(address_to_detailed_json(&enterprise()), enterprise_doc());
    let base = Address {
        text: "addr1q".to_string(),
        raw: vec![0x01],
        shape: AddressShape::Base { payment: key(), stake: script() },
    };
    assert_eq!(
        address_to_detailed_json(&base),
        object(vec![
            ("address", text("addr1q")),
            ("type", text("base")),
            ("network", text("mainnet")),
            ("payment_credential", key_doc()),
            ("stake_credential", script_doc()),
        ])
    );
    let pointer = Address {
        text: "addr1g".to_string(),
        raw: vec![0x41],
        shape: AddressShape::Pointer { payment: key(), slot: 1, tx_index: 2, cert_index: 3 },
    };
    assert_eq!(
        address_to_detailed_json(&pointer),
        object(vec![
            ("address", text("addr1g")),
            ("type", text("pointer")),
            ("network", text("mainnet")),
            ("payment_credential", key_doc()),
            ("pointer", object(vec![("slot", count(1)), ("tx_index", count(2)), ("cert_index", count(3))])),
        ])
    );
    let reward = Address {
        text: "stake_test1u".to_string(),
        raw: vec![0xe0],
        shape: AddressShape::Reward { stake: key() },
    };
    assert_eq!(
        address_to_detailed_json(&reward),
        object(vec![
            ("address", text("stake_test1u")),
            ("type", text("reward")),
            ("network", text("testnet")),
            ("stake_credential", key_doc()),
        ])
    );
    let byron = Address {
        text: "82d8".to_string(),
        raw: vec![],
        shape: AddressShape::Byron { bytes: vec![0x82, 0xd8] },
    };
    assert_eq!(
        address_to_detailed_json(&byron),
        object(vec![
            ("address", text("82d8")),
            ("type", text("byron")),
            ("network", text("unknown")),
            ("byron_address", text("82d8")),
        ])
    );
}

#[test]
fn decoded_addresses_are_described() {
    let d = DecodedAddress::describe("addr1q", &[0x01], &AddressShape::Base { payment: key(), stake: script() });
    assert_eq!(d.bech32, "addr1q");
    assert!(matches!(d.address_type, AddressType::Base));
    assert!(matches!(d.network, Network::Mainnet));
    assert_eq!(d.payment_credential.as_ref().unwrap().hash, "ab01");
    assert!(matches!(d.stake_credential.as_ref().unwrap().cred_type, CredentialType::ScriptHash));
    assert!(d.pointer.is_none());
    let d = DecodedAddress::describe("addr1v", &[0x60], &AddressShape::Enterprise { payment: script() });
    assert!(matches!(d.address_type, AddressType::Enterprise));
    assert!(matches!(d.network, Network::Testnet));
    assert!(d.payment_credential.is_some() && d.stake_credential.is_none() && d.pointer.is_none());
    let d = DecodedAddress::describe(
        "addr1g",
        &[0x41],
        &AddressShape::Pointer { payment: key(), slot: 7, tx_index: 8, cert_index: 9 },
    );
    assert!(matches!(d.address_type, AddressType::Pointer));
    let p = d.pointer.as_ref().unwrap();
    assert_eq!((p.slot, p.tx_index, p.cert_index), (7, 8, 9));
    assert!(d.payment_credential.is_some() && d.stake_credential.is_none());
    let d = DecodedAddress::describe("stake1u", &[0xe1], &AddressShape::Reward { stake: key() });
    assert!(matches!(d.address_type, AddressType::Reward));
    assert!(d.payment_credential.is_none());
    assert_eq!(d.stake_credential.as_ref().unwrap().hash, "ab01");
    let d = DecodedAddress::describe("Ae2td", &[], &AddressShape::Byron { bytes: vec![0x82, 0xd8] });
    assert!(matches!(d.address_type, AddressType::Byron));
    assert!(matches!(d.network, Network::Unknown));
    assert_eq!(d.bech32, "82d8");
    assert!(d.payment_credential.is_none() && d.stake_credential.is_none() && d.pointer.is_none());
}

#[test]
fn values_and_outputs() {
    let plain = Value { coin: 5, multiasset: vec![] };
    assert_eq!(value_to_json(&plain), object(vec![("coin", count(5))]));
    let rich = Value {
        coin: 7,
        multiasset: vec![PolicyAssets {
            policy_id: vec![0x01, 0x02],
            assets: vec![Asset { name: b"TOK".to_vec(), amount: 9 }, Asset { name: vec![0xff], amount: 1 }],
        }],
    };
    let rich_doc = object(vec![
        ("coin", count(7)),
        (
            "multi_assets",
            QueryValue::Array(vec![object(vec![
                ("policy_id", text("0102")),
                (
                    "assets",
                    QueryValue::Array(vec![
                        object(vec![("name", text("TOK")), ("amount", count(9))]),
                        object(vec![("name", text("ff")), ("amount", count(1))]),
                    ]),
                ),
            ])]),
        ),
    ]);
    assert_eq!(value_to_json(&rich), rich_doc);
    let output = TransactionOutput {
        address: enterprise(),
        amount: rich,
        datum: Some(Datum::Inline(vec![0xd8, 0x79, 0x80])),
        script_reference: Some(vec![0x82, 0x01]),
    };
    assert_eq!(
        output_to_json(&output),
        object(vec![
            ("address", enterprise_doc()),
            ("value", rich_doc),
            ("datum", object(vec![("type", text("inline")), ("bytes", text("d87980")), ("size", count(3))])),
            ("script_ref", object(vec![("size", count(2)), ("bytes", text("8201"))])),
        ])
    );
    let hashed = TransactionOutput {
        address: enterprise(),
        amount: plain,
        datum: Some(Datum::Hash(vec![0xaa])),
        script_reference: None,
    };
    assert_eq!(
        output_to_json(&hashed),
        object(vec![
            ("address", enterprise_doc()),
            ("value", object(vec![("coin", count(5))])),
            ("datum", object(vec![("type", text("hash")), ("hash", text("aa"))])),
        ])
    );
}

fn certificate(c: Certificate) -> QueryValue {
    certificate_to_json(&c)
}

#[test]
fn every_certificate_has_its_document() {
    let pool = vec![0x11];
    let drep = || DRep::AlwaysAbstain;
    let drep_doc = || object(vec![("type", text("always_abstain"))]);
    assert_eq!(
        certificate(Certificate::StakeRegistration { stake_credential: key() }),
        object(vec![("type", text("stake_registration")), ("stake_credential", key_doc())])
    );
    assert_eq!(
        certificate(Certificate::StakeDeregistration { stake_credential: script() }),
        object(vec![("type", text("stake_deregistration")), ("stake_credential", script_doc())])
    );
    assert_eq!(
        certificate(Certificate::StakeDelegation { stake_credential: key(), pool: pool.clone() }),
        object(vec![
            ("type", text("stake_delegation")),
            ("stake_credential", key_doc()),
            ("pool_keyhash", text("11")),
        ])
    );
    assert_eq!(
        certificate(Certificate::PoolRegistration {
            operator: vec![0x11],
            vrf_keyhash: vec![0x22],
            pledge: 500,
            cost: 340,
            margin_start: 1,
            margin_end: 20,
        }),
        object(vec![
            ("type", text("pool_registration")),
            ("pool_keyhash", text("11")),
            ("vrf_keyhash", text("22")),
            ("pledge", count(500)),
            ("cost", count(340)),
            ("margin", text("1/20")),
        ])
    );
    assert_eq!(
        certificate(Certificate::PoolRetirement { pool: pool.clone(), epoch: 300 }),
        object(vec![("type", text("pool_retirement")), ("pool_keyhash", text("11")), ("epoch", count(300))])
    );
    assert_eq!(
        certificate(Certificate::RegCert { stake_credential: key(), deposit: 2 }),
        object(vec![("type", text("reg_cert")), ("stake_credential", key_doc()), ("deposit", count(2))])
    );
    assert_eq!(
        certificate(Certificate::UnregCert { stake_credential: key(), deposit: 2 }),
        object(vec![("type", text("unreg_cert")), ("stake_credential", key_doc()), ("deposit", count(2))])
    );
    assert_eq!(
        certificate(Certificate::VoteDelegCert { stake_credential: key(), d_rep: drep() }),
        object(vec![("type", text("vote_deleg_cert")), ("stake_credential", key_doc()), ("drep", drep_doc())])
    );
    assert_eq!(
        certificate(Certificate::StakeVoteDelegCert { stake_credential: key(), pool: pool.clone(), d_rep: drep() }),
        object(vec![
            ("type", text("stake_vote_deleg_cert")),
            ("stake_credential", key_doc()),
            ("pool_keyhash", text("11")),
            ("drep", drep_doc()),
        ])
    );
    assert_eq!(
        certificate(Certificate::StakeRegDelegCert { stake_credential: key(), pool: pool.clone(), deposit: 3 }),
        object(vec![
            ("type", text("stake_reg_deleg_cert")),
            ("stake_credential", key_doc()),
            ("pool_keyhash", text("11")),
            ("deposit", count(3)),
        ])
    );
    assert_eq!(
        certificate(Certificate::VoteRegDelegCert { stake_credential: key(), d_rep: drep(), deposit: 4 }),
        object(vec![
            ("type", text("vote_reg_deleg_cert")),
            ("stake_credential", key_doc()),
            ("drep", drep_doc()),
            ("deposit", count(4)),
        ])
    );
    assert_eq!(
        certificate(Certificate::StakeVoteRegDelegCert {
            stake_credential: key(),
            pool: pool.clone(),
            d_rep: drep(),
            deposit: 5,
        }),
        object(vec![
            ("type", text("stake_vote_reg_deleg_cert")),
            ("stake_credential", key_doc()),
            ("pool_keyhash", text("11")),
            ("drep", drep_doc()),
            ("deposit", count(5)),
        ])
    );
    assert_eq!(
        certificate(Certificate::AuthCommitteeHotCert {
            committee_cold_credential: key(),
            committee_hot_credential: script(),
        }),
        object(vec![
            ("type", text("auth_committee_hot_cert")),
            ("committee_cold_credential", key_doc()),
            ("committee_hot_credential", script_doc()),
        ])
    );
    assert_eq!(
        certificate(Certificate::ResignCommitteeColdCert { committee_cold_credential: key() }),
        object(vec![("type", text("resign_committee_cold_cert")), ("committee_cold_credential", key_doc())])
    );
    assert_eq!(
        certificate(Certificate::RegDrepCert { drep_credential: key(), deposit: 6 }),
        object(vec![("type", text("reg_drep_cert")), ("drep_credential", key_doc()), ("deposit", count(6))])
    );
    assert_eq!(
        certificate(Certificate::UnregDrepCert { drep_credential: key(), deposit: 6 }),
        object(vec![("type", text("unreg_drep_cert")), ("drep_credential", key_doc()), ("deposit", count(6))])
    );
    assert_eq!(
        certificate(Certificate::UpdateDrepCert { drep_credential: script() }),
        object(vec![("type", text("update_drep_cert")), ("drep_credential", script_doc())])
    );
}

fn word(s: &str) -> Metadatum {
    Metadatum::Text(s.to_string())
}

#[test]
fn metadata_becomes_a_document() {
    assert_eq!(metadata_value_to_json(&Metadatum::Int(0)), text("0"));
    assert_eq!(metadata_value_to_json(&Metadatum::Int(42)), text("42"));
    assert_eq!(metadata_value_to_json(&Metadatum::Int(-1)), text("-1"));
    assert_eq!(
        metadata_value_to_json(&Metadatum::Int(u64::MAX as i128)),
        text("18446744073709551615")
    );
    assert_eq!(
        metadata_value_to_json(&Metadatum::Int(-(u64::MAX as i128) - 1)),
        text("-18446744073709551616")
    );
    assert_eq!(metadata_value_to_json(&Metadatum::Int(i128::MIN)), text(&i128::MIN.to_string()));
    assert_eq!(metadata_value_to_json(&Metadatum::Int(i128::MAX)), text(&i128::MAX.to_string()));
    assert_eq!(metadata_value_to_json(&word("hi")), text("hi"));
    assert_eq!(metadata_value_to_json(&Metadatum::Bytes(b"hello".to_vec())), text("hello"));
    assert_eq!(
        metadata_value_to_json(&Metadatum::Bytes(vec![0x00, 0x01])),
        object(vec![("bytes", text("0001"))])
    );
    assert_eq!(
        metadata_value_to_json(&Metadatum::Bytes(vec![])),
        object(vec![("bytes", text(""))])
    );
    assert_eq!(
        metadata_value_to_json(&Metadatum::List(vec![Metadatum::Int(1), word("a"), Metadatum::List(vec![])])),
        QueryValue::Array(vec![text("1"), text("a"), QueryValue::Array(vec![])])
    );
    assert_eq!(
        metadata_value_to_json(&Metadatum::Entries(vec![
            (word("a"), Metadatum::Int(1)),
            (word("b"), word("x")),
            (word("a"), Metadatum::Int(3)),
        ])),
        object(vec![("a", text("3")), ("b", text("x"))])
    );
    assert_eq!(
        metadata_value_to_json(&Metadatum::Entries(vec![
            (word("a"), Metadatum::Int(1)),
            (Metadatum::Int(2), word("x")),
        ])),
        QueryValue::Array(vec![
            object(vec![("key", text("a")), ("value", text("1"))]),
            object(vec![("key", text("2")), ("value", text("x"))]),
        ])
    );
    assert_eq!(metadata_value_to_json(&Metadatum::Entries(vec![])), QueryValue::Array(vec![]));
    let nested = Metadatum::Entries(vec![(
        word("msg"),
        Metadatum::List(vec![Metadatum::Entries(vec![(Metadatum::Bytes(vec![0x01]), word("v"))])]),
    )]);
    assert_eq!(
        metadata_value_to_json(&nested),
        object(vec![(
            "msg",
            QueryValue::Array(vec![QueryValue::Array(vec![object(vec![
                ("key", object(vec![("bytes", text("01"))])),
                ("value", text("v")),
            ])])])
        )])
    );
}

#[test]
fn members_are_set_by_name() {
    let mut members = vec![("a".to_string(), count(1)), ("b".to_string(), count(2))];
    set_member(&mut members, &"c".to_string(), count(3));
    set_member(&mut members, &"a".to_string(), count(4));
    assert_eq!(
        members,
        vec![("a".to_string(), count(4)), ("b".to_string(), count(2)), ("c".to_string(), count(3))]
    );
}

#[test]
fn labels_name_their_standards() {
    let data = word("d");
    for (label, cip, standard) in [
        (674, "CIP-20", "Transaction Message"),
        (721, "CIP-25", "NFT Metadata"),
        (100, "CIP-68", "Reference NFT (100)"),
        (222, "CIP-68", "NFT (222)"),
        (333, "CIP-68", "FT (333)"),
        (444, "CIP-68", "RFT (444)"),
    ] {
        assert_eq!(
            decode_metadata_for_label(label, &data),
            object(vec![("cip", text(cip)), ("standard", text(standard)), ("data", text("d"))])
        );
    }
    assert_eq!(decode_metadata_for_label(0, &data), text("d"));
    assert_eq!(decode_metadata_for_label(675, &data), text("d"));
}

fn sample() -> DecodedTransaction {
    DecodedTransaction {
        body: TransactionBody {
            inputs: vec![TransactionInput { transaction_id: vec![0x85, 0x2e], index: 1 }],
            outputs: vec![
                TransactionOutput {
                    address: enterprise(),
                    amount: Value { coin: 1_500_000, multiasset: vec![] },
                    datum: None,
                    script_reference: None,
                },
                TransactionOutput {
                    address: enterprise(),
                    amount: Value { coin: 900_000, multiasset: vec![] },
                    datum: Some(Datum::Hash(vec![0x01])),
                    script_reference: None,
                },
            ],
            fee: 171_617,
            ttl: Some(1000),
            validity_interval_start: None,
            mint: Some(vec![PolicyMint {
                policy_id: vec![0x0a],
                assets: vec![
                    MintedAsset { name: b"T".to_vec(), amount: -5 },
                    MintedAsset { name: b"U".to_vec(), amount: 5 },
                ],
            }]),
            collateral_inputs: Some(vec![]),
            required_signers: Some(vec![vec![0xaa], vec![0xbb]]),
            network_id: Some(1),
            certs: Some(vec![]),
            withdrawals: Some(vec![Withdrawal { reward_address: "stake1u".to_string(), amount: 12 }]),
            script_data_hash: Some(vec![0x5d]),
            collateral_return: None,
            total_collateral: Some(3),
        },
        witness_set: TransactionWitnessSet {
            vkeywitnesses: Some(2),
            native_scripts: None,
            plutus_v1_scripts: None,
            plutus_v2_scripts: Some(vec![PlutusScript { hash: vec![0x77], size: 120 }]),
            plutus_v3_scripts: None,
            plutus_datums: Some(1),
            has_redeemers: true,
        },
        auxiliary_data: Some(AuxiliaryData {
            metadata: Some(vec![LabelledMetadatum { label: 674, value: word("gm") }]),
            native_scripts: Some(0),
            plutus_v1_scripts: None,
            plutus_v2_scripts: Some(4),
        }),
        is_valid: true,
        hash: vec![0x0e, 0xdb, 0x4e],
    }
}

#[test]
fn a_transaction_becomes_a_document() {
    let tx = sample();
    let doc = transaction_to_json(&tx);
    assert_eq!(doc.get("hash"), Some(&text("0edb4e")));
    assert_eq!(doc.get("is_valid"), Some(&QueryValue::Bool(true)));
    let body = doc.get("body").unwrap();
    assert_eq!(body.get("fee"), Some(&count(171_617)));
    assert_eq!(body.get("ttl"), Some(&count(1000)));
    assert_eq!(body.get("validity_interval_start"), None);
    assert_eq!(
        body.get("inputs"),
        Some(&QueryValue::Array(vec![object(vec![("transaction_id", text("852e")), ("index", count(1))])]))
    );
    assert_eq!(
        body.get("mint"),
        Some(&QueryValue::Array(vec![object(vec![
            ("policy_id", text("0a")),
            (
                "assets",
                QueryValue::Array(vec![
                    object(vec![("name", text("T")), ("amount", QueryValue::Number(Number::NegInt(-5)))]),
                    object(vec![("name", text("U")), ("amount", count(5))]),
                ])
            ),
        ])]))
    );
    assert_eq!(body.get("collateral_inputs"), Some(&QueryValue::Array(vec![])));
    assert_eq!(body.get("required_signers"), Some(&QueryValue::Array(vec![text("aa"), text("bb")])));
    assert_eq!(body.get("network_id"), Some(&count(1)));
    assert_eq!(body.get("certs"), None);
    assert_eq!(
        body.get("withdrawals"),
        Some(&QueryValue::Array(vec![object(vec![("reward_address", text("stake1u")), ("amount", count(12))])]))
    );
    assert_eq!(body.get("script_data_hash"), Some(&text("5d")));
    assert_eq!(body.get("collateral_return"), None);
    assert_eq!(body.get("total_collateral"), Some(&count(3)));
    assert_eq!(
        witness_set_to_json(tx.witness_set()),
        object(vec![
            ("vkeywitnesses", count(2)),
            ("plutus_v2_scripts", QueryValue::Array(vec![object(vec![("hash", text("77")), ("size", count(120))])])),
            ("plutus_data", count(1)),
            ("redeemers", text("present")),
        ])
    );
    assert_eq!(doc.get("witness_set"), Some(&witness_set_to_json(&tx.witness_set)));
    assert_eq!(
        auxiliary_data_to_json(tx.auxiliary_data().unwrap()),
        object(vec![
            (
                "metadata",
                object(vec![(
                    "labels",
                    QueryValue::Array(vec![object(vec![
                        ("label", count(674)),
                        (
                            "value",
                            object(vec![
                                ("cip", text("CIP-20")),
                                ("standard", text("Transaction Message")),
                                ("data", text("gm")),
                            ])
                        ),
                    ])])
                )])
            ),
            ("native_scripts", count(0)),
            ("plutus_v2_scripts", count(4)),
        ])
    );
    assert!(tx.is_valid());
    assert_eq!(tx.body().fee, 171_617);
    let mut bare = sample();
    bare.auxiliary_data = None;
    bare.body.withdrawals = Some(vec![]);
    bare.body.certs = Some(vec![Certificate::UpdateDrepCert { drep_credential: key() }]);
    let doc = transaction_to_json(&bare);
    assert_eq!(doc.get("auxiliary_data"), None);
    assert_eq!(doc.get("body").unwrap().get("withdrawals"), None);
    assert!(doc.get("body").unwrap().get("certs").is_some());
    assert!(bare.auxiliary_data().is_none());
}

fn ask(tx: &DecodedTransaction, query: &str) -> Result<QueryResult, Error> {
    execute_query(tx, query)
}

#[test]
fn queries_run_against_a_transaction() {
    let tx = sample();
    match ask(&tx, "fee").unwrap() {
        QueryResult::Single(v) => assert_eq!(v, count(171_617)),
        other => panic!("{:?}", other),
    }
    match ask(&tx, "hash").unwrap() {
        QueryResult::Single(v) => assert_eq!(v, text("0edb4e")),
        other => panic!("{:?}", other),
    }
    match ask(&tx, "outputs.*.value.coin").unwrap() {
        QueryResult::Multiple(v) => assert_eq!(v, vec![count(1_500_000), count(900_000)]),
        other => panic!("{:?}", other),
    }
    match ask(&tx, "outputs[value.coin > 1000000].address.address").unwrap() {
        QueryResult::Multiple(v) => assert_eq!(v, vec![text("addr_test1vp")]),
        other => panic!("{:?}", other),
    }
    match ask(&tx, "outputs[datum != null]").unwrap() {
        QueryResult::Single(QueryValue::Array(v)) => assert_eq!(v.len(), 1),
        other => panic!("{:?}", other),
    }
    match ask(&tx, "").unwrap() {
        QueryResult::FullTransaction(v) => assert_eq!(v, transaction_to_json(&tx)),
        other => panic!("{:?}", other),
    }
    assert!(matches!(ask(&tx, "outputs.99"), Err(Error::IndexOutOfBounds(99))));
    assert!(matches!(ask(&tx, "nonexistent_field"), Err(Error::FieldNotFound(_))));
    assert!(matches!(ask(&tx, "a..b"), Err(Error::InvalidQuery(_))));
}
