use cq::address::{
    AddressType, CredentialType, DecodedAddress, DecodedCredential, Network, Pointer,
};
use cq::value::{Number, QueryValue};

#[test]
fn names_and_descriptions() {
    assert_eq!(AddressType::Base.as_str(), "base");
    assert_eq!(AddressType::Enterprise.as_str(), "enterprise");
    assert_eq!(AddressType::Reward.as_str(), "reward");
    assert_eq!(AddressType::Pointer.as_str(), "pointer");
    assert_eq!(AddressType::Byron.as_str(), "byron");
    assert_eq!(AddressType::Base.description(), "Base (Shelley)");
    assert_eq!(AddressType::Enterprise.description(), "Enterprise (Shelley, no staking)");
    assert_eq!(AddressType::Reward.description(), "Reward/Stake");
    assert_eq!(AddressType::Pointer.description(), "Pointer (Shelley)");
    assert_eq!(AddressType::Byron.description(), "Byron (Legacy)");
    assert_eq!(Network::Mainnet.as_str(), "mainnet");
    assert_eq!(Network::Testnet.as_str(), "testnet");
    assert_eq!(Network::Unknown.as_str(), "unknown");
    assert_eq!(CredentialType::KeyHash.as_str(), "keyhash");
    assert_eq!(CredentialType::ScriptHash.as_str(), "scripthash");
}

#[test]
fn the_header_byte_names_the_network() {
    assert!(matches!(Network::from_header(&[]), Network::Unknown));
    assert!(matches!(Network::from_header(&[0x01, 0xff]), Network::Mainnet));
    assert!(matches!(Network::from_header(&[0x61]), Network::Mainnet));
    assert!(matches!(Network::from_header(&[0x00]), Network::Testnet));
    assert!(matches!(Network::from_header(&[0xe0, 0x01]), Network::Testnet));
}

fn text(s: &str) -> QueryValue {
    QueryValue::String(s.to_string())
}

#[test]
fn an_address_becomes_a_document() {
    let address = DecodedAddress {
        bech32: "addr1abc".to_string(),
        address_type: AddressType::Pointer,
        network: Network::Mainnet,
        payment_credential: Some(DecodedCredential {
            cred_type: CredentialType::KeyHash,
            hash: "aa".to_string(),
        }),
        stake_credential: None,
        pointer: Some(Pointer { slot: 1, tx_index: 2, cert_index: 3 }),
    };
    let doc = address.to_json();
    assert_eq!(doc.get("address"), Some(&text("addr1abc")));
    assert_eq!(doc.get("type"), Some(&text("pointer")));
    assert_eq!(doc.get("network"), Some(&text("mainnet")));
    let payment = doc.get("payment_credential").unwrap();
    assert_eq!(payment.get("type"), Some(&text("keyhash")));
    assert_eq!(payment.get("hash"), Some(&text("aa")));
    assert_eq!(doc.get("stake_credential"), None);
    let pointer = doc.get("pointer").unwrap();
    assert_eq!(pointer.get("slot"), Some(&QueryValue::Number(Number::PosInt(1))));
    assert_eq!(pointer.get("tx_index"), Some(&QueryValue::Number(Number::PosInt(2))));
    assert_eq!(pointer.get("cert_index"), Some(&QueryValue::Number(Number::PosInt(3))));
    match &doc {
        QueryValue::Object(members) => assert_eq!(members.len(), 5),
        _ => panic!("Expected object"),
    }

    let reward = DecodedAddress {
        bech32: "stake1xyz".to_string(),
        address_type: AddressType::Reward,
        network: Network::Testnet,
        payment_credential: None,
        stake_credential: Some(DecodedCredential {
            cred_type: CredentialType::ScriptHash,
            hash: "bb".to_string(),
        }),
        pointer: None,
    };
    let doc = reward.to_json();
    assert_eq!(doc.get("payment_credential"), None);
    assert_eq!(doc.get("pointer"), None);
    assert_eq!(doc.get("stake_credential").unwrap().get("type"), Some(&text("scripthash")));
    assert_eq!(doc.get("network"), Some(&text("testnet")));
}
