//! The document of a transaction: the tree that queries run against.

use crate::address::{
    address_to_detailed_json, credential_document, credential_to_json, detailed_document,
    Credential,
};
use crate::hexcode::{encode_hex, hex_text};
use crate::input::text_of_bytes;
use crate::text::{digits_of, integer_text, push_digits, push_integer, to_chars, to_text};
use crate::transaction::{
    Asset, AuxiliaryData, Certificate, DRep, Datum, DecodedTransaction, LabelledMetadatum,
    Metadatum, MintedAsset, PlutusScript, PolicyAssets, PolicyMint, TransactionBody,
    TransactionInput, TransactionOutput, TransactionWitnessSet, Value, Withdrawal,
};
use crate::value::{
    lemma_trees_push, members_view, put, signed_number, trees, Number, QueryValue, Tree,
};
use vstd::prelude::*;
use vstd::utf8::{decode_utf8, valid_utf8};

verus! {

/// A string of bytes in hexadecimal.
pub open spec fn hex_tree(bytes: Seq<u8>) -> Tree {
    Tree::Text(hex_text(bytes))
}

/// A non-negative integer.
pub open spec fn count_tree(n: u64) -> Tree {
    Tree::Number(Number::PosInt(n))
}

fn hex_json(bytes: &Vec<u8>) -> (r: QueryValue)
    ensures
        r@ == hex_tree(bytes@),
{
    let shown = encode_hex(bytes.as_slice());
    QueryValue::text(shown.as_str())
}

/// Whether a character is a control code: the characters that Unicode gives
/// the general category Cc.
pub open spec fn is_control(c: char) -> bool {
    let u = c as u32;
    u <= 0x1f || 0x7f <= u <= 0x9f
}

/// Whether a character is a control code.
pub fn is_control_code(c: char) -> (r: bool)
    ensures
        r == is_control(c),
{
    let u = c as u32;
    u <= 0x1f || (0x7f <= u && u <= 0x9f)
}

/// The text that bytes spell where they are well-formed UTF-8 of at least
/// one character and without control codes.
pub open spec fn printable(bytes: Seq<u8>) -> Option<Seq<char>> {
    if valid_utf8(bytes) && decode_utf8(bytes).len() > 0 && forall|i: int|
        0 <= i < decode_utf8(bytes).len() ==> !is_control(#[trigger] decode_utf8(bytes)[i]) {
        Some(decode_utf8(bytes))
    } else {
        None
    }
}

/// Reads bytes as printable text.
pub fn read_printable(bytes: &Vec<u8>) -> (r: Option<String>)
    ensures
        match r {
            Some(s) => printable(bytes@) == Some(s@),
            None => printable(bytes@) is None,
        },
{
    let text = match text_of_bytes(bytes.as_slice()) {
        None => {
            return None;
        },
        Some(t) => t,
    };
    let chars = to_chars(text.as_str());
    if chars.len() == 0 {
        return None;
    }
    let mut i: usize = 0;
    while i < chars.len()
        invariant
            i <= chars.len(),
            chars@ == decode_utf8(bytes@),
            forall|j: int| 0 <= j < i ==> !is_control(#[trigger] chars@[j]),
        decreases chars.len() - i,
    {
        if is_control_code(chars[i]) {
            assert(is_control(chars@[i as int]));
            return None;
        }
        i += 1;
    }
    Some(text)
}

/// The name of an asset: its bytes as text where they are printable, and in
/// hexadecimal otherwise.
pub open spec fn asset_name(bytes: Seq<u8>) -> Seq<char> {
    match printable(bytes) {
        Some(s) => s,
        None => hex_text(bytes),
    }
}

/// Try to decode asset name as UTF-8, fallback to hex.
pub fn decode_asset_name(bytes: &Vec<u8>) -> (r: String)
    ensures
        r@ == asset_name(bytes@),
{
    match read_printable(bytes) {
        Some(s) => s,
        None => encode_hex(bytes.as_slice()),
    }
}

/// The document of an input.
pub open spec fn input_tree(input: TransactionInput) -> Tree {
    Tree::Object(
        seq![
            ("transaction_id"@, hex_tree(input.transaction_id@)),
            ("index"@, count_tree(input.index)),
        ],
    )
}

/// The documents of inputs, in order.
pub open spec fn input_trees(inputs: Seq<TransactionInput>) -> Seq<Tree> {
    Seq::new(inputs.len(), |i: int| input_tree(inputs[i]))
}

fn input_to_json(input: &TransactionInput) -> (r: QueryValue)
    ensures
        r@ == input_tree(*input),
{
    let mut members: Vec<(String, QueryValue)> = Vec::new();
    put(&mut members, "transaction_id", hex_json(&input.transaction_id));
    put(&mut members, "index", QueryValue::unsigned(input.index));
    assert(members_view(members@) =~= input_tree(*input)->Object_0);
    QueryValue::object(members)
}

fn inputs_to_json(inputs: &Vec<TransactionInput>) -> (r: QueryValue)
    ensures
        r@ == Tree::Array(input_trees(inputs@)),
{
    let mut out: Vec<QueryValue> = Vec::new();
    let mut i: usize = 0;
    assert(trees(out@) =~= input_trees(inputs@.subrange(0, 0)));
    while i < inputs.len()
        invariant
            i <= inputs.len(),
            trees(out@) == input_trees(inputs@.subrange(0, i as int)),
        decreases inputs.len() - i,
    {
        let item = input_to_json(&inputs[i]);
        proof {
            lemma_trees_push(out@, item);
            assert(input_trees(inputs@.subrange(0, i + 1)) =~= input_trees(
                inputs@.subrange(0, i as int),
            ).push(item@));
        }
        out.push(item);
        i += 1;
    }
    assert(inputs@.subrange(0, inputs.len() as int) =~= inputs@);
    QueryValue::array(out)
}

/// The document of an amount of an asset.
pub open spec fn asset_tree(asset: Asset) -> Tree {
    Tree::Object(
        seq![("name"@, Tree::Text(asset_name(asset.name@))), ("amount"@, count_tree(asset.amount))],
    )
}

/// The documents of assets, in order.
pub open spec fn asset_trees(assets: Seq<Asset>) -> Seq<Tree> {
    Seq::new(assets.len(), |i: int| asset_tree(assets[i]))
}

/// The document of the assets of a policy.
pub open spec fn policy_tree(policy: PolicyAssets) -> Tree {
    Tree::Object(
        seq![
            ("policy_id"@, hex_tree(policy.policy_id@)),
            ("assets"@, Tree::Array(asset_trees(policy.assets@))),
        ],
    )
}

/// The documents of policies, in order.
pub open spec fn policy_trees(policies: Seq<PolicyAssets>) -> Seq<Tree> {
    Seq::new(policies.len(), |i: int| policy_tree(policies[i]))
}

/// The document of a value: the coin, and the assets where there are any.
pub open spec fn value_tree(value: Value) -> Tree {
    if value.multiasset@.len() == 0 {
        Tree::Object(seq![("coin"@, count_tree(value.coin))])
    } else {
        Tree::Object(
            seq![
                ("coin"@, count_tree(value.coin)),
                ("multi_assets"@, Tree::Array(policy_trees(value.multiasset@))),
            ],
        )
    }
}

fn asset_to_json(asset: &Asset) -> (r: QueryValue)
    ensures
        r@ == asset_tree(*asset),
{
    let mut members: Vec<(String, QueryValue)> = Vec::new();
    let name = decode_asset_name(&asset.name);
    put(&mut members, "name", QueryValue::text(name.as_str()));
    put(&mut members, "amount", QueryValue::unsigned(asset.amount));
    assert(members_view(members@) =~= asset_tree(*asset)->Object_0);
    QueryValue::object(members)
}

fn assets_to_json(assets: &Vec<Asset>) -> (r: QueryValue)
    ensures
        r@ == Tree::Array(asset_trees(assets@)),
{
    let mut out: Vec<QueryValue> = Vec::new();
    let mut i: usize = 0;
    assert(trees(out@) =~= asset_trees(assets@.subrange(0, 0)));
    while i < assets.len()
        invariant
            i <= assets.len(),
            trees(out@) == asset_trees(assets@.subrange(0, i as int)),
        decreases assets.len() - i,
    {
        let item = asset_to_json(&assets[i]);
        proof {
            lemma_trees_push(out@, item);
            assert(asset_trees(assets@.subrange(0, i + 1)) =~= asset_trees(
                assets@.subrange(0, i as int),
            ).push(item@));
        }
        out.push(item);
        i += 1;
    }
    assert(assets@.subrange(0, assets.len() as int) =~= assets@);
    QueryValue::array(out)
}

fn policy_to_json(policy: &PolicyAssets) -> (r: QueryValue)
    ensures
        r@ == policy_tree(*policy),
{
    let mut members: Vec<(String, QueryValue)> = Vec::new();
    put(&mut members, "policy_id", hex_json(&policy.policy_id));
    put(&mut members, "assets", assets_to_json(&policy.assets));
    assert(members_view(members@) =~= policy_tree(*policy)->Object_0);
    QueryValue::object(members)
}

fn policies_to_json(policies: &Vec<PolicyAssets>) -> (r: QueryValue)
    ensures
        r@ == Tree::Array(policy_trees(policies@)),
{
    let mut out: Vec<QueryValue> = Vec::new();
    let mut i: usize = 0;
    assert(trees(out@) =~= policy_trees(policies@.subrange(0, 0)));
    while i < policies.len()
        invariant
            i <= policies.len(),
            trees(out@) == policy_trees(policies@.subrange(0, i as int)),
        decreases policies.len() - i,
    {
        let item = policy_to_json(&policies[i]);
        proof {
            lemma_trees_push(out@, item);
            assert(policy_trees(policies@.subrange(0, i + 1)) =~= policy_trees(
                policies@.subrange(0, i as int),
            ).push(item@));
        }
        out.push(item);
        i += 1;
    }
    assert(policies@.subrange(0, policies.len() as int) =~= policies@);
    QueryValue::array(out)
}

/// Convert a value (coin + multi-assets) to a document.
pub fn value_to_json(value: &Value) -> (r: QueryValue)
    ensures
        r@ == value_tree(*value),
{
    let mut members: Vec<(String, QueryValue)> = Vec::new();
    put(&mut members, "coin", QueryValue::unsigned(value.coin));
    if value.multiasset.len() > 0 {
        put(&mut members, "multi_assets", policies_to_json(&value.multiasset));
    }
    assert(members_view(members@) =~= value_tree(*value)->Object_0);
    QueryValue::object(members)
}

/// The document of a minted amount of an asset.
pub open spec fn minted_tree(asset: MintedAsset) -> Tree {
    Tree::Object(
        seq![
            ("name"@, Tree::Text(asset_name(asset.name@))),
            ("amount"@, Tree::Number(signed_number(asset.amount))),
        ],
    )
}

/// The documents of minted assets, in order.
pub open spec fn minted_trees(assets: Seq<MintedAsset>) -> Seq<Tree> {
    Seq::new(assets.len(), |i: int| minted_tree(assets[i]))
}

/// The document of what is minted under a policy.
pub open spec fn mint_tree(policy: PolicyMint) -> Tree {
    Tree::Object(
        seq![
            ("policy_id"@, hex_tree(policy.policy_id@)),
            ("assets"@, Tree::Array(minted_trees(policy.assets@))),
        ],
    )
}

/// The documents of what is minted, policy by policy.
pub open spec fn mint_trees(policies: Seq<PolicyMint>) -> Seq<Tree> {
    Seq::new(policies.len(), |i: int| mint_tree(policies[i]))
}

fn minted_to_json(asset: &MintedAsset) -> (r: QueryValue)
    ensures
        r@ == minted_tree(*asset),
{
    let mut members: Vec<(String, QueryValue)> = Vec::new();
    let name = decode_asset_name(&asset.name);
    put(&mut members, "name", QueryValue::text(name.as_str()));
    put(&mut members, "amount", QueryValue::signed(asset.amount));
    assert(members_view(members@) =~= minted_tree(*asset)->Object_0);
    QueryValue::object(members)
}

fn minted_assets_to_json(assets: &Vec<MintedAsset>) -> (r: QueryValue)
    ensures
        r@ == Tree::Array(minted_trees(assets@)),
{
    let mut out: Vec<QueryValue> = Vec::new();
    let mut i: usize = 0;
    assert(trees(out@) =~= minted_trees(assets@.subrange(0, 0)));
    while i < assets.len()
        invariant
            i <= assets.len(),
            trees(out@) == minted_trees(assets@.subrange(0, i as int)),
        decreases assets.len() - i,
    {
        let item = minted_to_json(&assets[i]);
        proof {
            lemma_trees_push(out@, item);
            assert(minted_trees(assets@.subrange(0, i + 1)) =~= minted_trees(
                assets@.subrange(0, i as int),
            ).push(item@));
        }
        out.push(item);
        i += 1;
    }
    assert(assets@.subrange(0, assets.len() as int) =~= assets@);
    QueryValue::array(out)
}

fn mint_to_json(policies: &Vec<PolicyMint>) -> (r: QueryValue)
    ensures
        r@ == Tree::Array(mint_trees(policies@)),
{
    let mut out: Vec<QueryValue> = Vec::new();
    let mut i: usize = 0;
    assert(trees(out@) =~= mint_trees(policies@.subrange(0, 0)));
    while i < policies.len()
        invariant
            i <= policies.len(),
            trees(out@) == mint_trees(policies@.subrange(0, i as int)),
        decreases policies.len() - i,
    {
        let mut members: Vec<(String, QueryValue)> = Vec::new();
        put(&mut members, "policy_id", hex_json(&policies[i].policy_id));
        put(&mut members, "assets", minted_assets_to_json(&policies[i].assets));
        assert(members_view(members@) =~= mint_tree(policies@[i as int])->Object_0);
        let item = QueryValue::object(members);
        proof {
            lemma_trees_push(out@, item);
            assert(mint_trees(policies@.subrange(0, i + 1)) =~= mint_trees(
                policies@.subrange(0, i as int),
            ).push(item@));
        }
        out.push(item);
        i += 1;
    }
    assert(policies@.subrange(0, policies.len() as int) =~= policies@);
    QueryValue::array(out)
}

/// The document of a delegated representative.
pub open spec fn drep_tree(drep: DRep) -> Tree {
    match drep {
        DRep::Key(hash) => Tree::Object(
            seq![("type"@, Tree::Text("key"@)), ("hash"@, hex_tree(hash@))],
        ),
        DRep::Script(hash) => Tree::Object(
            seq![("type"@, Tree::Text("script"@)), ("hash"@, hex_tree(hash@))],
        ),
        DRep::AlwaysAbstain => Tree::Object(seq![("type"@, Tree::Text("always_abstain"@))]),
        DRep::AlwaysNoConfidence => Tree::Object(
            seq![("type"@, Tree::Text("always_no_confidence"@))],
        ),
    }
}

/// Convert DRep to a document.
pub fn drep_to_json(drep: &DRep) -> (r: QueryValue)
    ensures
        r@ == drep_tree(*drep),
{
    let mut members: Vec<(String, QueryValue)> = Vec::new();
    match drep {
        DRep::Key(hash) => {
            put(&mut members, "type", QueryValue::text("key"));
            put(&mut members, "hash", hex_json(hash));
        },
        DRep::Script(hash) => {
            put(&mut members, "type", QueryValue::text("script"));
            put(&mut members, "hash", hex_json(hash));
        },
        DRep::AlwaysAbstain => {
            put(&mut members, "type", QueryValue::text("always_abstain"));
        },
        DRep::AlwaysNoConfidence => {
            put(&mut members, "type", QueryValue::text("always_no_confidence"));
        },
    }
    assert(members_view(members@) =~= drep_tree(*drep)->Object_0);
    QueryValue::object(members)
}

/// The name of the type of a certificate.
pub open spec fn certificate_type(cert: Certificate) -> Seq<char> {
    match cert {
        Certificate::StakeRegistration { .. } => "stake_registration"@,
        Certificate::StakeDeregistration { .. } => "stake_deregistration"@,
        Certificate::StakeDelegation { .. } => "stake_delegation"@,
        Certificate::PoolRegistration { .. } => "pool_registration"@,
        Certificate::PoolRetirement { .. } => "pool_retirement"@,
        Certificate::RegCert { .. } => "reg_cert"@,
        Certificate::UnregCert { .. } => "unreg_cert"@,
        Certificate::VoteDelegCert { .. } => "vote_deleg_cert"@,
        Certificate::StakeVoteDelegCert { .. } => "stake_vote_deleg_cert"@,
        Certificate::StakeRegDelegCert { .. } => "stake_reg_deleg_cert"@,
        Certificate::VoteRegDelegCert { .. } => "vote_reg_deleg_cert"@,
        Certificate::StakeVoteRegDelegCert { .. } => "stake_vote_reg_deleg_cert"@,
        Certificate::AuthCommitteeHotCert { .. } => "auth_committee_hot_cert"@,
        Certificate::ResignCommitteeColdCert { .. } => "resign_committee_cold_cert"@,
        Certificate::RegDrepCert { .. } => "reg_drep_cert"@,
        Certificate::UnregDrepCert { .. } => "unreg_drep_cert"@,
        Certificate::UpdateDrepCert { .. } => "update_drep_cert"@,
    }
}

/// The margin of a pool as a fraction.
pub open spec fn margin_text(start: u64, end: u64) -> Seq<char> {
    digits_of(start as nat) + seq!['/'] + digits_of(end as nat)
}

/// What follows the type in the document of a certificate.
pub open spec fn certificate_members(cert: Certificate) -> Seq<(Seq<char>, Tree)> {
    match cert {
        Certificate::StakeRegistration { stake_credential } => seq![
            ("stake_credential"@, credential_document(stake_credential)),
        ],
        Certificate::StakeDeregistration { stake_credential } => seq![
            ("stake_credential"@, credential_document(stake_credential)),
        ],
        Certificate::StakeDelegation { stake_credential, pool } => seq![
            ("stake_credential"@, credential_document(stake_credential)),
            ("pool_keyhash"@, hex_tree(pool@)),
        ],
        Certificate::PoolRegistration {
            operator,
            vrf_keyhash,
            pledge,
            cost,
            margin_start,
            margin_end,
        } => seq![
            ("pool_keyhash"@, hex_tree(operator@)),
            ("vrf_keyhash"@, hex_tree(vrf_keyhash@)),
            ("pledge"@, count_tree(pledge)),
            ("cost"@, count_tree(cost)),
            ("margin"@, Tree::Text(margin_text(margin_start, margin_end))),
        ],
        Certificate::PoolRetirement { pool, epoch } => seq![
            ("pool_keyhash"@, hex_tree(pool@)),
            ("epoch"@, count_tree(epoch)),
        ],
        Certificate::RegCert { stake_credential, deposit } => seq![
            ("stake_credential"@, credential_document(stake_credential)),
            ("deposit"@, count_tree(deposit)),
        ],
        Certificate::UnregCert { stake_credential, deposit } => seq![
            ("stake_credential"@, credential_document(stake_credential)),
            ("deposit"@, count_tree(deposit)),
        ],
        Certificate::VoteDelegCert { stake_credential, d_rep } => seq![
            ("stake_credential"@, credential_document(stake_credential)),
            ("drep"@, drep_tree(d_rep)),
        ],
        Certificate::StakeVoteDelegCert { stake_credential, pool, d_rep } => seq![
            ("stake_credential"@, credential_document(stake_credential)),
            ("pool_keyhash"@, hex_tree(pool@)),
            ("drep"@, drep_tree(d_rep)),
        ],
        Certificate::StakeRegDelegCert { stake_credential, pool, deposit } => seq![
            ("stake_credential"@, credential_document(stake_credential)),
            ("pool_keyhash"@, hex_tree(pool@)),
            ("deposit"@, count_tree(deposit)),
        ],
        Certificate::VoteRegDelegCert { stake_credential, d_rep, deposit } => seq![
            ("stake_credential"@, credential_document(stake_credential)),
            ("drep"@, drep_tree(d_rep)),
            ("deposit"@, count_tree(deposit)),
        ],
        Certificate::StakeVoteRegDelegCert { stake_credential, pool, d_rep, deposit } => seq![
            ("stake_credential"@, credential_document(stake_credential)),
            ("pool_keyhash"@, hex_tree(pool@)),
            ("drep"@, drep_tree(d_rep)),
            ("deposit"@, count_tree(deposit)),
        ],
        Certificate::AuthCommitteeHotCert {
            committee_cold_credential,
            committee_hot_credential,
        } => seq![
            ("committee_cold_credential"@, credential_document(committee_cold_credential)),
            ("committee_hot_credential"@, credential_document(committee_hot_credential)),
        ],
        Certificate::ResignCommitteeColdCert { committee_cold_credential } => seq![
            ("committee_cold_credential"@, credential_document(committee_cold_credential)),
        ],
        Certificate::RegDrepCert { drep_credential, deposit } => seq![
            ("drep_credential"@, credential_document(drep_credential)),
            ("deposit"@, count_tree(deposit)),
        ],
        Certificate::UnregDrepCert { drep_credential, deposit } => seq![
            ("drep_credential"@, credential_document(drep_credential)),
            ("deposit"@, count_tree(deposit)),
        ],
        Certificate::UpdateDrepCert { drep_credential } => seq![
            ("drep_credential"@, credential_document(drep_credential)),
        ],
    }
}

/// The document of a certificate: its type, then its parts.
pub open spec fn certificate_tree(cert: Certificate) -> Tree {
    Tree::Object(seq![("type"@, Tree::Text(certificate_type(cert)))] + certificate_members(cert))
}

/// The documents of certificates, in order.
pub open spec fn certificate_trees(certs: Seq<Certificate>) -> Seq<Tree> {
    Seq::new(certs.len(), |i: int| certificate_tree(certs[i]))
}

/// Convert stake credential to a document.
pub fn stake_credential_to_json(cred: &Credential) -> (r: QueryValue)
    ensures
        r@ == credential_document(*cred),
{
    credential_to_json(cred)
}

fn margin_json(start: u64, end: u64) -> (r: QueryValue)
    ensures
        r@ == Tree::Text(margin_text(start, end)),
{
    let mut chars: Vec<char> = Vec::new();
    push_digits(start, &mut chars);
    chars.push('/');
    push_digits(end, &mut chars);
    assert(chars@ =~= margin_text(start, end));
    assert(chars@.subrange(0, chars.len() as int) =~= chars@);
    let shown = to_text(&chars, 0, chars.len());
    QueryValue::text(shown.as_str())
}

/// Convert a certificate to a document.
pub fn certificate_to_json(cert: &Certificate) -> (r: QueryValue)
    ensures
        r@ == certificate_tree(*cert),
{
    let mut m: Vec<(String, QueryValue)> = Vec::new();
    match cert {
        Certificate::StakeRegistration { stake_credential } => {
            put(&mut m, "type", QueryValue::text("stake_registration"));
            put(&mut m, "stake_credential", stake_credential_to_json(stake_credential));
        },
        Certificate::StakeDeregistration { stake_credential } => {
            put(&mut m, "type", QueryValue::text("stake_deregistration"));
            put(&mut m, "stake_credential", stake_credential_to_json(stake_credential));
        },
        Certificate::StakeDelegation { stake_credential, pool } => {
            put(&mut m, "type", QueryValue::text("stake_delegation"));
            put(&mut m, "stake_credential", stake_credential_to_json(stake_credential));
            put(&mut m, "pool_keyhash", hex_json(pool));
        },
        Certificate::PoolRegistration {
            operator,
            vrf_keyhash,
            pledge,
            cost,
            margin_start,
            margin_end,
        } => {
            put(&mut m, "type", QueryValue::text("pool_registration"));
            put(&mut m, "pool_keyhash", hex_json(operator));
            put(&mut m, "vrf_keyhash", hex_json(vrf_keyhash));
            put(&mut m, "pledge", QueryValue::unsigned(*pledge));
            put(&mut m, "cost", QueryValue::unsigned(*cost));
            put(&mut m, "margin", margin_json(*margin_start, *margin_end));
        },
        Certificate::PoolRetirement { pool, epoch } => {
            put(&mut m, "type", QueryValue::text("pool_retirement"));
            put(&mut m, "pool_keyhash", hex_json(pool));
            put(&mut m, "epoch", QueryValue::unsigned(*epoch));
        },
        Certificate::RegCert { stake_credential, deposit } => {
            put(&mut m, "type", QueryValue::text("reg_cert"));
            put(&mut m, "stake_credential", stake_credential_to_json(stake_credential));
            put(&mut m, "deposit", QueryValue::unsigned(*deposit));
        },
        Certificate::UnregCert { stake_credential, deposit } => {
            put(&mut m, "type", QueryValue::text("unreg_cert"));
            put(&mut m, "stake_credential", stake_credential_to_json(stake_credential));
            put(&mut m, "deposit", QueryValue::unsigned(*deposit));
        },
        Certificate::VoteDelegCert { stake_credential, d_rep } => {
            put(&mut m, "type", QueryValue::text("vote_deleg_cert"));
            put(&mut m, "stake_credential", stake_credential_to_json(stake_credential));
            put(&mut m, "drep", drep_to_json(d_rep));
        },
        Certificate::StakeVoteDelegCert { stake_credential, pool, d_rep } => {
            put(&mut m, "type", QueryValue::text("stake_vote_deleg_cert"));
            put(&mut m, "stake_credential", stake_credential_to_json(stake_credential));
            put(&mut m, "pool_keyhash", hex_json(pool));
            put(&mut m, "drep", drep_to_json(d_rep));
        },
        Certificate::StakeRegDelegCert { stake_credential, pool, deposit } => {
            put(&mut m, "type", QueryValue::text("stake_reg_deleg_cert"));
            put(&mut m, "stake_credential", stake_credential_to_json(stake_credential));
            put(&mut m, "pool_keyhash", hex_json(pool));
            put(&mut m, "deposit", QueryValue::unsigned(*deposit));
        },
        Certificate::VoteRegDelegCert { stake_credential, d_rep, deposit } => {
            put(&mut m, "type", QueryValue::text("vote_reg_deleg_cert"));
            put(&mut m, "stake_credential", stake_credential_to_json(stake_credential));
            put(&mut m, "drep", drep_to_json(d_rep));
            put(&mut m, "deposit", QueryValue::unsigned(*deposit));
        },
        Certificate::StakeVoteRegDelegCert { stake_credential, pool, d_rep, deposit } => {
            put(&mut m, "type", QueryValue::text("stake_vote_reg_deleg_cert"));
            put(&mut m, "stake_credential", stake_credential_to_json(stake_credential));
            put(&mut m, "pool_keyhash", hex_json(pool));
            put(&mut m, "drep", drep_to_json(d_rep));
            put(&mut m, "deposit", QueryValue::unsigned(*deposit));
        },
        Certificate::AuthCommitteeHotCert {
            committee_cold_credential,
            committee_hot_credential,
        } => {
            put(&mut m, "type", QueryValue::text("auth_committee_hot_cert"));
            put(
                &mut m,
                "committee_cold_credential",
                credential_to_json(committee_cold_credential),
            );
            put(&mut m, "committee_hot_credential", credential_to_json(committee_hot_credential));
        },
        Certificate::ResignCommitteeColdCert { committee_cold_credential } => {
            put(&mut m, "type", QueryValue::text("resign_committee_cold_cert"));
            put(
                &mut m,
                "committee_cold_credential",
                credential_to_json(committee_cold_credential),
            );
        },
        Certificate::RegDrepCert { drep_credential, deposit } => {
            put(&mut m, "type", QueryValue::text("reg_drep_cert"));
            put(&mut m, "drep_credential", credential_to_json(drep_credential));
            put(&mut m, "deposit", QueryValue::unsigned(*deposit));
        },
        Certificate::UnregDrepCert { drep_credential, deposit } => {
            put(&mut m, "type", QueryValue::text("unreg_drep_cert"));
            put(&mut m, "drep_credential", credential_to_json(drep_credential));
            put(&mut m, "deposit", QueryValue::unsigned(*deposit));
        },
        Certificate::UpdateDrepCert { drep_credential } => {
            put(&mut m, "type", QueryValue::text("update_drep_cert"));
            put(&mut m, "drep_credential", credential_to_json(drep_credential));
        },
    }
    assert(members_view(m@) =~= certificate_tree(*cert)->Object_0);
    QueryValue::object(m)
}

fn certificates_to_json(certs: &Vec<Certificate>) -> (r: QueryValue)
    ensures
        r@ == Tree::Array(certificate_trees(certs@)),
{
    let mut out: Vec<QueryValue> = Vec::new();
    let mut i: usize = 0;
    assert(trees(out@) =~= certificate_trees(certs@.subrange(0, 0)));
    while i < certs.len()
        invariant
            i <= certs.len(),
            trees(out@) == certificate_trees(certs@.subrange(0, i as int)),
        decreases certs.len() - i,
    {
        let item = certificate_to_json(&certs[i]);
        proof {
            lemma_trees_push(out@, item);
            assert(certificate_trees(certs@.subrange(0, i + 1)) =~= certificate_trees(
                certs@.subrange(0, i as int),
            ).push(item@));
        }
        out.push(item);
        i += 1;
    }
    assert(certs@.subrange(0, certs.len() as int) =~= certs@);
    QueryValue::array(out)
}

/// The document of the datum of an output.
pub open spec fn datum_tree(datum: Datum) -> Tree {
    match datum {
        Datum::Hash(hash) => Tree::Object(
            seq![("type"@, Tree::Text("hash"@)), ("hash"@, hex_tree(hash@))],
        ),
        Datum::Inline(bytes) => Tree::Object(
            seq![
                ("type"@, Tree::Text("inline"@)),
                ("bytes"@, hex_tree(bytes@)),
                ("size"@, count_tree(bytes@.len() as u64)),
            ],
        ),
    }
}

/// The document of a script that an output refers to.
pub open spec fn script_ref_tree(bytes: Seq<u8>) -> Tree {
    Tree::Object(seq![("size"@, count_tree(bytes.len() as u64)), ("bytes"@, hex_tree(bytes))])
}

/// One member where there is a value, none otherwise.
pub open spec fn optional(name: Seq<char>, value: Option<Tree>) -> Seq<(Seq<char>, Tree)> {
    match value {
        Some(t) => seq![(name, t)],
        None => Seq::empty(),
    }
}

/// The document of an output: address and value, then the datum and the
/// script reference, each where there is one.
pub open spec fn output_tree(output: TransactionOutput) -> Tree {
    Tree::Object(
        seq![
            ("address"@, detailed_document(output.address)),
            ("value"@, value_tree(output.amount)),
        ] + optional(
            "datum"@,
            match output.datum {
                Some(d) => Some(datum_tree(d)),
                None => None,
            },
        ) + optional(
            "script_ref"@,
            match output.script_reference {
                Some(bytes) => Some(script_ref_tree(bytes@)),
                None => None,
            },
        ),
    )
}

/// The documents of outputs, in order.
pub open spec fn output_trees(outputs: Seq<TransactionOutput>) -> Seq<Tree> {
    Seq::new(outputs.len(), |i: int| output_tree(outputs[i]))
}

fn datum_to_json(datum: &Datum) -> (r: QueryValue)
    ensures
        r@ == datum_tree(*datum),
{
    let mut members: Vec<(String, QueryValue)> = Vec::new();
    match datum {
        Datum::Hash(hash) => {
            put(&mut members, "type", QueryValue::text("hash"));
            put(&mut members, "hash", hex_json(hash));
        },
        Datum::Inline(bytes) => {
            put(&mut members, "type", QueryValue::text("inline"));
            put(&mut members, "bytes", hex_json(bytes));
            put(&mut members, "size", QueryValue::unsigned(bytes.len() as u64));
        },
    }
    assert(members_view(members@) =~= datum_tree(*datum)->Object_0);
    QueryValue::object(members)
}

/// Convert a transaction output to a document.
pub fn output_to_json(output: &TransactionOutput) -> (r: QueryValue)
    ensures
        r@ == output_tree(*output),
{
    let mut members: Vec<(String, QueryValue)> = Vec::new();
    put(&mut members, "address", address_to_detailed_json(&output.address));
    put(&mut members, "value", value_to_json(&output.amount));
    if let Some(datum) = &output.datum {
        put(&mut members, "datum", datum_to_json(datum));
    }
    if let Some(bytes) = &output.script_reference {
        let mut script: Vec<(String, QueryValue)> = Vec::new();
        put(&mut script, "size", QueryValue::unsigned(bytes.len() as u64));
        put(&mut script, "bytes", hex_json(bytes));
        assert(members_view(script@) =~= script_ref_tree(bytes@)->Object_0);
        put(&mut members, "script_ref", QueryValue::object(script));
    }
    assert(members_view(members@) =~= output_tree(*output)->Object_0);
    QueryValue::object(members)
}

fn outputs_to_json(outputs: &Vec<TransactionOutput>) -> (r: QueryValue)
    ensures
        r@ == Tree::Array(output_trees(outputs@)),
{
    let mut out: Vec<QueryValue> = Vec::new();
    let mut i: usize = 0;
    assert(trees(out@) =~= output_trees(outputs@.subrange(0, 0)));
    while i < outputs.len()
        invariant
            i <= outputs.len(),
            trees(out@) == output_trees(outputs@.subrange(0, i as int)),
        decreases outputs.len() - i,
    {
        let item = output_to_json(&outputs[i]);
        proof {
            lemma_trees_push(out@, item);
            assert(output_trees(outputs@.subrange(0, i + 1)) =~= output_trees(
                outputs@.subrange(0, i as int),
            ).push(item@));
        }
        out.push(item);
        i += 1;
    }
    assert(outputs@.subrange(0, outputs.len() as int) =~= outputs@);
    QueryValue::array(out)
}

/// The document of a withdrawal.
pub open spec fn withdrawal_tree(w: Withdrawal) -> Tree {
    Tree::Object(
        seq![("reward_address"@, Tree::Text(w.reward_address@)), ("amount"@, count_tree(w.amount))],
    )
}

/// The documents of withdrawals, in order.
pub open spec fn withdrawal_trees(ws: Seq<Withdrawal>) -> Seq<Tree> {
    Seq::new(ws.len(), |i: int| withdrawal_tree(ws[i]))
}

fn withdrawals_to_json(ws: &Vec<Withdrawal>) -> (r: QueryValue)
    ensures
        r@ == Tree::Array(withdrawal_trees(ws@)),
{
    let mut out: Vec<QueryValue> = Vec::new();
    let mut i: usize = 0;
    assert(trees(out@) =~= withdrawal_trees(ws@.subrange(0, 0)));
    while i < ws.len()
        invariant
            i <= ws.len(),
            trees(out@) == withdrawal_trees(ws@.subrange(0, i as int)),
        decreases ws.len() - i,
    {
        let mut members: Vec<(String, QueryValue)> = Vec::new();
        put(&mut members, "reward_address", QueryValue::text(ws[i].reward_address.as_str()));
        put(&mut members, "amount", QueryValue::unsigned(ws[i].amount));
        assert(members_view(members@) =~= withdrawal_tree(ws@[i as int])->Object_0);
        let item = QueryValue::object(members);
        proof {
            lemma_trees_push(out@, item);
            assert(withdrawal_trees(ws@.subrange(0, i + 1)) =~= withdrawal_trees(
                ws@.subrange(0, i as int),
            ).push(item@));
        }
        out.push(item);
        i += 1;
    }
    assert(ws@.subrange(0, ws.len() as int) =~= ws@);
    QueryValue::array(out)
}

/// Hashes in hexadecimal, in order.
pub open spec fn hex_trees(hashes: Seq<Vec<u8>>) -> Seq<Tree> {
    Seq::new(hashes.len(), |i: int| hex_tree(hashes[i]@))
}

fn hashes_to_json(hashes: &Vec<Vec<u8>>) -> (r: QueryValue)
    ensures
        r@ == Tree::Array(hex_trees(hashes@)),
{
    let mut out: Vec<QueryValue> = Vec::new();
    let mut i: usize = 0;
    assert(trees(out@) =~= hex_trees(hashes@.subrange(0, 0)));
    while i < hashes.len()
        invariant
            i <= hashes.len(),
            trees(out@) == hex_trees(hashes@.subrange(0, i as int)),
        decreases hashes.len() - i,
    {
        let item = hex_json(&hashes[i]);
        proof {
            lemma_trees_push(out@, item);
            assert(hex_trees(hashes@.subrange(0, i + 1)) =~= hex_trees(
                hashes@.subrange(0, i as int),
            ).push(item@));
        }
        out.push(item);
        i += 1;
    }
    assert(hashes@.subrange(0, hashes.len() as int) =~= hashes@);
    QueryValue::array(out)
}

/// The document of a Plutus script.
pub open spec fn script_tree(script: PlutusScript) -> Tree {
    Tree::Object(seq![("hash"@, hex_tree(script.hash@)), ("size"@, count_tree(script.size))])
}

/// The documents of Plutus scripts, in order.
pub open spec fn script_trees(scripts: Seq<PlutusScript>) -> Seq<Tree> {
    Seq::new(scripts.len(), |i: int| script_tree(scripts[i]))
}

fn scripts_to_json(scripts: &Vec<PlutusScript>) -> (r: QueryValue)
    ensures
        r@ == Tree::Array(script_trees(scripts@)),
{
    let mut out: Vec<QueryValue> = Vec::new();
    let mut i: usize = 0;
    assert(trees(out@) =~= script_trees(scripts@.subrange(0, 0)));
    while i < scripts.len()
        invariant
            i <= scripts.len(),
            trees(out@) == script_trees(scripts@.subrange(0, i as int)),
        decreases scripts.len() - i,
    {
        let mut members: Vec<(String, QueryValue)> = Vec::new();
        put(&mut members, "hash", hex_json(&scripts[i].hash));
        put(&mut members, "size", QueryValue::unsigned(scripts[i].size));
        assert(members_view(members@) =~= script_tree(scripts@[i as int])->Object_0);
        let item = QueryValue::object(members);
        proof {
            lemma_trees_push(out@, item);
            assert(script_trees(scripts@.subrange(0, i + 1)) =~= script_trees(
                scripts@.subrange(0, i as int),
            ).push(item@));
        }
        out.push(item);
        i += 1;
    }
    assert(scripts@.subrange(0, scripts.len() as int) =~= scripts@);
    QueryValue::array(out)
}

/// A count where there is one.
pub open spec fn optional_count(name: Seq<char>, n: Option<u64>) -> Seq<(Seq<char>, Tree)> {
    match n {
        Some(n) => seq![(name, count_tree(n))],
        None => Seq::empty(),
    }
}

/// The mathematical value of an optional value.
pub open spec fn option_tree(value: Option<QueryValue>) -> Option<Tree> {
    match value {
        Some(v) => Some(v@),
        None => None,
    }
}

fn put_optional(members: &mut Vec<(String, QueryValue)>, name: &str, value: Option<QueryValue>)
    ensures
        members_view(final(members)@) == members_view(old(members)@) + optional(
            name@,
            option_tree(value),
        ),
{
    match value {
        Some(v) => {
            put(members, name, v);
            assert(members_view(members@) =~= members_view(old(members)@) + seq![(name@, v@)]);
        },
        None => {
            assert(members_view(members@) =~= members_view(old(members)@) + Seq::<
                (Seq<char>, Tree),
            >::empty());
        },
    }
}

fn put_count(members: &mut Vec<(String, QueryValue)>, name: &str, n: Option<u64>)
    ensures
        members_view(final(members)@) == members_view(old(members)@) + optional_count(name@, n),
{
    match n {
        Some(n) => {
            put(members, name, QueryValue::unsigned(n));
            assert(members_view(members@) =~= members_view(old(members)@) + seq![
                (name@, count_tree(n)),
            ]);
        },
        None => {
            assert(members_view(members@) =~= members_view(old(members)@) + Seq::<
                (Seq<char>, Tree),
            >::empty());
        },
    }
}

/// The scripts of one version where there are any.
pub open spec fn scripts_tree(scripts: Option<Vec<PlutusScript>>) -> Option<Tree> {
    match scripts {
        Some(v) => Some(Tree::Array(script_trees(v@))),
        None => None,
    }
}

/// The summary of the witnesses: how many of each kind there are, and the
/// Plutus scripts one by one.
pub open spec fn witness_tree(w: TransactionWitnessSet) -> Tree {
    Tree::Object(
        optional_count("vkeywitnesses"@, w.vkeywitnesses) + optional_count(
            "native_scripts"@,
            w.native_scripts,
        ) + optional("plutus_v1_scripts"@, scripts_tree(w.plutus_v1_scripts)) + optional(
            "plutus_v2_scripts"@,
            scripts_tree(w.plutus_v2_scripts),
        ) + optional("plutus_v3_scripts"@, scripts_tree(w.plutus_v3_scripts)) + optional_count(
            "plutus_data"@,
            w.plutus_datums,
        ) + optional(
            "redeemers"@,
            if w.has_redeemers {
                Some(Tree::Text("present"@))
            } else {
                None
            },
        ),
    )
}

fn optional_scripts_to_json(scripts: &Option<Vec<PlutusScript>>) -> (r: Option<QueryValue>)
    ensures
        option_tree(r) == scripts_tree(*scripts),
{
    match scripts {
        Some(v) => Some(scripts_to_json(v)),
        None => None,
    }
}

/// The summary of the witnesses of a transaction.
pub fn witness_set_to_json(w: &TransactionWitnessSet) -> (r: QueryValue)
    ensures
        r@ == witness_tree(*w),
{
    let mut members: Vec<(String, QueryValue)> = Vec::new();
    assert(members_view(members@) =~= Seq::<(Seq<char>, Tree)>::empty());
    put_count(&mut members, "vkeywitnesses", w.vkeywitnesses);
    assert(members_view(members@) =~= optional_count("vkeywitnesses"@, w.vkeywitnesses));
    put_count(&mut members, "native_scripts", w.native_scripts);
    put_optional(
        &mut members,
        "plutus_v1_scripts",
        optional_scripts_to_json(&w.plutus_v1_scripts),
    );
    put_optional(
        &mut members,
        "plutus_v2_scripts",
        optional_scripts_to_json(&w.plutus_v2_scripts),
    );
    put_optional(
        &mut members,
        "plutus_v3_scripts",
        optional_scripts_to_json(&w.plutus_v3_scripts),
    );
    put_count(&mut members, "plutus_data", w.plutus_datums);
    let redeemers = if w.has_redeemers {
        Some(QueryValue::text("present"))
    } else {
        None
    };
    put_optional(&mut members, "redeemers", redeemers);
    QueryValue::object(members)
}

fn integer_json(i: i128) -> (r: QueryValue)
    ensures
        r@ == Tree::Text(integer_text(i as int)),
{
    let mut chars: Vec<char> = Vec::new();
    push_integer(i, &mut chars);
    assert(chars@.subrange(0, chars.len() as int) =~= chars@);
    let shown = to_text(&chars, 0, chars.len());
    QueryValue::text(shown.as_str())
}

/// `i` is the first place among `entries` at which `key` stands.
pub open spec fn key_at(entries: Seq<(Seq<char>, Tree)>, key: Seq<char>, i: int) -> bool {
    &&& 0 <= i < entries.len()
    &&& entries[i].0 == key
    &&& forall|j: int| 0 <= j < i ==> entries[j].0 != key
}

/// The members with `key` set to `value`: in place of the first member of
/// that name, or at the end where there is none.
pub open spec fn with_member(entries: Seq<(Seq<char>, Tree)>, key: Seq<char>, value: Tree) -> Seq<
    (Seq<char>, Tree),
> {
    if exists|i: int| key_at(entries, key, i) {
        entries.update(choose|i: int| key_at(entries, key, i), (key, value))
    } else {
        entries.push((key, value))
    }
}

/// The members that result from setting one after another.
pub open spec fn folded(pairs: Seq<(Seq<char>, Tree)>) -> Seq<(Seq<char>, Tree)>
    decreases pairs.len(),
{
    if pairs.len() == 0 {
        Seq::empty()
    } else {
        with_member(folded(pairs.drop_last()), pairs.last().0, pairs.last().1)
    }
}

/// Sets the member `key` of `members` to `value`.
pub fn set_member(members: &mut Vec<(String, QueryValue)>, key: &String, value: QueryValue)
    ensures
        members_view(final(members)@) == with_member(members_view(old(members)@), key@, value@),
{
    let ghost before = members_view(members@);
    let n = members.len();
    let mut i: usize = 0;
    while i < n
        invariant
            i <= n,
            n == members.len(),
            members@ == old(members)@,
            before == members_view(members@),
            forall|j: int| 0 <= j < i ==> before[j].0 != key@,
        decreases n - i,
    {
        if members[i].0 == *key {
            proof {
                assert(key_at(before, key@, i as int));
                let k = choose|k: int| key_at(before, key@, k);
                assert(k == i) by {
                    if k < i {
                        assert(before[k].0 != key@);
                    }
                    if i < k {
                        assert(before[i as int].0 != key@);
                    }
                }
            }
            members.set(i, (key.clone(), value));
            assert(members_view(members@) =~= before.update(i as int, (key@, value@)));
            return;
        }
        i += 1;
    }
    proof {
        if exists|k: int| key_at(before, key@, k) {
            let k = choose|k: int| key_at(before, key@, k);
            assert(before[k].0 != key@);
        }
    }
    members.push((key.clone(), value));
    assert(members_view(members@) =~= before.push((key@, value@)));
}

/// The text of a key that is text.
pub open spec fn key_text(key: Metadatum) -> Seq<char> {
    match key {
        Metadatum::Text(s) => s@,
        _ => Seq::empty(),
    }
}

/// Whether every key is text.
pub open spec fn all_text_keys(entries: Seq<(Metadatum, Metadatum)>) -> bool {
    forall|i: int| 0 <= i < entries.len() ==> (#[trigger] entries[i]).0 is Text
}

/// The document of a key with its value.
pub open spec fn pair_tree(key: Tree, value: Tree) -> Tree {
    Tree::Object(seq![("key"@, key), ("value"@, value)])
}

/// The document of a piece of metadata. An integer is shown in decimal,
/// bytes as text where they are printable. Keys with values make an object
/// where there are some and every key is text, a later value of a key
/// replacing an earlier one; otherwise they make an array of pairs.
pub open spec fn metadatum_tree(m: Metadatum) -> Tree
    decreases m, 0nat,
{
    match m {
        Metadatum::Int(i) => Tree::Text(integer_text(i as int)),
        Metadatum::Bytes(bytes) => match printable(bytes@) {
            Some(s) => Tree::Text(s),
            None => Tree::Object(seq![("bytes"@, hex_tree(bytes@))]),
        },
        Metadatum::Text(s) => Tree::Text(s@),
        Metadatum::List(elements) => Tree::Array(metadatum_trees(elements@)),
        Metadatum::Entries(entries) => if entries@.len() > 0 && all_text_keys(entries@) {
            Tree::Object(folded(keyed_trees(entries@)))
        } else {
            Tree::Array(pair_trees(entries@))
        },
    }
}

/// The documents of pieces of metadata, in order.
pub open spec fn metadatum_trees(elements: Seq<Metadatum>) -> Seq<Tree>
    decreases elements, 1nat,
{
    Seq::new(
        elements.len(),
        |i: int|
            if 0 <= i < elements.len() {
                metadatum_tree(elements[i])
            } else {
                Tree::Null
            },
    )
}

/// The text of each key with the document of its value, in order.
pub open spec fn keyed_trees(entries: Seq<(Metadatum, Metadatum)>) -> Seq<(Seq<char>, Tree)>
    decreases entries, 1nat,
{
    Seq::new(
        entries.len(),
        |i: int|
            if 0 <= i < entries.len() {
                (key_text(entries[i].0), metadatum_tree(entries[i].1))
            } else {
                (Seq::empty(), Tree::Null)
            },
    )
}

/// The document of each key with the document of its value, in order.
pub open spec fn pair_trees(entries: Seq<(Metadatum, Metadatum)>) -> Seq<Tree>
    decreases entries, 1nat,
{
    Seq::new(
        entries.len(),
        |i: int|
            if 0 <= i < entries.len() {
                pair_tree(metadatum_tree(entries[i].0), metadatum_tree(entries[i].1))
            } else {
                Tree::Null
            },
    )
}

fn has_text_keys(entries: &Vec<(Metadatum, Metadatum)>) -> (r: bool)
    ensures
        r == all_text_keys(entries@),
{
    let mut i: usize = 0;
    while i < entries.len()
        invariant
            i <= entries.len(),
            forall|j: int| 0 <= j < i ==> (#[trigger] entries@[j]).0 is Text,
        decreases entries.len() - i,
    {
        match &entries[i].0 {
            Metadatum::Text(_) => {},
            _ => {
                assert(!(entries@[i as int].0 is Text));
                return false;
            },
        }
        i += 1;
    }
    true
}

/// Convert metadata value to a document.
pub fn metadata_value_to_json(value: &Metadatum) -> (r: QueryValue)
    ensures
        r@ == metadatum_tree(*value),
    decreases value,
{
    match value {
        Metadatum::Int(i) => integer_json(*i),
        Metadatum::Bytes(bytes) => match read_printable(bytes) {
            Some(text) => QueryValue::text(text.as_str()),
            None => {
                let mut members: Vec<(String, QueryValue)> = Vec::new();
                put(&mut members, "bytes", hex_json(bytes));
                assert(members_view(members@) =~= seq![("bytes"@, hex_tree(bytes@))]);
                QueryValue::object(members)
            },
        },
        Metadatum::Text(text) => QueryValue::text(text.as_str()),
        Metadatum::List(elements) => {
            let mut out: Vec<QueryValue> = Vec::new();
            let mut i: usize = 0;
            while i < elements.len()
                invariant
                    i <= elements.len(),
                    *value is List,
                    value->List_0 == *elements,
                    out@.len() == i,
                    forall|j: int| 0 <= j < i ==> out@[j]@ == metadatum_tree(elements@[j]),
                decreases elements.len() - i,
            {
                out.push(metadata_value_to_json(&elements[i]));
                i += 1;
            }
            assert(trees(out@) =~= metadatum_trees(elements@));
            QueryValue::array(out)
        },
        Metadatum::Entries(entries) => {
            if entries.len() > 0 && has_text_keys(entries) {
                let ghost pairs = keyed_trees(entries@);
                let mut members: Vec<(String, QueryValue)> = Vec::new();
                let mut i: usize = 0;
                assert(members_view(members@) =~= folded(pairs.subrange(0, 0)));
                while i < entries.len()
                    invariant
                        i <= entries.len(),
                        *value is Entries,
                        value->Entries_0 == *entries,
                        all_text_keys(entries@),
                        pairs.len() == entries@.len(),
                        forall|j: int|
                            0 <= j < entries@.len() ==> (#[trigger] pairs[j]) == (
                                key_text(entries@[j].0),
                                metadatum_tree(entries@[j].1),
                            ),
                        members_view(members@) == folded(pairs.subrange(0, i as int)),
                    decreases entries.len() - i,
                {
                    let item = metadata_value_to_json(&entries[i].1);
                    proof {
                        let w = pairs.subrange(0, i + 1);
                        assert(w.drop_last() =~= pairs.subrange(0, i as int));
                        assert(w.last() == pairs[i as int]);
                        assert(entries@[i as int].0 is Text);
                    }
                    match &entries[i].0 {
                        Metadatum::Text(key) => {
                            set_member(&mut members, key, item);
                        },
                        _ => {},
                    }
                    i += 1;
                }
                assert(pairs.subrange(0, entries.len() as int) =~= pairs);
                QueryValue::object(members)
            } else {
                let mut out: Vec<QueryValue> = Vec::new();
                let mut i: usize = 0;
                while i < entries.len()
                    invariant
                        i <= entries.len(),
                        *value is Entries,
                        value->Entries_0 == *entries,
                        out@.len() == i,
                        forall|j: int|
                            0 <= j < i ==> out@[j]@ == pair_tree(
                                metadatum_tree(entries@[j].0),
                                metadatum_tree(entries@[j].1),
                            ),
                    decreases entries.len() - i,
                {
                    let key = metadata_value_to_json(&entries[i].0);
                    let item = metadata_value_to_json(&entries[i].1);
                    let mut members: Vec<(String, QueryValue)> = Vec::new();
                    put(&mut members, "key", key);
                    put(&mut members, "value", item);
                    assert(members_view(members@) =~= pair_tree(key@, item@)->Object_0);
                    out.push(QueryValue::object(members));
                    i += 1;
                }
                assert(trees(out@) =~= pair_trees(entries@));
                QueryValue::array(out)
            }
        },
    }
}

/// The standard that a label stands for, and its name, where it has one.
pub open spec fn label_standard(label: u64) -> Option<(Seq<char>, Seq<char>)> {
    if label == 674 {
        Some(("CIP-20"@, "Transaction Message"@))
    } else if label == 721 {
        Some(("CIP-25"@, "NFT Metadata"@))
    } else if label == 100 {
        Some(("CIP-68"@, "Reference NFT (100)"@))
    } else if label == 222 {
        Some(("CIP-68"@, "NFT (222)"@))
    } else if label == 333 {
        Some(("CIP-68"@, "FT (333)"@))
    } else if label == 444 {
        Some(("CIP-68"@, "RFT (444)"@))
    } else {
        None
    }
}

/// The document of the metadata under a label: under a label that stands for
/// a standard, the standard, its name and the data; the data alone under any
/// other label.
pub open spec fn labelled_tree(label: u64, value: Metadatum) -> Tree {
    match label_standard(label) {
        Some((cip, standard)) => Tree::Object(
            seq![
                ("cip"@, Tree::Text(cip)),
                ("standard"@, Tree::Text(standard)),
                ("data"@, metadatum_tree(value)),
            ],
        ),
        None => metadatum_tree(value),
    }
}

fn standard_of(label: u64) -> (r: Option<(&'static str, &'static str)>)
    ensures
        match r {
            Some(found) => label_standard(label) == Some((found.0@, found.1@)),
            None => label_standard(label) is None,
        },
{
    if label == 674 {
        Some(("CIP-20", "Transaction Message"))
    } else if label == 721 {
        Some(("CIP-25", "NFT Metadata"))
    } else if label == 100 {
        Some(("CIP-68", "Reference NFT (100)"))
    } else if label == 222 {
        Some(("CIP-68", "NFT (222)"))
    } else if label == 333 {
        Some(("CIP-68", "FT (333)"))
    } else if label == 444 {
        Some(("CIP-68", "RFT (444)"))
    } else {
        None
    }
}

/// Decode metadata with awareness of the standards that labels stand for.
pub fn decode_metadata_for_label(label: u64, value: &Metadatum) -> (r: QueryValue)
    ensures
        r@ == labelled_tree(label, *value),
{
    let decoded = metadata_value_to_json(value);
    match standard_of(label) {
        Some((cip, standard)) => {
            let mut members: Vec<(String, QueryValue)> = Vec::new();
            put(&mut members, "cip", QueryValue::text(cip));
            put(&mut members, "standard", QueryValue::text(standard));
            put(&mut members, "data", decoded);
            assert(members_view(members@) =~= labelled_tree(label, *value)->Object_0);
            QueryValue::object(members)
        },
        None => decoded,
    }
}

/// The document of the metadata under one label.
pub open spec fn label_tree(l: LabelledMetadatum) -> Tree {
    Tree::Object(
        seq![("label"@, count_tree(l.label)), ("value"@, labelled_tree(l.label, l.value))],
    )
}

/// The documents of the labels of the metadata, in order.
pub open spec fn label_trees(labels: Seq<LabelledMetadatum>) -> Seq<Tree> {
    Seq::new(labels.len(), |i: int| label_tree(labels[i]))
}

fn labels_to_json(labels: &Vec<LabelledMetadatum>) -> (r: QueryValue)
    ensures
        r@ == Tree::Array(label_trees(labels@)),
{
    let mut out: Vec<QueryValue> = Vec::new();
    let mut i: usize = 0;
    assert(trees(out@) =~= label_trees(labels@.subrange(0, 0)));
    while i < labels.len()
        invariant
            i <= labels.len(),
            trees(out@) == label_trees(labels@.subrange(0, i as int)),
        decreases labels.len() - i,
    {
        let mut members: Vec<(String, QueryValue)> = Vec::new();
        put(&mut members, "label", QueryValue::unsigned(labels[i].label));
        put(&mut members, "value", decode_metadata_for_label(labels[i].label, &labels[i].value));
        assert(members_view(members@) =~= label_tree(labels@[i as int])->Object_0);
        let item = QueryValue::object(members);
        proof {
            lemma_trees_push(out@, item);
            assert(label_trees(labels@.subrange(0, i + 1)) =~= label_trees(
                labels@.subrange(0, i as int),
            ).push(item@));
        }
        out.push(item);
        i += 1;
    }
    assert(labels@.subrange(0, labels.len() as int) =~= labels@);
    QueryValue::array(out)
}

/// The document of the auxiliary data: the metadata by label, and how many
/// scripts of each kind there are.
pub open spec fn auxiliary_tree(aux: AuxiliaryData) -> Tree {
    Tree::Object(
        optional(
            "metadata"@,
            match aux.metadata {
                Some(labels) => Some(
                    Tree::Object(seq![("labels"@, Tree::Array(label_trees(labels@)))]),
                ),
                None => None,
            },
        ) + optional_count("native_scripts"@, aux.native_scripts) + optional_count(
            "plutus_v1_scripts"@,
            aux.plutus_v1_scripts,
        ) + optional_count("plutus_v2_scripts"@, aux.plutus_v2_scripts),
    )
}

fn metadata_to_json(metadata: &Option<Vec<LabelledMetadatum>>) -> (r: Option<QueryValue>)
    ensures
        option_tree(r) == (match *metadata {
            Some(labels) => Some(Tree::Object(seq![("labels"@, Tree::Array(label_trees(labels@)))])),
            None => None,
        }),
{
    match metadata {
        Some(labels) => {
            let mut members: Vec<(String, QueryValue)> = Vec::new();
            put(&mut members, "labels", labels_to_json(labels));
            assert(members_view(members@) =~= seq![("labels"@, Tree::Array(label_trees(labels@)))]);
            Some(QueryValue::object(members))
        },
        None => None,
    }
}

/// The document of the auxiliary data of a transaction.
pub fn auxiliary_data_to_json(aux: &AuxiliaryData) -> (r: QueryValue)
    ensures
        r@ == auxiliary_tree(*aux),
{
    let mut members: Vec<(String, QueryValue)> = Vec::new();
    assert(members_view(members@) =~= Seq::<(Seq<char>, Tree)>::empty());
    let metadata = metadata_to_json(&aux.metadata);
    put_optional(&mut members, "metadata", metadata);
    assert(members_view(members@) =~= optional("metadata"@, option_tree(metadata)));
    put_count(&mut members, "native_scripts", aux.native_scripts);
    put_count(&mut members, "plutus_v1_scripts", aux.plutus_v1_scripts);
    put_count(&mut members, "plutus_v2_scripts", aux.plutus_v2_scripts);
    QueryValue::object(members)
}

/// The document of the body: inputs, outputs and fee, then each of the
/// other parts where there is one; certificates and withdrawals only where
/// there is at least one of them.
pub open spec fn body_tree(body: TransactionBody) -> Tree {
    Tree::Object(
        seq![
            ("inputs"@, Tree::Array(input_trees(body.inputs@))),
            ("outputs"@, Tree::Array(output_trees(body.outputs@))),
            ("fee"@, count_tree(body.fee)),
        ] + optional_count("ttl"@, body.ttl) + optional_count(
            "validity_interval_start"@,
            body.validity_interval_start,
        ) + optional(
            "mint"@,
            match body.mint {
                Some(m) => Some(Tree::Array(mint_trees(m@))),
                None => None,
            },
        ) + optional(
            "collateral_inputs"@,
            match body.collateral_inputs {
                Some(v) => Some(Tree::Array(input_trees(v@))),
                None => None,
            },
        ) + optional(
            "required_signers"@,
            match body.required_signers {
                Some(r) => Some(Tree::Array(hex_trees(r@))),
                None => None,
            },
        ) + optional_count("network_id"@, body.network_id) + optional(
            "certs"@,
            match body.certs {
                Some(c) => if c@.len() > 0 {
                    Some(Tree::Array(certificate_trees(c@)))
                } else {
                    None
                },
                None => None,
            },
        ) + optional(
            "withdrawals"@,
            match body.withdrawals {
                Some(w) => if w@.len() > 0 {
                    Some(Tree::Array(withdrawal_trees(w@)))
                } else {
                    None
                },
                None => None,
            },
        ) + optional(
            "script_data_hash"@,
            match body.script_data_hash {
                Some(h) => Some(hex_tree(h@)),
                None => None,
            },
        ) + optional(
            "collateral_return"@,
            match body.collateral_return {
                Some(o) => Some(output_tree(o)),
                None => None,
            },
        ) + optional_count("total_collateral"@, body.total_collateral),
    )
}

/// The document of the body of a transaction.
pub fn body_to_json(body: &TransactionBody) -> (r: QueryValue)
    ensures
        r@ == body_tree(*body),
{
    let mut members: Vec<(String, QueryValue)> = Vec::new();
    assert(members_view(members@) =~= Seq::<(Seq<char>, Tree)>::empty());
    put(&mut members, "inputs", inputs_to_json(&body.inputs));
    put(&mut members, "outputs", outputs_to_json(&body.outputs));
    put(&mut members, "fee", QueryValue::unsigned(body.fee));
    assert(members_view(members@) == seq![
        ("inputs"@, Tree::Array(input_trees(body.inputs@))),
        ("outputs"@, Tree::Array(output_trees(body.outputs@))),
        ("fee"@, count_tree(body.fee)),
    ]);
    put_count(&mut members, "ttl", body.ttl);
    put_count(&mut members, "validity_interval_start", body.validity_interval_start);
    let mint = match &body.mint {
        Some(m) => Some(mint_to_json(m)),
        None => None,
    };
    assert(option_tree(mint) == (match body.mint {
        Some(m) => Some(Tree::Array(mint_trees(m@))),
        None => None,
    }));
    put_optional(&mut members, "mint", mint);
    let collateral = match &body.collateral_inputs {
        Some(v) => Some(inputs_to_json(v)),
        None => None,
    };
    assert(option_tree(collateral) == (match body.collateral_inputs {
        Some(v) => Some(Tree::Array(input_trees(v@))),
        None => None,
    }));
    put_optional(&mut members, "collateral_inputs", collateral);
    let signers = match &body.required_signers {
        Some(v) => Some(hashes_to_json(v)),
        None => None,
    };
    assert(option_tree(signers) == (match body.required_signers {
        Some(r) => Some(Tree::Array(hex_trees(r@))),
        None => None,
    }));
    put_optional(&mut members, "required_signers", signers);
    put_count(&mut members, "network_id", body.network_id);
    let certs = match &body.certs {
        Some(c) => if c.len() > 0 {
            Some(certificates_to_json(c))
        } else {
            None
        },
        None => None,
    };
    assert(option_tree(certs) == (match body.certs {
        Some(c) => if c@.len() > 0 {
            Some(Tree::Array(certificate_trees(c@)))
        } else {
            None
        },
        None => None,
    }));
    put_optional(&mut members, "certs", certs);
    let withdrawals = match &body.withdrawals {
        Some(w) => if w.len() > 0 {
            Some(withdrawals_to_json(w))
        } else {
            None
        },
        None => None,
    };
    assert(option_tree(withdrawals) == (match body.withdrawals {
        Some(w) => if w@.len() > 0 {
            Some(Tree::Array(withdrawal_trees(w@)))
        } else {
            None
        },
        None => None,
    }));
    put_optional(&mut members, "withdrawals", withdrawals);
    let script_data_hash = match &body.script_data_hash {
        Some(h) => Some(hex_json(h)),
        None => None,
    };
    assert(option_tree(script_data_hash) == (match body.script_data_hash {
        Some(h) => Some(hex_tree(h@)),
        None => None,
    }));
    put_optional(&mut members, "script_data_hash", script_data_hash);
    let collateral_return = match &body.collateral_return {
        Some(o) => Some(output_to_json(o)),
        None => None,
    };
    assert(option_tree(collateral_return) == (match body.collateral_return {
        Some(o) => Some(output_tree(o)),
        None => None,
    }));
    put_optional(&mut members, "collateral_return", collateral_return);
    put_count(&mut members, "total_collateral", body.total_collateral);
    QueryValue::object(members)
}

/// The document of a transaction: hash, body, witnesses and validity, then
/// the auxiliary data where there is some.
pub open spec fn transaction_tree(tx: DecodedTransaction) -> Tree {
    Tree::Object(
        seq![
            ("hash"@, hex_tree(tx.hash@)),
            ("body"@, body_tree(tx.body)),
            ("witness_set"@, witness_tree(tx.witness_set)),
            ("is_valid"@, Tree::Bool(tx.is_valid)),
        ] + optional(
            "auxiliary_data"@,
            match tx.auxiliary_data {
                Some(aux) => Some(auxiliary_tree(aux)),
                None => None,
            },
        ),
    )
}

/// Convert a decoded transaction to a document for querying.
pub fn transaction_to_json(tx: &DecodedTransaction) -> (r: QueryValue)
    ensures
        r@ == transaction_tree(*tx),
{
    let mut members: Vec<(String, QueryValue)> = Vec::new();
    put(&mut members, "hash", hex_json(&tx.hash));
    put(&mut members, "body", body_to_json(&tx.body));
    put(&mut members, "witness_set", witness_set_to_json(&tx.witness_set));
    put(&mut members, "is_valid", QueryValue::Bool(tx.is_valid));
    if let Some(aux) = &tx.auxiliary_data {
        put(&mut members, "auxiliary_data", auxiliary_data_to_json(aux));
    }
    assert(members_view(members@) =~= transaction_tree(*tx)->Object_0);
    QueryValue::object(members)
}

} // verus!
