//! The gateway-side helpers, the controller's phases, the filter, the
//! hex rendering, and the snapshot blob.
use reseller_test::api::{extract_request_body, get_node, process_api_response, update_api_key,
    AnthropicMessage, ApiKeyUpdate, ContentBlock, OpenAiMessage, RemoteApiMessage,
    RemoteApiProvider, RemoteApiRequest, RemoteApiResponse, Usage};
use reseller_test::control::{SyncController, SyncPhase};
use reseller_test::hex::hex_string;
use reseller_test::root_hash;
use reseller_test::state::ResellerState;
use std::collections::HashMap;

const ROOT: &str = "0x0000000000000000000000000000000000000000000000000000000000000000";
const H1: &str = "0x1111111111111111111111111111111111111111111111111111111111111111";

fn anthropic_request(body: &str) -> RemoteApiRequest {
    RemoteApiRequest {
        provider: RemoteApiProvider::Anthropic,
        endpoint: "https://api.anthropic.com/v1/messages".to_string(),
        headers: HashMap::new(),
        message: RemoteApiMessage::Anthropic(AnthropicMessage {
            endpoint: "https://api.anthropic.com/v1/messages".to_string(),
            headers: HashMap::new(),
            body: body.to_string(),
            content: "hello".to_string(),
        }),
    }
}

#[test]
fn request_body_comes_from_the_anthropic_message() {
    assert_eq!(extract_request_body(&anthropic_request("{\"x\":1}")), "{\"x\":1}");
}

#[test]
fn request_body_is_empty_for_other_messages() {
    let req = RemoteApiRequest {
        provider: RemoteApiProvider::OpenAi,
        endpoint: String::new(),
        headers: HashMap::new(),
        message: RemoteApiMessage::OpenAi(OpenAiMessage {
            role: "user".to_string(),
            content: "hi".to_string(),
        }),
    };
    assert_eq!(extract_request_body(&req), "");
}

#[test]
fn response_takes_the_first_content_block() {
    let resp = RemoteApiResponse {
        id: "1".to_string(),
        model: "m".to_string(),
        role: "assistant".to_string(),
        content: vec![
            ContentBlock { type_: "text".to_string(), text: "first".to_string() },
            ContentBlock { type_: "text".to_string(), text: "second".to_string() },
        ],
        stop_reason: None,
        usage: Usage { input_tokens: 1, output_tokens: 2 },
    };
    assert_eq!(process_api_response(&resp).unwrap().response, "first");
}

#[test]
fn empty_content_is_an_error() {
    let resp = RemoteApiResponse {
        id: "1".to_string(),
        model: "m".to_string(),
        role: "assistant".to_string(),
        content: vec![],
        stop_reason: None,
        usage: Usage { input_tokens: 0, output_tokens: 0 },
    };
    assert_eq!(
        process_api_response(&resp).unwrap_err(),
        "Remote API returned empty content"
    );
}

#[test]
fn get_node_finds_and_reports() {
    let mut state = ResellerState::new();
    state.add_mint(ROOT, H1.to_string(), "alice".to_string()).unwrap();
    let alice = get_node(&mut state, H1.to_string()).unwrap();
    assert_eq!(alice.name, "alice");
    let missing = get_node(&mut state, "0xdead".to_string());
    assert_eq!(missing.unwrap_err(), "Node not found for hash: 0xdead");
}

#[test]
fn anthropic_key_is_stored() {
    let mut state = ResellerState::new();
    let r = update_api_key(
        &mut state,
        ApiKeyUpdate { provider: RemoteApiProvider::Anthropic, key: "sk-test".to_string() },
    );
    assert_eq!(r.unwrap(), b"API key updated".to_vec());
    assert!(state.remote_api_keys.iter().any(|(k, v)| k == "anthropic" && v == "sk-test"));

    let r2 = update_api_key(
        &mut state,
        ApiKeyUpdate { provider: RemoteApiProvider::OpenAi, key: "sk-other".to_string() },
    );
    assert_eq!(r2.unwrap(), b"Unsupported provider".to_vec());
    assert_eq!(state.remote_api_keys.len(), 1);
}

#[test]
fn controller_retries_then_goes_live() {
    let mut c = SyncController::new();
    assert_eq!(c.phase, SyncPhase::Backfill);
    assert_eq!(c.on_fetch_failed(), 5);
    assert_eq!(c.phase, SyncPhase::Backfill);
    c.on_backfill_complete();
    assert_eq!(c.phase, SyncPhase::Live);
}

#[test]
fn filter_names_the_contract_and_events() {
    let f = ResellerState::make_filter();
    assert_eq!(f.address_hex, "0xcA92476B2483aBD5D82AEBF0b56701Bb2e9be658");
    assert_eq!(f.from_block, 123908000);
    assert!(f.to_latest);
    assert_eq!(
        f.event_signatures,
        vec![
            "Mint(bytes32,bytes32,bytes,bytes)".to_string(),
            "Note(bytes32,bytes32,bytes,bytes,bytes)".to_string(),
            "Fact(bytes32,bytes32,bytes,bytes,bytes)".to_string(),
        ]
    );
}

#[test]
fn root_hash_is_the_zero_hash() {
    assert_eq!(root_hash(), ROOT);
}

#[test]
fn hex_renders_lowercase_with_prefix() {
    assert_eq!(hex_string(&vec![0x00, 0xff, 0x1a]), "0x00ff1a");
    assert_eq!(hex_string(&vec![]), "0x");
}

#[test]
fn snapshot_starts_with_the_name_count() {
    let state = ResellerState::new();
    let blob = state.save();
    // One name entry: the empty name bound to the root hash.
    assert_eq!(&blob[0..8], &1u64.to_le_bytes());
    // The empty name: a zero-length string block.
    assert_eq!(&blob[8..16], &0u64.to_le_bytes());
    // The root hash: 66 UTF-8 bytes.
    assert_eq!(&blob[16..24], &66u64.to_le_bytes());
    assert_eq!(&blob[24..90], ROOT.as_bytes());
}

#[test]
fn snapshot_round_trips() {
    let mut state = ResellerState::new();
    state.add_mint(ROOT, H1.to_string(), "alice".to_string()).unwrap();
    state.add_note(H1, "bio".to_string(), b"a".to_vec()).unwrap();
    state.add_note(H1, "bio".to_string(), b"bb".to_vec()).unwrap();
    state.add_fact(H1, "owner".to_string(), b"x".to_vec()).unwrap();
    state.add_api_key("anthropic".to_string(), "sk-test".to_string());

    let blob = state.save();
    let restored = ResellerState::from_snapshot(&blob).expect("snapshot must parse");
    assert_eq!(restored.names, state.names);
    assert_eq!(restored.index, state.index);
    assert_eq!(restored.user_facing_api_keys, state.user_facing_api_keys);
    assert_eq!(restored.remote_api_keys, state.remote_api_keys);
}

#[test]
fn corrupt_snapshot_is_rejected() {
    let state = ResellerState::new();
    let blob = state.save();
    let mut truncated = blob.clone();
    truncated.pop();
    assert!(ResellerState::from_snapshot(&truncated).is_none());
    let mut padded = blob.clone();
    padded.push(0);
    assert!(ResellerState::from_snapshot(&padded).is_none());
}

#[test]
fn snapshot_changes_with_the_state() {
    let mut state = ResellerState::new();
    let before = state.save();
    assert_eq!(state.save(), before);
    state.add_mint(ROOT, H1.to_string(), "alice".to_string()).unwrap();
    assert_ne!(state.save(), before);
}
