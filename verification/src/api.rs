//! The gateway's message types — what a user sends, what the remote
//! provider answers — and the pure decisions made over them. The transport
//! that carries them is the caller's.
use vstd::prelude::*;
use vstd::string::{StrSliceExecFns, StringExecFns, StringSliceAdditionalSpecFns};
use std::collections::HashMap;
use crate::alists::{alist_get, alist_put, find_entry, lemma_alist_get_absent, lemma_alist_get_at,
    put_entry};
use crate::node::{Node, clone_node};
use crate::state::ResellerState;

verus! {

/// A packet sent from the user to the reseller.
#[derive(Debug, Clone)]
pub struct ResellerApiPacket {
    pub provider: RemoteApiProvider,
    pub message: String,
}

/// A packet sent from the reseller back to the user.
#[derive(Debug, Clone)]
pub struct ResellerApiResponse {
    pub response: String,
}

/// A response from the remote API.
#[derive(Debug, Clone)]
pub struct RemoteApiResponse {
    pub id: String,
    pub model: String,
    pub role: String,
    pub content: Vec<ContentBlock>,
    pub stop_reason: Option<String>,
    pub usage: Usage,
}

/// One block of a remote response's content.
#[derive(Debug, Clone)]
pub struct ContentBlock {
    pub type_: String,
    pub text: String,
}

/// Token accounting as the remote API reports it.
#[derive(Debug, Clone)]
pub struct Usage {
    pub input_tokens: u32,
    pub output_tokens: u32,
}

/// A request to the remote API.
#[derive(Debug, Clone)]
pub struct RemoteApiRequest {
    pub provider: RemoteApiProvider,
    pub endpoint: String,
    pub headers: HashMap<String, String>,
    pub message: RemoteApiMessage,
}

/// Which type of message to send to the remote API.
#[derive(Debug, Clone)]
pub enum RemoteApiMessage {
    OpenAi(OpenAiMessage),
    Anthropic(AnthropicMessage),
}

/// Which remote API provider to use.
#[derive(Debug, Clone)]
pub enum RemoteApiProvider {
    OpenAi,
    Anthropic,
}

/// A message to send to the OpenAI API.
#[derive(Debug, Clone)]
pub struct OpenAiMessage {
    pub role: String,
    pub content: String,
}

/// A message to send to the Anthropic API.
#[derive(Debug, Clone)]
pub struct AnthropicMessage {
    pub endpoint: String,
    pub headers: HashMap<String, String>,
    pub body: String,
    pub content: String,
}

/// Which provider an API key belongs to, and the key itself.
#[derive(Debug, Clone)]
pub struct ApiKeyUpdate {
    pub provider: RemoteApiProvider,
    pub key: String,
}

/// The request body that goes over the wire: an Anthropic message carries
/// one, anything else sends an empty body.
pub fn extract_request_body(remote_req: &RemoteApiRequest) -> (r: String)
    ensures
        match remote_req.message {
            RemoteApiMessage::Anthropic(ref msg) => r@ == msg.body@,
            _ => r@.len() == 0,
        },
{
    match &remote_req.message {
        RemoteApiMessage::Anthropic(msg) => msg.body.clone(),
        _ => String::new(),
    }
}

/// Turns a remote response into the user's: the text of the first content
/// block, or an error when the remote API returned none.
pub fn process_api_response(resp: &RemoteApiResponse) -> (r: Result<ResellerApiResponse, String>)
    ensures
        resp.content@.len() == 0 ==> (r matches Err(e) && e@
            == "Remote API returned empty content"@),
        resp.content@.len() > 0 ==> (r matches Ok(ok) && ok.response@ == resp.content@[0].text@),
{
    if resp.content.len() == 0 {
        return Err(String::from_str("Remote API returned empty content"));
    }
    Ok(ResellerApiResponse { response: resp.content[0].text.clone() })
}

/// Looks a node up by its namehash: a copy of the node, or an error naming
/// the hash. The state is read, never changed.
pub fn get_node(state: &mut ResellerState, name_hash: String) -> (r: Result<Node, String>)
    ensures
        final(state)@ == old(state)@,
        match alist_get(old(state)@.index, name_hash@) {
            Option::Some(n) => r matches Ok(found) && found@ == n,
            Option::None => r matches Err(e) && e@ == "Node not found for hash: "@ + name_hash@,
        },
{
    match find_entry(&state.index, name_hash.as_str()) {
        Option::Some(i) => {
            proof {
                lemma_alist_get_at(state@.index, name_hash@, i as int);
            }
            Ok(clone_node(&state.index[i].1))
        },
        Option::None => {
            proof {
                lemma_alist_get_absent(state@.index, name_hash@);
            }
            let mut msg = String::from_str("Node not found for hash: ");
            msg.append(name_hash.as_str());
            Err(msg)
        },
    }
}

/// Applies an API-key update: an Anthropic key replaces the stored
/// `anthropic` entry; any other provider is answered without a change.
pub fn update_api_key(state: &mut ResellerState, update: ApiKeyUpdate) -> (r: Result<
    Vec<u8>,
    String,
>)
    requires
        old(state).wf(),
    ensures
        final(state).wf(),
        match update.provider {
            RemoteApiProvider::Anthropic => {
                &&& final(state)@.remote_api_keys == alist_put(
                    old(state)@.remote_api_keys,
                    "anthropic"@,
                    update.key@,
                )
                &&& final(state)@.index == old(state)@.index
                &&& final(state)@.names == old(state)@.names
                &&& final(state)@.user_facing_api_keys == old(state)@.user_facing_api_keys
                &&& r matches Ok(b) && b@ == "API key updated".spec_bytes()
            },
            _ => final(state)@ == old(state)@ && (r matches Ok(b) && b@
                == "Unsupported provider".spec_bytes()),
        },
{
    match update.provider {
        RemoteApiProvider::Anthropic => {
            state.add_api_key(String::from_str("anthropic"), update.key);
            Ok("API key updated".as_bytes_vec())
        },
        _ => Ok("Unsupported provider".as_bytes_vec()),
    }
}

impl ResellerState {
    /// Stores one remote API key under its provider's name, replacing any
    /// key that name held.
    pub fn add_api_key(&mut self, key: String, value: String)
        requires
            old(self).wf(),
        ensures
            final(self).wf(),
            final(self)@.remote_api_keys == alist_put(
                old(self)@.remote_api_keys,
                key@,
                value@,
            ),
            final(self)@.index == old(self)@.index,
            final(self)@.names == old(self)@.names,
            final(self)@.user_facing_api_keys == old(self)@.user_facing_api_keys,
    {
        put_entry(&mut self.remote_api_keys, key, value);
    }
}

} // verus!
