//! The data that the signal-cli JSON-RPC daemon sends and receives.
use vstd::prelude::*;

verus! {

/// `serde_json::Value`, carried as an opaque value.
#[verifier::external_type_specification]
#[verifier::external_body]
pub struct ExJsonValue(serde_json::Value);

/// JSON-RPC request
pub struct JsonRpcRequest {
    pub jsonrpc: String,
    pub id: Option<u64>,
    pub method: String,
    pub params: Option<serde_json::Value>,
}

/// JSON-RPC response
pub struct JsonRpcResponse {
    pub jsonrpc: String,
    pub id: Option<u64>,
    pub result: Option<serde_json::Value>,
    pub error: Option<JsonRpcError>,
}

pub struct JsonRpcError {
    pub code: i64,
    pub message: String,
    pub data: Option<serde_json::Value>,
}

/// Incoming envelope from signal-cli
pub struct Envelope {
    pub source: Option<String>,
    pub source_uuid: Option<String>,
    pub source_name: Option<String>,
    pub timestamp: Option<u64>,
    pub data_message: Option<DataMessage>,
    pub sync_message: Option<SyncMessage>,
    pub receipt_message: Option<serde_json::Value>,
    pub typing_message: Option<serde_json::Value>,
}

pub struct DataMessage {
    pub message: Option<String>,
    pub timestamp: Option<u64>,
    pub group_info: Option<GroupInfo>,
    pub attachments: Option<Vec<Attachment>>,
    pub reaction: Option<Reaction>,
    pub quote: Option<Quote>,
    pub mentions: Option<Vec<Mention>>,
    pub expires_in_seconds: Option<u64>,
}

pub struct SyncMessage {
    pub sent_message: Option<SentMessage>,
}

pub struct SentMessage {
    pub destination: Option<String>,
    pub destination_uuid: Option<String>,
    pub timestamp: Option<u64>,
    pub message: Option<String>,
    pub group_info: Option<GroupInfo>,
}

/// The group a message belongs to. `group_type` is the JSON field `type`.
pub struct GroupInfo {
    pub group_id: String,
    pub group_type: Option<String>,
}

pub struct Attachment {
    pub content_type: Option<String>,
    pub filename: Option<String>,
    pub id: Option<String>,
    pub size: Option<u64>,
}

pub struct Reaction {
    pub emoji: String,
    pub target_author: Option<String>,
    pub target_sent_timestamp: Option<u64>,
    pub is_remove: Option<bool>,
}

pub struct Quote {
    pub id: Option<u64>,
    pub author: Option<String>,
    pub text: Option<String>,
}

pub struct Mention {
    pub start: Option<u32>,
    pub length: Option<u32>,
    pub uuid: Option<String>,
}

/// Group info returned by listGroups
pub struct Group {
    pub id: String,
    pub name: Option<String>,
    pub description: Option<String>,
    pub is_member: Option<bool>,
    pub is_admin: Option<bool>,
    pub members: Option<Vec<GroupMember>>,
}

pub struct GroupMember {
    pub uuid: String,
    pub number: Option<String>,
}

/// Contact info
pub struct Contact {
    pub uuid: Option<String>,
    pub number: Option<String>,
    pub name: Option<String>,
    pub profile_name: Option<String>,
}

/// Result of sending a message
pub struct SendResult {
    pub timestamp: Option<u64>,
}

} // verus!
