//! Error types of the RPC layer, the bot core and the plugin system.
use vstd::prelude::*;

verus! {

/// `serde_json::Error`, carried as an opaque value.
#[verifier::external_type_specification]
#[verifier::external_body]
pub struct ExJsonError(serde_json::Error);

/// `std::io::Error`, carried as an opaque value.
#[verifier::external_type_specification]
#[verifier::external_body]
pub struct ExIoError(std::io::Error);

/// `mlua::Error`, carried as an opaque value.
#[verifier::external_type_specification]
#[verifier::external_body]
pub struct ExLuaError(mlua::Error);

/// RPC errors.
pub enum RpcError {
    ConnectionFailed(String),
    ConnectionLost,
    SerializationError(serde_json::Error),
    RpcError { code: i64, message: String },
    Timeout,
    InvalidResponse(String),
    IoError(std::io::Error),
}

/// Errors of the bot core.
pub enum BotError {
    Rpc(RpcError),
    CommandNotFound(String),
    PluginError(String),
    ConfigError(String),
    RateLimited,
    /// An internal failure, such as an unusable reply of the AI service.
    Internal(String),
}

/// Errors of the plugin system.
pub enum PluginError {
    LoadError { name: String, source: mlua::Error },
    ExecutionError { name: String, source: mlua::Error },
    DirectoryNotFound(String),
    MissingHandler(String),
    IoError(std::io::Error),
}

} // verus!
