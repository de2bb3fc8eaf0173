pub mod config;
pub mod text;
pub mod rate_limit;
pub mod commands;
pub mod error;
pub mod types;
pub mod rpc;
pub mod ai;
pub mod context;
pub mod lua_api;
pub mod plugins;
pub mod engine;
pub mod cli;
