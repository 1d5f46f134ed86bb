//! Metadata core of a distributed file store: a master that owns the
//! namespace and the placement of chunks on chunk servers.

pub mod chunk_id;
pub mod chunk_heartbeat;
pub mod chunk_manager;
pub mod chunk_server;
pub mod chunk_store;
pub mod client;
pub mod clock;
pub mod error;
pub mod file_node;
pub mod heartbeat_manager;
pub mod master_chunk_utils;
pub mod master_client_utils;
pub mod namespace_manager;
pub mod safe_map;
pub mod text;
pub mod user_store;
