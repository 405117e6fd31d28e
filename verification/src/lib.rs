pub mod str_map;
pub mod anycable;
pub mod json;
pub mod hub;
pub mod session;
pub mod server;
pub mod rpc_client;
pub mod redis_client;
