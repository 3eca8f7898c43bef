//! Verified core of the dobby web server: configuration parsing, request
//! routing, argument marshalling for plugin calls, and the shared file cache.
pub mod text;
pub mod file_cache;
pub mod numbers;
pub mod hash;
pub mod shared_memory;
pub mod params;
pub mod config;
pub mod parser;
pub mod executor;
pub mod worker;
pub mod listener;
pub mod temperature;
pub mod server;
pub mod cache_log;
