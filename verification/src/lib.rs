//! A read-through caching gateway core: a RESP wire codec, a pipelined
//! connection state machine, a provider registry with backend adapters, and a
//! cache-fronted storage service with TTL and capacity-bounded eviction.

pub mod cache;
pub mod commands;
pub mod config;
pub mod connection;
pub mod database;
pub mod in_memory;
pub mod record;
pub mod redis_protocol;
pub mod sql;
pub mod storage;
pub mod text;
