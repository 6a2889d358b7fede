//! A service registration and discovery layer over a lease-based,
//! strongly-consistent key-value coordination store.
//!
//! A registrar publishes a process's endpoints under a store lease that
//! expires unless refreshed; a discovery client keeps a live membership
//! map current from a stream of watch events and feeds a connection pool.

pub mod api;
pub mod codec;
pub mod config;
pub mod discovery;
pub mod errors;
pub mod ids;
pub mod instance;
pub mod jwt;
pub mod pool;
pub mod register;
pub mod rpc;
pub mod store;
