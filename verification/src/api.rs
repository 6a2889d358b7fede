//! Configuration of the HTTP API gateway process.

use vstd::prelude::*;
use crate::config::{EtcdConfig, JwtConfig};

verus! {

/// The gateway's configuration.
#[derive(Debug, Clone)]
pub struct Config {
    pub name: String,
    pub listen_on: String,
    pub user_rpc: RpcConfig,
    pub jwt: JwtConfig,
}

/// How the gateway finds the user RPC service.
#[derive(Debug, Clone)]
pub struct RpcConfig {
    pub etcd: EtcdConfig,
}

} // verus!
