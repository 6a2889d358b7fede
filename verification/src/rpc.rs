//! Configuration of the user RPC service process.

use vstd::prelude::*;
use crate::config::{EtcdConfig, JwtConfig, MongoDbConfig, PostgresConfig, RedisConfig};

verus! {

/// The service's configuration.
#[derive(Debug, Clone)]
pub struct Config {
    pub name: String,
    pub listen_on: String,
    pub etcd: EtcdConfig,
    pub mongodb: MongoDbConfig,
    pub postgres: PostgresConfig,
    pub redis: RedisConfig,
    pub jwt: JwtConfig,
}

} // verus!
