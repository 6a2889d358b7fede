//! Keys, keepalive policy, configuration URLs, errors, identifiers and
//! token claims.

use svc_registry::config::{u64_to_dec, EtcdConfig, PostgresConfig, RedisConfig};
use svc_registry::errors::{kind_code, kind_for_message, Error, ErrorKind, RpcCode};
use svc_registry::ids::new_instance;
use svc_registry::instance::{check_prefix, instance_key, service_prefix};
use svc_registry::jwt::{Claims, EXPIRES, REFRESH_EXPIRES};
use svc_registry::register::{keepalive_step, KeepaliveAck, KeepaliveAction, KeepaliveConfig,
    KeepaliveState};

#[test]
fn keys_and_prefixes() {
    let key = instance_key("/lucasim/services", "user.rpc", "i-1");
    assert_eq!(key, String::from("/lucasim/services/user.rpc/i-1"));
    let prefix = service_prefix("/lucasim/services", "user.rpc");
    assert_eq!(prefix, String::from("/lucasim/services/user.rpc/"));
    assert!(check_prefix(&key, &prefix));
    assert!(!check_prefix(&instance_key("/lucasim/services", "user.rpc2", "i-1"), &prefix));
}

#[test]
fn keepalive_success_resets_retries() {
    let cfg = KeepaliveConfig { interval: 30, max_retry: 3 };
    let (state, action) =
        keepalive_step(&cfg, KeepaliveState { retries: 2 }, KeepaliveAck::Acked { ttl: 60 });
    assert_eq!(state.retries, 0);
    assert_eq!(action, KeepaliveAction::Continue);
}

#[test]
fn keepalive_failures_escalate_after_budget() {
    let cfg = KeepaliveConfig { interval: 30, max_retry: 3 };
    let mut state = KeepaliveState { retries: 0 };

    // A non-positive acknowledged ttl, a closed stream and a transport
    // error all count as failures.
    let (s1, a1) = keepalive_step(&cfg, state, KeepaliveAck::Acked { ttl: 0 });
    assert_eq!(a1, KeepaliveAction::Retry);
    state = s1;
    let (s2, a2) = keepalive_step(&cfg, state, KeepaliveAck::StreamClosed);
    assert_eq!(a2, KeepaliveAction::Retry);
    state = s2;
    let (s3, a3) = keepalive_step(&cfg, state, KeepaliveAck::StreamError);
    assert_eq!(a3, KeepaliveAction::Reregister);
    assert_eq!(s3.retries, 0);
}

#[test]
fn keepalive_zero_budget_escalates_at_once() {
    let cfg = KeepaliveConfig { interval: 30, max_retry: 0 };
    let (_, action) =
        keepalive_step(&cfg, KeepaliveState { retries: 0 }, KeepaliveAck::StreamClosed);
    assert_eq!(action, KeepaliveAction::Reregister);
}

#[test]
fn decimal_rendering() {
    assert_eq!(u64_to_dec(0), String::from("0"));
    assert_eq!(u64_to_dec(7), String::from("7"));
    assert_eq!(u64_to_dec(6379), String::from("6379"));
    assert_eq!(u64_to_dec(18446744073709551615), String::from("18446744073709551615"));
}

#[test]
fn config_urls() {
    let etcd = EtcdConfig {
        hosts: vec![String::from("192.168.0.103:2379"), String::from("h2:2379")],
        key: String::from("user.rpc"),
        scheme: String::from("http"),
    };
    assert_eq!(
        etcd.urls(),
        vec![String::from("http://192.168.0.103:2379"), String::from("http://h2:2379")]
    );

    let redis = RedisConfig { host: String::from("localhost"), port: 6379 };
    assert_eq!(redis.url(), String::from("redis://localhost:6379"));

    let pg = PostgresConfig {
        host: String::from("db"),
        port: 5432,
        user: String::from("u"),
        password: String::from("p"),
        database: String::from("im"),
    };
    assert_eq!(pg.url(), String::from("postgres://u:p@db:5432/im"));

    let pg_nopass = PostgresConfig {
        host: String::from("db"),
        port: 5432,
        user: String::from("u"),
        password: String::new(),
        database: String::from("im"),
    };
    assert_eq!(pg_nopass.url(), String::from("postgres://u@db:5432/im"));
}

#[test]
fn error_constructors_and_codes() {
    let e = Error::new(ErrorKind::DbError, String::from("boom"), String::from("db says no"));
    assert_eq!(e.kind, ErrorKind::DbError);
    assert_eq!(e.details, Some(String::from("boom")));
    assert_eq!(e.source, Some(String::from("db says no")));

    let e = Error::with_details(ErrorKind::NotFound, String::from("missing"));
    assert_eq!(e.kind, ErrorKind::NotFound);
    assert!(e.source.is_none());

    assert_eq!(Error::internal_with_details(String::new()).kind, ErrorKind::InternalError);
    assert_eq!(Error::invalid_code(String::new()).kind, ErrorKind::InvalidCode);
    assert_eq!(Error::invalid_account(String::new()).kind, ErrorKind::InvalidAccount);
    assert_eq!(Error::invalid_email(String::new()).kind, ErrorKind::InvalidEmail);
    assert_eq!(
        Error::invalid_account_or_password(String::new()).kind,
        ErrorKind::InvalidAccountOrPassword
    );

    assert_eq!(kind_code(ErrorKind::NotFound), RpcCode::NotFound);
    assert_eq!(kind_code(ErrorKind::UserNotFound), RpcCode::NotFound);
    assert_eq!(kind_code(ErrorKind::InvalidCode), RpcCode::InvalidArgument);
    assert_eq!(kind_code(ErrorKind::InvalidAccount), RpcCode::InvalidArgument);
    assert_eq!(kind_code(ErrorKind::InvalidEmail), RpcCode::InvalidArgument);
    assert_eq!(kind_code(ErrorKind::DbError), RpcCode::Internal);
    assert_eq!(kind_code(ErrorKind::RedisError), RpcCode::Internal);
    assert_eq!(kind_code(ErrorKind::InvalidAccountOrPassword), RpcCode::Internal);
    assert_eq!(kind_code(ErrorKind::Unknown), RpcCode::Internal);
    assert_eq!(kind_code(ErrorKind::InternalError), RpcCode::Internal);
}

#[test]
fn fresh_instance_ids() {
    let a = new_instance(
        String::from("user.rpc"),
        vec![String::from("10.0.0.1:9000")],
        String::from("0.1"),
        vec![],
    );
    let b = new_instance(String::from("user.rpc"), vec![], String::from("0.1"), vec![]);
    assert_eq!(a.id.len(), 21);
    assert_eq!(b.id.len(), 21);
    assert_ne!(a.id, b.id);
    assert_eq!(a.name, String::from("user.rpc"));
    assert_eq!(a.endpoints, vec![String::from("10.0.0.1:9000")]);
}

#[test]
fn token_claims() {
    let c = Claims::new(String::from("u-1"), 1_000_000);
    assert_eq!(c.iat, 1_000_000);
    assert_eq!(c.exp, 1_000_000 + EXPIRES);
    let r = c.refresh();
    assert_eq!(r.exp, c.exp + REFRESH_EXPIRES);
    assert_eq!(r.iat, c.iat);
    assert_eq!(r.user_id, String::from("u-1"));
}

#[test]
fn wire_message_kinds() {
    assert_eq!(kind_for_message("NotFound"), ErrorKind::NotFound);
    assert_eq!(kind_for_message("UnknownError"), ErrorKind::Unknown);
    assert_eq!(kind_for_message("anything else"), ErrorKind::InternalError);
    assert_eq!(kind_for_message(""), ErrorKind::InternalError);
}

#[test]
fn process_configurations() {
    let etcd = EtcdConfig {
        hosts: vec![String::from("127.0.0.1:2379")],
        key: String::from("user.rpc"),
        scheme: String::from("http"),
    };
    let jwt = svc_registry::config::JwtConfig {
        secret: String::from("test-signing-secret"),
        access_expire: 3600,
    };
    let api = svc_registry::api::Config {
        name: String::from("user-api"),
        listen_on: String::from("0.0.0.0:8080"),
        user_rpc: svc_registry::api::RpcConfig { etcd: etcd.clone() },
        jwt: jwt.clone(),
    };
    assert_eq!(api.user_rpc.etcd.key, String::from("user.rpc"));

    let rpc = svc_registry::rpc::Config {
        name: String::from("user-rpc"),
        listen_on: String::from("0.0.0.0:50051"),
        etcd,
        mongodb: svc_registry::config::MongoDbConfig {
            host: String::from("m"),
            port: 27017,
            user: String::from("u"),
            password: String::from("p"),
            database: String::from("d"),
        },
        postgres: svc_registry::config::PostgresConfig {
            host: String::from("db"),
            port: 5432,
            user: String::from("u"),
            password: String::from("p"),
            database: String::from("im"),
        },
        redis: svc_registry::config::RedisConfig { host: String::from("r"), port: 6379 },
        jwt,
    };
    assert_eq!(rpc.postgres.url(), String::from("postgres://u:p@db:5432/im"));
    assert_eq!(rpc.redis.url(), String::from("redis://r:6379"));
}
