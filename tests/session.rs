use forgedbackup::config::{ClientInfo, ServerConfig};
use forgedbackup::fsas::KeyPair;
use forgedbackup::session::{
    archive_dir, archive_path, client_run_succeeded, handshake_order, trim_hostname, Exchange, Role,
    SessionError,
};
use forgedbackup::{Client, Mode, SubMode};

fn info(b: u8) -> ClientInfo {
    ClientInfo {
        keypair: KeyPair { signing_key: [b; 32], verifying_key: [b + 1; 32] },
        cipher_key: [b + 2; 32],
    }
}

#[test]
fn modes() {
    assert_eq!(Mode::try_from("s".to_string()), Ok(Mode::Server));
    assert_eq!(Mode::try_from("server".to_string()), Ok(Mode::Server));
    assert_eq!(Mode::try_from("c".to_string()), Ok(Mode::Client));
    assert_eq!(Mode::try_from("admin".to_string()), Ok(Mode::Admin));
    assert_eq!(Mode::try_from("x".to_string()), Err("Invalid mode".to_string()));
}

#[test]
fn submodes() {
    assert_eq!(SubMode::try_from("i".to_string()), Ok(SubMode::Init));
    assert_eq!(SubMode::try_from("start".to_string()), Ok(SubMode::Start));
    assert_eq!(SubMode::try_from("l".to_string()), Ok(SubMode::List));
    assert_eq!(SubMode::try_from("dc".to_string()), Ok(SubMode::Decompress));
    assert_eq!(SubMode::try_from("decompress".to_string()), Ok(SubMode::Decompress));
    assert_eq!(SubMode::try_from("d".to_string()), Err("Invalid submode".to_string()));
}

#[test]
fn hostname_trimming() {
    let mut raw = [0u8; 256];
    raw[..6].copy_from_slice(b"laptop");
    assert_eq!(trim_hostname(&raw), b"laptop");
    assert_eq!(trim_hostname(b"host"), b"host");
    assert_eq!(trim_hostname(&[0, 0]), b"");
}

#[test]
fn registry_lookup_and_replace() {
    let mut cfg = ServerConfig::new("127.0.0.1:9000".to_string(), "/srv".to_string());
    cfg.insert_client(Client { hostname: "alpha".to_string(), info: info(1) });
    cfg.insert_client(Client { hostname: "beta".to_string(), info: info(10) });
    cfg.insert_client(Client { hostname: "alpha".to_string(), info: info(20) });
    assert_eq!(cfg.client_infos.len(), 2);
    assert_eq!(cfg.find_client(&"alpha".to_string()).unwrap().cipher_key, [22u8; 32]);
    assert_eq!(cfg.find_client(&"beta".to_string()).unwrap().cipher_key, [12u8; 32]);
    assert!(cfg.find_client(&"gamma".to_string()).is_none());
    let mut raw = [0u8; 256];
    raw[..4].copy_from_slice(b"beta");
    assert_eq!(cfg.lookup_peer(&raw).unwrap().keypair.verifying_key, [11u8; 32]);
}

#[test]
fn unknown_host_is_rejected() {
    let mut cfg = ServerConfig::new("127.0.0.1:9000".to_string(), "/srv".to_string());
    cfg.insert_client(Client { hostname: "alpha".to_string(), info: info(1) });
    assert_eq!(cfg.lookup_peer(b"mallory").unwrap_err(), SessionError::UnknownHost);
    assert_eq!(cfg.lookup_peer(b"alph").unwrap_err(), SessionError::UnknownHost);
}

#[test]
fn archive_paths() {
    assert_eq!(archive_dir("/srv/backups", "laptop"), "/srv/backups/laptop");
    assert_eq!(
        archive_path("/srv/backups", "laptop", 1_700_000_000),
        "/srv/backups/laptop/1700000000.lz4"
    );
    assert_eq!(archive_path("b", "h", 0), "b/h/0.lz4");
    assert_eq!(archive_path("b", "h", u64::MAX), "b/h/18446744073709551615.lz4");
}

#[test]
fn client_run_outcome() {
    assert!(client_run_succeeded(&[false, true]));
    assert!(!client_run_succeeded(&[false, false]));
    assert!(!client_run_succeeded(&[]));
}

#[test]
fn handshake_orders() {
    assert_eq!(handshake_order(Role::Client), [Exchange::AnswerPeerChallenge, Exchange::ChallengePeer]);
    assert_eq!(handshake_order(Role::Server), [Exchange::ChallengePeer, Exchange::AnswerPeerChallenge]);
}
