use forgedbackup::config::{client_settings, peer_keys, server_settings, ConfigDocument, ConfigError};
use forgedbackup::fsas::keypair_from_signing_key;
use forgedbackup::KeyError;

fn entry(k: &str, v: &str) -> (String, Option<String>) {
    (k.to_string(), Some(v.to_string()))
}

fn client_doc() -> ConfigDocument {
    ConfigDocument {
        entries: vec![
            entry("signing_keys_dir", "keys/sign"),
            entry("verifying_keys_dir", "keys/verify"),
            entry("cipher_keys_dir", "keys/aes"),
            entry("backed_up_dir", "/home/me"),
            entry("hostname", "laptop"),
            ("servers".to_string(), None),
        ],
        servers: Some(vec![entry("alpha", "10.0.0.1:9000"), entry("beta", "10.0.0.2:9000")]),
    }
}

#[test]
fn client_settings_read() {
    let s = client_settings(&client_doc()).unwrap();
    assert_eq!(s.hostname, "laptop");
    assert_eq!(s.backed_up_dir, "/home/me");
    assert_eq!(
        s.servers,
        vec![
            ("alpha".to_string(), "10.0.0.1:9000".to_string()),
            ("beta".to_string(), "10.0.0.2:9000".to_string())
        ]
    );
    assert_eq!(s.key_dirs.signing_key_path("alpha"), "keys/sign/alpha");
    assert_eq!(s.key_dirs.verifying_key_path("alpha"), "keys/verify/alpha.pub");
    assert_eq!(s.key_dirs.cipher_key_path("alpha"), "keys/aes/alpha.aes");
}

#[test]
fn client_settings_missing_keys() {
    let mut doc = client_doc();
    doc.entries.retain(|(k, _)| k != "hostname");
    assert_eq!(client_settings(&doc).unwrap_err(), ConfigError::Missing("hostname".to_string()));

    let mut doc = client_doc();
    doc.entries[0].1 = None;
    assert_eq!(client_settings(&doc).unwrap_err(), ConfigError::Missing("signing_keys_dir".to_string()));

    let mut doc = client_doc();
    doc.servers = None;
    assert_eq!(client_settings(&doc).unwrap_err(), ConfigError::Missing("servers".to_string()));
}

#[test]
fn client_settings_bad_server_address() {
    let mut doc = client_doc();
    doc.servers = Some(vec![entry("alpha", "10.0.0.1:9000"), ("beta".to_string(), None)]);
    assert_eq!(client_settings(&doc).unwrap_err(), ConfigError::BadServerAddress("beta".to_string()));
}

#[test]
fn server_settings_read() {
    let doc = ConfigDocument {
        entries: vec![
            entry("listening_on", "0.0.0.0:9000"),
            entry("signing_keys_dir", "s"),
            entry("verifying_keys_dir", "v"),
            entry("cipher_keys_dir", "c"),
            entry("backup_dir", "/srv"),
        ],
        servers: None,
    };
    let s = server_settings(&doc).unwrap();
    assert_eq!(s.listening_on, "0.0.0.0:9000");
    assert_eq!(s.backup_dir, "/srv");
    assert_eq!(s.key_dirs.cipher_keys_dir, "c");
    let empty = ConfigDocument { entries: vec![], servers: None };
    assert_eq!(server_settings(&empty).unwrap_err(), ConfigError::Missing("listening_on".to_string()));
}

#[test]
fn peer_key_files() {
    let kp = keypair_from_signing_key([9u8; 32]).unwrap();
    let name = "alpha".to_string();
    let info = peer_keys(&name, &kp.signing_key, &kp.verifying_key, &[1u8; 32]).unwrap();
    assert_eq!(info.keypair.verifying_key, kp.verifying_key);
    assert_eq!(info.cipher_key, [1u8; 32]);
    assert_eq!(
        peer_keys(&name, &kp.signing_key, &kp.verifying_key, &[1u8; 16]).unwrap_err(),
        ConfigError::BadKey(name.clone(), KeyError::InvalidLength)
    );
    let mut bad = [0u8; 32];
    bad[0] = 2;
    assert_eq!(
        peer_keys(&name, &kp.signing_key, &bad, &[1u8; 32]).unwrap_err(),
        ConfigError::BadKey(name.clone(), KeyError::InvalidKey)
    );
}
