//! Peer registries: what each end knows of the other ends.
use vstd::prelude::*;

use crate::fdgse::CipherKey;
use crate::fdgse::read_key;
use crate::fsas::{read_signing_key, read_verifying_key, KeyPair};
use crate::{Client, KeyError};

verus! {

/// A server that a client backs up to.
#[derive(Debug)]
pub struct ServerInfo {
    pub hostname: String,
    /// The server's socket address, as written in the configuration.
    pub addr: String,
    pub keypair: KeyPair,
    pub cipher_key: CipherKey,
}

/// A client's configuration: the servers, in order, its own name and the
/// directory it backs up.
#[derive(Debug)]
pub struct ClientConfig {
    pub servers: Vec<ServerInfo>,
    pub hostname: String,
    pub backed_up_dir: String,
}

/// What a server knows of one client.
#[derive(Debug, Clone, Copy)]
pub struct ClientInfo {
    pub keypair: KeyPair,
    pub cipher_key: CipherKey,
}

/// A server's configuration: where it listens, the clients it accepts (one
/// entry per hostname) and where archives go.
#[derive(Debug)]
pub struct ServerConfig {
    pub listening_socker_addr: String,
    pub client_infos: Vec<Client>,
    pub backup_dir: String,
}

/// No two clients share a hostname.
pub open spec fn hostnames_unique(cs: Seq<Client>) -> bool {
    forall|i: int, j: int|
        0 <= i < cs.len() && 0 <= j < cs.len() && #[trigger] cs[i].hostname@
            == #[trigger] cs[j].hostname@ ==> i == j
}

/// The registry as a map from hostname to what is known of that client.
pub open spec fn registry_of(cs: Seq<Client>) -> Map<Seq<char>, ClientInfo>
    decreases cs.len(),
{
    if cs.len() == 0 {
        Map::empty()
    } else {
        registry_of(cs.drop_last()).insert(cs.last().hostname@, cs.last().info)
    }
}

proof fn lemma_registry_find(cs: Seq<Client>, name: Seq<char>)
    requires
        hostnames_unique(cs),
    ensures
        registry_of(cs).contains_key(name) <==> exists|i: int|
            0 <= i < cs.len() && #[trigger] cs[i].hostname@ == name,
        forall|i: int|
            0 <= i < cs.len() && #[trigger] cs[i].hostname@ == name ==> registry_of(cs)[name]
                == cs[i].info,
    decreases cs.len(),
{
    if cs.len() > 0 {
        let init = cs.drop_last();
        assert(hostnames_unique(init)) by {
            assert forall|i: int, j: int|
                0 <= i < init.len() && 0 <= j < init.len() && #[trigger] init[i].hostname@
                    == #[trigger] init[j].hostname@ implies i == j by {
                assert(init[i] == cs[i] && init[j] == cs[j]);
                assert(cs[i].hostname@ == cs[j].hostname@);
            }
        }
        lemma_registry_find(init, name);
        if registry_of(init).contains_key(name) {
            let i = choose|i: int| 0 <= i < init.len() && #[trigger] init[i].hostname@ == name;
            assert(cs[i] == init[i]);
        }
        assert forall|i: int| 0 <= i < cs.len() && #[trigger] cs[i].hostname@ == name implies registry_of(
            cs,
        )[name] == cs[i].info by {
            if i < cs.len() - 1 {
                assert(cs[i] == init[i]);
                assert(cs.last().hostname@ != name) by {
                    assert(cs[cs.len() - 1].hostname@ == cs[i].hostname@ ==> cs.len() - 1 == i);
                }
            }
        }
        if exists|i: int| 0 <= i < cs.len() && #[trigger] cs[i].hostname@ == name {
            let i = choose|i: int| 0 <= i < cs.len() && #[trigger] cs[i].hostname@ == name;
            if i < cs.len() - 1 {
                assert(init[i] == cs[i]);
            }
        }
    }
}

impl ServerConfig {
    /// A well-formed configuration has one entry per hostname.
    pub open spec fn wf(&self) -> bool {
        hostnames_unique(self.client_infos@)
    }

    /// The clients, by hostname.
    pub open spec fn registry(&self) -> Map<Seq<char>, ClientInfo> {
        registry_of(self.client_infos@)
    }

    /// A configuration that accepts no client yet.
    pub fn new(listening_socker_addr: String, backup_dir: String) -> (r: ServerConfig)
        ensures
            r.wf(),
            r.registry() == Map::<Seq<char>, ClientInfo>::empty(),
            r.listening_socker_addr == listening_socker_addr,
            r.backup_dir == backup_dir,
    {
        ServerConfig { listening_socker_addr, client_infos: Vec::new(), backup_dir }
    }

    /// What is known of the client named `hostname`, if it is known.
    pub fn find_client(&self, hostname: &String) -> (r: Option<ClientInfo>)
        requires
            self.wf(),
        ensures
            match r {
                Some(info) => self.registry().contains_key(hostname@) && self.registry()[hostname@]
                    == info,
                None => !self.registry().contains_key(hostname@),
            },
    {
        let mut i: usize = 0;
        while i < self.client_infos.len()
            invariant
                self.wf(),
                i <= self.client_infos@.len(),
                forall|j: int| 0 <= j < i ==> #[trigger] self.client_infos@[j].hostname@ != hostname@,
            decreases self.client_infos@.len() - i,
        {
            if self.client_infos[i].hostname == *hostname {
                proof {
                    lemma_registry_find(self.client_infos@, hostname@);
                    assert(self.client_infos@[i as int].hostname@ == hostname@);
                }
                return Some(self.client_infos[i].info);
            }
            i = i + 1;
        }
        proof {
            lemma_registry_find(self.client_infos@, hostname@);
        }
        None
    }

    /// Records a client; an earlier entry under the same hostname is
    /// replaced.
    pub fn insert_client(&mut self, client: Client)
        requires
            old(self).wf(),
        ensures
            final(self).wf(),
            final(self).registry() == old(self).registry().insert(client.hostname@, client.info),
            final(self).listening_socker_addr == old(self).listening_socker_addr,
            final(self).backup_dir == old(self).backup_dir,
    {
        let ghost old_cs = self.client_infos@;
        let mut kept: Vec<Client> = Vec::new();
        let mut i: usize = 0;
        while i < self.client_infos.len()
            invariant
                i <= old_cs.len(),
                self.client_infos@ == old_cs,
                hostnames_unique(old_cs),
                hostnames_unique(kept@),
                forall|j: int| 0 <= j < kept@.len() ==> #[trigger] kept@[j].hostname@ != client.hostname@,
                registry_of(kept@) == registry_of(old_cs.subrange(0, i as int)).remove(client.hostname@),
            decreases old_cs.len() - i,
        {
            let c = &self.client_infos[i];
            let ghost pre = old_cs.subrange(0, i as int);
            assert(old_cs.subrange(0, i + 1) =~= pre.push(old_cs[i as int]));
            assert(old_cs.subrange(0, i + 1).drop_last() =~= pre);
            if c.hostname != client.hostname {
                let ghost kb = kept@;
                proof {
                    assert(hostnames_unique(pre)) by {
                        assert forall|a: int, b: int|
                            0 <= a < pre.len() && 0 <= b < pre.len() && #[trigger] pre[a].hostname@
                                == #[trigger] pre[b].hostname@ implies a == b by {
                            assert(pre[a] == old_cs[a] && pre[b] == old_cs[b]);
                        }
                    }
                    lemma_registry_find(pre, c.hostname@);
                    lemma_registry_find(kb, c.hostname@);
                    if registry_of(pre).contains_key(c.hostname@) {
                        let k = choose|k: int| 0 <= k < pre.len() && #[trigger] pre[k].hostname@ == c.hostname@;
                        assert(old_cs[k] == pre[k]);
                        assert(old_cs[i as int].hostname@ == c.hostname@);
                    }
                    assert(!registry_of(kb).contains_key(c.hostname@));
                }
                let c2 = Client { hostname: c.hostname.clone(), info: c.info };
                assert(c2.hostname@ != client.hostname@);
                kept.push(c2);
                assert forall|j: int| 0 <= j < kept@.len() implies #[trigger] kept@[j].hostname@
                    != client.hostname@ by {
                    if j < kept@.len() - 1 {
                        assert(kept@[j] == kb[j]);
                    }
                }
                assert(kept@.drop_last() =~= kb);
                assert(hostnames_unique(kept@)) by {
                    assert forall|a: int, b: int|
                        0 <= a < kept@.len() && 0 <= b < kept@.len() && #[trigger] kept@[a].hostname@
                            == #[trigger] kept@[b].hostname@ implies a == b by {
                        let last = kept@.len() - 1;
                        assert(kept@[last].hostname@ == c.hostname@);
                        if a < last && b == last {
                            assert(kept@[a] == kb[a]);
                            assert(kb[a].hostname@ == c.hostname@);
                        } else if b < last && a == last {
                            assert(kept@[b] == kb[b]);
                            assert(kb[b].hostname@ == c.hostname@);
                        } else if a < last && b < last {
                            assert(kept@[a] == kb[a] && kept@[b] == kb[b]);
                            assert(kb[a].hostname@ == kb[b].hostname@);
                        }
                    }
                }
                assert(registry_of(kept@) =~= registry_of(old_cs.subrange(0, i + 1)).remove(
                    client.hostname@,
                ));
            } else {
                assert(registry_of(kept@) =~= registry_of(old_cs.subrange(0, i + 1)).remove(
                    client.hostname@,
                ));
            }
            i = i + 1;
        }
        let ghost kb = kept@;
        let ghost name = client.hostname@;
        assert(forall|j: int| 0 <= j < kb.len() ==> #[trigger] kb[j].hostname@ != name);
        kept.push(client);
        proof {
            assert(kept@.drop_last() =~= kb);
            assert(old_cs.subrange(0, old_cs.len() as int) =~= old_cs);
            assert(registry_of(kept@) =~= registry_of(old_cs).insert(
                kept@.last().hostname@,
                kept@.last().info,
            ));
            assert(hostnames_unique(kept@)) by {
                assert forall|a: int, b: int|
                    0 <= a < kept@.len() && 0 <= b < kept@.len() && #[trigger] kept@[a].hostname@
                        == #[trigger] kept@[b].hostname@ implies a == b by {
                    let last = kept@.len() - 1;
                    assert(kept@[last].hostname@ == name);
                    if a < last {
                        assert(kept@[a] == kb[a]);
                        assert(kb[a].hostname@ != name);
                    }
                    if b < last {
                        assert(kept@[b] == kb[b]);
                        assert(kb[b].hostname@ != name);
                    }
                    if a < last && b < last {
                        assert(kb[a].hostname@ == kb[b].hostname@);
                    }
                }
            }
        }
        self.client_infos = kept;
    }
}


/// A configuration document as plain values: each key of its top-level table
/// with its value when that value is a string, and, when it has a `servers`
/// table, each server name with its address when that is a string, in order.
#[derive(Debug)]
pub struct ConfigDocument {
    pub entries: Vec<(String, Option<String>)>,
    pub servers: Option<Vec<(String, Option<String>)>>,
}

/// Why a configuration was refused.
#[derive(PartialEq, Eq, Debug)]
pub enum ConfigError {
    /// The named key is missing, or its value is not a string.
    Missing(String),
    /// The named server's address is not a string.
    BadServerAddress(String),
    /// A key file of the named peer is refused.
    BadKey(String, KeyError),
}

/// The string value of the first entry under `key`, if it is a string.
pub open spec fn entry_value(entries: Seq<(String, Option<String>)>, key: Seq<char>) -> Option<
    Seq<char>,
>
    decreases entries.len(),
{
    if entries.len() == 0 {
        None
    } else if entries[0].0@ == key {
        match entries[0].1 {
            Some(v) => Some(v@),
            None => None,
        }
    } else {
        entry_value(entries.drop_first(), key)
    }
}

/// The string value of the entry under `key`.
pub fn lookup_entry(entries: &Vec<(String, Option<String>)>, key: &str) -> (r: Option<String>)
    ensures
        match r {
            Some(v) => entry_value(entries@, key@) == Some(v@),
            None => entry_value(entries@, key@) is None,
        },
{
    let wanted = String::from_str(key);
    let mut i: usize = 0;
    assert(entries@.subrange(0, entries@.len() as int) =~= entries@);
    while i < entries.len()
        invariant
            wanted@ == key@,
            i <= entries@.len(),
            entry_value(entries@, key@) == entry_value(entries@.subrange(i as int, entries@.len() as int), key@),
        decreases entries@.len() - i,
    {
        let ghost rest = entries@.subrange(i as int, entries@.len() as int);
        assert(rest.drop_first() =~= entries@.subrange(i + 1, entries@.len() as int));
        assert(rest[0] == entries@[i as int]);
        if entries[i].0 == wanted {
            match &entries[i].1 {
                Some(v) => {
                    return Some(v.clone());
                },
                None => {
                    return None;
                },
            }
        }
        i = i + 1;
    }
    None
}


/// The value of a required entry.
fn required(entries: &Vec<(String, Option<String>)>, key: &str) -> (r: Result<String, ConfigError>)
    ensures
        match r {
            Ok(v) => entry_value(entries@, key@) == Some(v@),
            Err(ConfigError::Missing(k)) => entry_value(entries@, key@) is None && k@ == key@,
            Err(_) => false,
        },
{
    match lookup_entry(entries, key) {
        Some(v) => Ok(v),
        None => Err(ConfigError::Missing(String::from_str(key))),
    }
}

/// Where the key files of the peers are.
#[derive(Debug)]
pub struct KeyDirs {
    pub signing_keys_dir: String,
    pub verifying_keys_dir: String,
    pub cipher_keys_dir: String,
}

/// `{dir}/{name}{suffix}`.
pub open spec fn key_path_of(dir: Seq<char>, name: Seq<char>, suffix: Seq<char>) -> Seq<char> {
    dir + seq!['/'] + name + suffix
}

impl KeyDirs {
    /// The key directories a document names.
    pub fn from_entries(entries: &Vec<(String, Option<String>)>) -> (r: Result<KeyDirs, ConfigError>)
        ensures
            match r {
                Ok(d) => entry_value(entries@, "signing_keys_dir"@) == Some(d.signing_keys_dir@)
                    && entry_value(entries@, "verifying_keys_dir"@) == Some(d.verifying_keys_dir@)
                    && entry_value(entries@, "cipher_keys_dir"@) == Some(d.cipher_keys_dir@),
                Err(ConfigError::Missing(k)) => entry_value(entries@, k@) is None && (k@
                    == "signing_keys_dir"@ || k@ == "verifying_keys_dir"@ || k@
                    == "cipher_keys_dir"@),
                Err(_) => false,
            },
    {
        let signing_keys_dir = required(entries, "signing_keys_dir")?;
        let verifying_keys_dir = required(entries, "verifying_keys_dir")?;
        let cipher_keys_dir = required(entries, "cipher_keys_dir")?;
        Ok(KeyDirs { signing_keys_dir, verifying_keys_dir, cipher_keys_dir })
    }

    /// `{signing_keys_dir}/{name}`: the secret key used with peer `name`.
    pub fn signing_key_path(&self, name: &str) -> (r: String)
        ensures
            r@ == key_path_of(self.signing_keys_dir@, name@, Seq::empty()),
    {
        let mut p = self.signing_keys_dir.clone();
        p.append("/");
        p.append(name);
        proof {
            reveal_strlit("/");
        }
        assert(p@ =~= key_path_of(self.signing_keys_dir@, name@, Seq::empty()));
        p
    }

    /// `{verifying_keys_dir}/{name}.pub`: the public key of peer `name`.
    pub fn verifying_key_path(&self, name: &str) -> (r: String)
        ensures
            r@ == key_path_of(self.verifying_keys_dir@, name@, seq!['.', 'p', 'u', 'b']),
    {
        let mut p = self.verifying_keys_dir.clone();
        p.append("/");
        p.append(name);
        p.append(".pub");
        proof {
            reveal_strlit("/");
            reveal_strlit(".pub");
        }
        assert(p@ =~= key_path_of(self.verifying_keys_dir@, name@, seq!['.', 'p', 'u', 'b']));
        p
    }

    /// `{cipher_keys_dir}/{name}.aes`: the cipher key shared with peer `name`.
    pub fn cipher_key_path(&self, name: &str) -> (r: String)
        ensures
            r@ == key_path_of(self.cipher_keys_dir@, name@, seq!['.', 'a', 'e', 's']),
    {
        let mut p = self.cipher_keys_dir.clone();
        p.append("/");
        p.append(name);
        p.append(".aes");
        proof {
            reveal_strlit("/");
            reveal_strlit(".aes");
        }
        assert(p@ =~= key_path_of(self.cipher_keys_dir@, name@, seq!['.', 'a', 'e', 's']));
        p
    }
}

/// The keys of one peer, from the contents of its three key files.
pub fn peer_keys(name: &String, signing: &[u8], verifying: &[u8], cipher: &[u8]) -> (r: Result<
    ClientInfo,
    ConfigError,
>)
    ensures
        match r {
            Ok(info) => info.keypair.signing_key@ == signing@ && info.keypair.verifying_key@
                == verifying@ && info.cipher_key@ == cipher@ && signing@.len() == 32
                && verifying@.len() == 32 && crate::fsas::key_weakness(verifying@) is Some
                && cipher@.len() == 32,
            Err(ConfigError::BadKey(n, _)) => n@ == name@ && !(signing@.len() == 32
                && verifying@.len() == 32 && crate::fsas::key_weakness(verifying@) is Some
                && cipher@.len() == 32),
            Err(_) => false,
        },
{
    let signing_key = match read_signing_key(signing) {
        Ok(k) => k,
        Err(e) => {
            return Err(ConfigError::BadKey(name.clone(), e));
        },
    };
    let verifying_key = match read_verifying_key(verifying) {
        Ok(k) => k,
        Err(e) => {
            return Err(ConfigError::BadKey(name.clone(), e));
        },
    };
    let cipher_key = match read_key(cipher) {
        Ok(k) => k,
        Err(e) => {
            return Err(ConfigError::BadKey(name.clone(), e));
        },
    };
    Ok(ClientInfo { keypair: KeyPair { signing_key, verifying_key }, cipher_key })
}

/// The settings of a client: key directories, the directory to back up, its
/// own hostname and the servers (name and address) in order.
#[derive(Debug)]
pub struct ClientSettings {
    pub key_dirs: KeyDirs,
    pub backed_up_dir: String,
    pub hostname: String,
    pub servers: Vec<(String, String)>,
}

/// The settings of a server: key directories, where it listens and where
/// archives go.
#[derive(Debug)]
pub struct ServerSettings {
    pub key_dirs: KeyDirs,
    pub listening_on: String,
    pub backup_dir: String,
}

/// Each server has a string address, kept with its name in order.
pub open spec fn servers_match(doc: Seq<(String, Option<String>)>, out: Seq<(String, String)>) -> bool {
    &&& doc.len() == out.len()
    &&& forall|i: int|
        0 <= i < doc.len() ==> (#[trigger] out[i]).0@ == doc[i].0@ && (doc[i].1 matches Some(a)
            && a@ == out[i].1@)
}

fn server_list(servers: &Vec<(String, Option<String>)>) -> (r: Result<Vec<(String, String)>, ConfigError>)
    ensures
        match r {
            Ok(out) => servers_match(servers@, out@),
            Err(ConfigError::BadServerAddress(n)) => exists|i: int|
                0 <= i < servers@.len() && (#[trigger] servers@[i]).0@ == n@ && servers@[i].1 is None,
            Err(_) => false,
        },
{
    let mut out: Vec<(String, String)> = Vec::new();
    let mut i: usize = 0;
    while i < servers.len()
        invariant
            i <= servers@.len(),
            servers_match(servers@.subrange(0, i as int), out@),
        decreases servers@.len() - i,
    {
        let name = servers[i].0.clone();
        match &servers[i].1 {
            Some(addr) => {
                let ghost before = out@;
                out.push((name, addr.clone()));
                assert(servers_match(servers@.subrange(0, i + 1), out@)) by {
                    assert forall|j: int| 0 <= j < i + 1 implies (#[trigger] out@[j]).0@
                        == servers@.subrange(0, i + 1)[j].0@ && (servers@.subrange(0, i + 1)[j].1 matches Some(a)
                        && a@ == out@[j].1@) by {
                        if j < i {
                            assert(out@[j] == before[j]);
                            assert(servers@.subrange(0, i as int)[j] == servers@[j]);
                        }
                    }
                }
            },
            None => {
                assert(servers@[i as int].0@ == name@);
                return Err(ConfigError::BadServerAddress(name));
            },
        }
        i = i + 1;
    }
    assert(servers@.subrange(0, servers@.len() as int) =~= servers@);
    Ok(out)
}

/// A client's settings from its configuration document.
pub fn client_settings(doc: &ConfigDocument) -> (r: Result<ClientSettings, ConfigError>)
    ensures
        match r {
            Ok(s) => entry_value(doc.entries@, "signing_keys_dir"@) == Some(s.key_dirs.signing_keys_dir@)
                && entry_value(doc.entries@, "verifying_keys_dir"@) == Some(s.key_dirs.verifying_keys_dir@)
                && entry_value(doc.entries@, "cipher_keys_dir"@) == Some(s.key_dirs.cipher_keys_dir@)
                && entry_value(doc.entries@, "backed_up_dir"@) == Some(s.backed_up_dir@)
                && entry_value(doc.entries@, "hostname"@) == Some(s.hostname@)
                && (doc.servers matches Some(sv) && servers_match(sv@, s.servers@)),
            Err(ConfigError::Missing(k)) => (entry_value(doc.entries@, k@) is None && (k@
                == "signing_keys_dir"@ || k@ == "verifying_keys_dir"@ || k@ == "cipher_keys_dir"@
                || k@ == "backed_up_dir"@ || k@ == "hostname"@)) || (k@ == "servers"@
                && doc.servers is None),
            Err(ConfigError::BadServerAddress(n)) => doc.servers matches Some(sv) && exists|i: int|
                0 <= i < sv@.len() && (#[trigger] sv@[i]).0@ == n@ && sv@[i].1 is None,
            Err(_) => false,
        },
{
    let key_dirs = KeyDirs::from_entries(&doc.entries)?;
    let backed_up_dir = required(&doc.entries, "backed_up_dir")?;
    let servers = match &doc.servers {
        Some(sv) => server_list(sv)?,
        None => {
            return Err(ConfigError::Missing(String::from_str("servers")));
        },
    };
    let hostname = required(&doc.entries, "hostname")?;
    Ok(ClientSettings { key_dirs, backed_up_dir, hostname, servers })
}

/// A server's settings from its configuration document.
pub fn server_settings(doc: &ConfigDocument) -> (r: Result<ServerSettings, ConfigError>)
    ensures
        match r {
            Ok(s) => entry_value(doc.entries@, "signing_keys_dir"@) == Some(s.key_dirs.signing_keys_dir@)
                && entry_value(doc.entries@, "verifying_keys_dir"@) == Some(s.key_dirs.verifying_keys_dir@)
                && entry_value(doc.entries@, "cipher_keys_dir"@) == Some(s.key_dirs.cipher_keys_dir@)
                && entry_value(doc.entries@, "listening_on"@) == Some(s.listening_on@)
                && entry_value(doc.entries@, "backup_dir"@) == Some(s.backup_dir@),
            Err(ConfigError::Missing(k)) => entry_value(doc.entries@, k@) is None && (k@
                == "signing_keys_dir"@ || k@ == "verifying_keys_dir"@ || k@ == "cipher_keys_dir"@
                || k@ == "listening_on"@ || k@ == "backup_dir"@),
            Err(_) => false,
        },
{
    let listening_on = required(&doc.entries, "listening_on")?;
    let key_dirs = KeyDirs::from_entries(&doc.entries)?;
    let backup_dir = required(&doc.entries, "backup_dir")?;
    Ok(ServerSettings { key_dirs, listening_on, backup_dir })
}

} // verus!
