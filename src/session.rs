//! The decisions of a backup session that surround the codecs: who the peer
//! is, where its archive goes, and whether a client run succeeded.
use vstd::prelude::*;
use vstd::utf8::encode_utf8;

use crate::config::{ClientInfo, ServerConfig};

verus! {

/// Longest hostname announcement, in bytes.
pub const HOSTNAME_FRAME_LEN: usize = 256;

/// Why a session was refused.
#[derive(PartialEq, Eq, Structural, Debug, Clone, Copy)]
pub enum SessionError {
    /// The announced hostname is not a known client.
    UnknownHost,
}

/// Which end of a connection runs the handshake.
#[derive(PartialEq, Eq, Structural, Debug, Clone, Copy)]
pub enum Role {
    Client,
    Server,
}

/// One of the two challenge exchanges of the handshake.
#[derive(PartialEq, Eq, Structural, Debug, Clone, Copy)]
pub enum Exchange {
    /// Sign the peer's challenge, proving our own identity.
    AnswerPeerChallenge,
    /// Send a challenge and check the peer's signature over it.
    ChallengePeer,
}

/// The order of the two exchanges after the hostname announcement: the
/// server challenges first, so a client proves its claimed identity before
/// the server signs anything.
pub fn handshake_order(role: Role) -> (r: [Exchange; 2])
    ensures
        role == Role::Client ==> r@ == seq![Exchange::AnswerPeerChallenge, Exchange::ChallengePeer],
        role == Role::Server ==> r@ == seq![Exchange::ChallengePeer, Exchange::AnswerPeerChallenge],
{
    let r = match role {
        Role::Client => [Exchange::AnswerPeerChallenge, Exchange::ChallengePeer],
        Role::Server => [Exchange::ChallengePeer, Exchange::AnswerPeerChallenge],
    };
    assert(r@ =~= seq![r@[0], r@[1]]);
    r
}

/// A hostname announcement without its trailing NUL bytes.
pub open spec fn trimmed(s: Seq<u8>) -> Seq<u8>
    decreases s.len(),
{
    if s.len() > 0 && s.last() == 0 {
        trimmed(s.drop_last())
    } else {
        s
    }
}

/// Drops the trailing NUL bytes of a hostname announcement.
pub fn trim_hostname(raw: &[u8]) -> (r: &[u8])
    ensures
        r@ == trimmed(raw@),
{
    let mut n: usize = raw.len();
    assert(raw@.subrange(0, n as int) =~= raw@);
    while n > 0 && raw[n - 1] == 0
        invariant
            n <= raw@.len(),
            trimmed(raw@.subrange(0, n as int)) == trimmed(raw@),
        decreases n,
    {
        assert(raw@.subrange(0, n as int).drop_last() =~= raw@.subrange(0, n - 1));
        n = n - 1;
    }
    &raw[0..n]
}

fn same_bytes(a: &[u8], b: &[u8]) -> (r: bool)
    ensures
        r == (a@ == b@),
{
    if a.len() != b.len() {
        return false;
    }
    let mut i: usize = 0;
    while i < a.len()
        invariant
            a@.len() == b@.len(),
            i <= a@.len(),
            forall|j: int| 0 <= j < i ==> a@[j] == b@[j],
        decreases a@.len() - i,
    {
        if a[i] != b[i] {
            return false;
        }
        i = i + 1;
    }
    assert(a@ =~= b@);
    true
}

impl ServerConfig {
    /// The client that a hostname announcement names: the one whose hostname,
    /// in UTF-8, is the announcement without its trailing NUL bytes.
    pub fn lookup_peer(&self, raw: &[u8]) -> (r: Result<ClientInfo, SessionError>)
        ensures
            match r {
                Ok(info) => exists|i: int|
                    0 <= i < self.client_infos@.len() && #[trigger] encode_utf8(self.client_infos@[i].hostname@) == trimmed(raw@)
                        && self.client_infos@[i].info == info,
                Err(e) => e == SessionError::UnknownHost && forall|i: int|
                    0 <= i < self.client_infos@.len() ==> #[trigger] encode_utf8(self.client_infos@[i].hostname@) != trimmed(raw@),
            },
    {
        let name = trim_hostname(raw);
        let mut i: usize = 0;
        while i < self.client_infos.len()
            invariant
                i <= self.client_infos@.len(),
                name@ == trimmed(raw@),
                forall|j: int| 0 <= j < i ==> #[trigger] encode_utf8(self.client_infos@[j].hostname@) != name@,
            decreases self.client_infos@.len() - i,
        {
            let c = &self.client_infos[i];
            if same_bytes(c.hostname.as_str().as_bytes(), name) {
                return Ok(c.info);
            }
            i = i + 1;
        }
        Err(SessionError::UnknownHost)
    }
}


/// The decimal digit for `d < 10`.
pub open spec fn digit_char(d: nat) -> char {
    if d == 0 {
        '0'
    } else if d == 1 {
        '1'
    } else if d == 2 {
        '2'
    } else if d == 3 {
        '3'
    } else if d == 4 {
        '4'
    } else if d == 5 {
        '5'
    } else if d == 6 {
        '6'
    } else if d == 7 {
        '7'
    } else if d == 8 {
        '8'
    } else {
        '9'
    }
}

/// The decimal writing of `n`, without leading zeros.
pub open spec fn decimal(n: nat) -> Seq<char>
    decreases n,
{
    if n < 10 {
        seq![digit_char(n)]
    } else {
        decimal(n / 10).push(digit_char(n % 10))
    }
}

fn push_digit(s: &mut String, d: u64)
    requires
        d < 10,
    ensures
        final(s)@ == old(s)@.push(digit_char(d as nat)),
{
    let ghost s0 = s@;
    if d == 0 {
        s.append("0");
        proof { reveal_strlit("0"); }
    } else if d == 1 {
        s.append("1");
        proof { reveal_strlit("1"); }
    } else if d == 2 {
        s.append("2");
        proof { reveal_strlit("2"); }
    } else if d == 3 {
        s.append("3");
        proof { reveal_strlit("3"); }
    } else if d == 4 {
        s.append("4");
        proof { reveal_strlit("4"); }
    } else if d == 5 {
        s.append("5");
        proof { reveal_strlit("5"); }
    } else if d == 6 {
        s.append("6");
        proof { reveal_strlit("6"); }
    } else if d == 7 {
        s.append("7");
        proof { reveal_strlit("7"); }
    } else if d == 8 {
        s.append("8");
        proof { reveal_strlit("8"); }
    } else {
        s.append("9");
        proof { reveal_strlit("9"); }
    }
    assert(s@ =~= s0.push(digit_char(d as nat)));
}

fn push_decimal(s: &mut String, n: u64)
    ensures
        final(s)@ == old(s)@ + decimal(n as nat),
    decreases n,
{
    let ghost s0 = s@;
    if n >= 10 {
        push_decimal(s, n / 10);
    }
    push_digit(s, n % 10);
    if n >= 10 {
        assert(s@ =~= s0 + decimal(n as nat));
    } else {
        assert(s@ =~= s0 + decimal(n as nat));
    }
}

/// The directory that holds one client's archives.
pub open spec fn archive_dir_of(backup_dir: Seq<char>, hostname: Seq<char>) -> Seq<char> {
    backup_dir + seq!['/'] + hostname
}

/// The archive of a session that began `secs` seconds after the Unix epoch.
pub open spec fn archive_path_of(backup_dir: Seq<char>, hostname: Seq<char>, secs: nat) -> Seq<
    char,
> {
    archive_dir_of(backup_dir, hostname) + seq!['/'] + decimal(secs) + seq!['.', 'l', 'z', '4']
}

/// `{backup_dir}/{hostname}`: where one client's archives go.
pub fn archive_dir(backup_dir: &str, hostname: &str) -> (r: String)
    ensures
        r@ == archive_dir_of(backup_dir@, hostname@),
{
    let mut s = String::from_str(backup_dir);
    s.append("/");
    s.append(hostname);
    proof {
        reveal_strlit("/");
    }
    assert(s@ =~= archive_dir_of(backup_dir@, hostname@));
    s
}

/// `{backup_dir}/{hostname}/{secs}.lz4`: the archive of one session.
pub fn archive_path(backup_dir: &str, hostname: &str, secs: u64) -> (r: String)
    ensures
        r@ == archive_path_of(backup_dir@, hostname@, secs as nat),
{
    let mut s = archive_dir(backup_dir, hostname);
    s.append("/");
    push_decimal(&mut s, secs);
    s.append(".lz4");
    proof {
        reveal_strlit("/");
        reveal_strlit(".lz4");
    }
    assert(s@ =~= archive_path_of(backup_dir@, hostname@, secs as nat));
    s
}

/// A client run succeeds when at least one server took a backup.
pub fn client_run_succeeded(outcomes: &[bool]) -> (r: bool)
    ensures
        r == exists|i: int| 0 <= i < outcomes@.len() && #[trigger] outcomes@[i],
{
    let mut i: usize = 0;
    while i < outcomes.len()
        invariant
            i <= outcomes@.len(),
            forall|j: int| 0 <= j < i ==> !#[trigger] outcomes@[j],
        decreases outcomes@.len() - i,
    {
        if outcomes[i] {
            return true;
        }
        i = i + 1;
    }
    false
}

} // verus!
