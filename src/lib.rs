//! ForgedBackup: a push-model backup system whose data path is a chain of
//! framed byte codecs (directory framing, block compression, authenticated
//! encryption) and a mutual challenge/response handshake.
//!
//! This crate holds the verified logic of each stage: every frame format is a
//! spec function over byte sequences, every decoder is proved to agree with
//! its spec, and each codec carries a proved round-trip law.
use vstd::prelude::*;

pub mod config;
pub mod fadc;
pub mod fce;
pub mod fdgse;
pub mod fsas;
pub mod pipeline;
pub mod session;
pub mod wire;

verus! {

/// Largest chunk read from a source in one go; one read becomes one frame.
pub const BUFFER_SIZE: usize = 32768;

/// Capacity of the in-memory pipe that joins two stages of a session.
pub const DUPLEX_BUFFER_SIZE: usize = 32768;

/// Why a key file's contents were refused.
#[derive(PartialEq, Eq, Structural, Debug, Clone, Copy)]
pub enum KeyError {
    /// The contents are not exactly 32 bytes.
    InvalidLength,
    /// The bytes are not a valid public key.
    InvalidKey,
    /// The public key has small order, which makes signatures under it weak.
    WeakKey,
}

/// A client known to a server, under its hostname.
#[derive(Debug)]
pub struct Client {
    pub hostname: String,
    pub info: config::ClientInfo,
}

/// What the program runs as.
#[derive(PartialEq, Eq, Structural, Debug, Clone, Copy)]
pub enum Mode {
    Server,
    Client,
    Admin,
}

/// What the chosen mode does.
#[derive(PartialEq, Eq, Structural, Debug, Clone, Copy)]
pub enum SubMode {
    Init,
    Start,
    List,
    Decompress,
}

/// The mode that a command-line word names, if any.
pub open spec fn mode_named(s: Seq<char>) -> Option<Mode> {
    if s == "s"@ || s == "server"@ {
        Some(Mode::Server)
    } else if s == "c"@ || s == "client"@ {
        Some(Mode::Client)
    } else if s == "a"@ || s == "admin"@ {
        Some(Mode::Admin)
    } else {
        None
    }
}

/// The sub-mode that a command-line word names, if any.
pub open spec fn submode_named(s: Seq<char>) -> Option<SubMode> {
    if s == "i"@ || s == "init"@ {
        Some(SubMode::Init)
    } else if s == "s"@ || s == "start"@ {
        Some(SubMode::Start)
    } else if s == "l"@ || s == "list"@ {
        Some(SubMode::List)
    } else if s == "dc"@ || s == "decompress"@ {
        Some(SubMode::Decompress)
    } else {
        None
    }
}

fn is_word(s: &String, w: &str) -> (r: bool)
    ensures
        r == (s@ == w@),
{
    let w = String::from_str(w);
    *s == w
}

impl Mode {
    /// Parses a mode word (`s`/`server`, `c`/`client`, `a`/`admin`).
    pub fn try_from(s: String) -> (r: Result<Mode, String>)
        ensures
            match mode_named(s@) {
                Some(m) => r == Ok::<Mode, String>(m),
                None => r matches Err(e) && e@ == "Invalid mode"@,
            },
    {
        if is_word(&s, "s") || is_word(&s, "server") {
            Ok(Mode::Server)
        } else if is_word(&s, "c") || is_word(&s, "client") {
            Ok(Mode::Client)
        } else if is_word(&s, "a") || is_word(&s, "admin") {
            Ok(Mode::Admin)
        } else {
            Err(String::from_str("Invalid mode"))
        }
    }
}

impl SubMode {
    /// Parses a sub-mode word (`i`/`init`, `s`/`start`, `l`/`list`,
    /// `dc`/`decompress`).
    pub fn try_from(s: String) -> (r: Result<SubMode, String>)
        ensures
            match submode_named(s@) {
                Some(m) => r == Ok::<SubMode, String>(m),
                None => r matches Err(e) && e@ == "Invalid submode"@,
            },
    {
        if is_word(&s, "i") || is_word(&s, "init") {
            Ok(SubMode::Init)
        } else if is_word(&s, "s") || is_word(&s, "start") {
            Ok(SubMode::Start)
        } else if is_word(&s, "l") || is_word(&s, "list") {
            Ok(SubMode::List)
        } else if is_word(&s, "dc") || is_word(&s, "decompress") {
            Ok(SubMode::Decompress)
        } else {
            Err(String::from_str("Invalid submode"))
        }
    }
}

} // verus!
