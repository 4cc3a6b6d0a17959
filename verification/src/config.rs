use vstd::prelude::*;

verus! {

/// Native-messaging host name registered with the browser.
pub const HOST_NAME: &'static str = "pywalfox";

/// Identifier of the one browser extension allowed to start the host.
pub const ALLOWED_EXTENSION: &'static str = "pywalfox@frewacom.org";

/// Longest socket command line (in bytes) the broker relays; longer lines
/// are dropped and the connection stays open.
pub const MAX_MSG_LEN: usize = 1024;

/// Ceiling (in bytes) on the declared length of a stdio frame body.
pub const MAX_FRAME_LEN: usize = 65536;

/// Filesystem locations the host works with, resolved by the caller
/// (environment lookups and directory creation happen outside the library).
pub struct Config {
    pub socket_path: String,
    pub log_file: String,
}

impl Config {
    pub fn new(socket_path: String, log_file: String) -> (c: Config)
        ensures
            c.socket_path@ == socket_path@,
            c.log_file@ == log_file@,
    {
        Config { socket_path, log_file }
    }
}

} // verus!
