//! Server settings.
use vstd::prelude::*;

verus! {

/// The port the server listens on when none is given.
pub const DEFAULT_PORT: u16 = 8080;

pub struct Config {
    pub port: u16,
}

impl Config {
    /// The given port, or the default one.
    pub fn new(port: Option<u16>) -> (r: Config)
        ensures
            r.port == match port {
                Some(p) => p,
                None => DEFAULT_PORT,
            },
    {
        Config {
            port: match port {
                Some(p) => p,
                None => DEFAULT_PORT,
            },
        }
    }
}

} // verus!
