use vstd::prelude::*;

verus! {

/// What the relay is given at startup: where to listen and the shared
/// secret every client must present. Read-only once constructed.
pub struct Config {
    pub hostname: String,
    pub port: u16,
    pub token: String,
}

impl Config {
    pub fn new(hostname: String, port: u16, token: String) -> (r: Config)
        ensures
            r.hostname@ == hostname@,
            r.port == port,
            r.token@ == token@,
    {
        Config { hostname, port, token }
    }
}

} // verus!
