//! Process configuration: the credential and the command-prefix string that
//! the chat connection is started with.  The values are read from local
//! configuration outside this library and handed in as plain strings.

use vstd::prelude::*;

verus! {

pub struct Config {
    token: String,
    prefix: String,
}

impl Config {
    /// The configured credential.
    pub closed spec fn spec_token(&self) -> Seq<char> {
        self.token@
    }

    /// The configured command prefix.
    pub closed spec fn spec_prefix(&self) -> Seq<char> {
        self.prefix@
    }

    pub fn new(token: String, prefix: String) -> (r: Config)
        ensures
            r.spec_token() == token@,
            r.spec_prefix() == prefix@,
    {
        Config { token, prefix }
    }

    pub fn token(&self) -> (r: &str)
        ensures
            r@ == self.spec_token(),
    {
        self.token.as_str()
    }

    pub fn prefix(&self) -> (r: &str)
        ensures
            r@ == self.spec_prefix(),
    {
        self.prefix.as_str()
    }
}

} // verus!
