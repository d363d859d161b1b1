//! The command line: `nvmux` for this machine, `nvmux <host>` for another.

use vstd::prelude::*;

verus! {

/// Where sessions are managed.
#[derive(Debug, PartialEq, Eq)]
pub enum Location {
    /// On this machine.
    Local,
    /// On this host, named as `ssh` is to be told.
    Ssh(String),
}

/// What the command line says.
#[derive(Debug, PartialEq, Eq)]
pub struct Cli {
    /// The host, passed to `ssh` verbatim.
    pub host: Option<String>,
}

impl Cli {
    /// Where sessions are managed: on the host that was named, or here.
    pub fn location(&self) -> (r: Location)
        ensures
            match self.host {
                Some(host) => r matches Location::Ssh(h) && h@ == host@,
                None => r is Local,
            },
    {
        match &self.host {
            Some(host) => Location::Ssh(String::from_str(host.as_str())),
            None => Location::Local,
        }
    }
}

} // verus!
