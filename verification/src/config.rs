//! The desired-state document, as plain data.

use std::collections::HashMap;
use vstd::prelude::*;

verus! {

/// The desired state of the machine.
#[derive(Debug)]
pub struct Config {
    /// The atoms to have installed, e.g. `["git", "vim"]`.
    pub packages: Vec<String>,
    /// The accounts to have.
    pub users: Vec<crate::users::User>,
}

/// The short form of an account in the document.
#[derive(Debug)]
pub struct User {
    pub name: String,
    pub shell: String,
    pub groups: Vec<String>,
}

/// Whether a service is to start at boot and to run now.
#[derive(Debug)]
pub struct ServiceState {
    pub enabled: bool,
    pub running: bool,
}

/// The network interfaces, by name.
#[derive(Debug)]
pub struct Networking {
    pub interfaces: HashMap<String, InterfaceConfig>,
}

/// One interface; `ip` is an address with its prefix length, e.g.
/// `192.168.1.10/24`.
#[derive(Debug)]
pub struct InterfaceConfig {
    pub ip: String,
}

} // verus!
