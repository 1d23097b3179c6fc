//! Reconciles a machine's installed packages and local user accounts with a
//! declared desired state. The library computes on snapshots of the backing
//! text databases; reading and writing them is left to the caller.

pub mod accounts;
pub mod config;
pub mod declaration_trait;
pub mod error;
pub mod membership;
pub mod packages;
pub mod records;
pub mod removal;
pub mod text;
pub mod updates;
pub mod users;
