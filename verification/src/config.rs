//! The configuration rules that are the client's own logic, apart from the
//! command-line plumbing around them: the local SOCKS5 front end is either
//! unauthenticated or takes a username and a password together, never one
//! without the other.

use vstd::prelude::*;

verus! {

/// Authentication demanded of clients of the local SOCKS5 server.
#[derive(Debug, PartialEq, Eq)]
pub enum Socks5AuthenticationConfig {
    NoAuthentication,
    Password { username: Vec<u8>, password: Vec<u8> },
}

/// Pairs the optional SOCKS5 username and password into an authentication
/// configuration: none given means no authentication, both given mean
/// password authentication, and one without the other is rejected.
pub fn socks5_authentication(username: Option<Vec<u8>>, password: Option<Vec<u8>>) -> (r: Option<
    Socks5AuthenticationConfig,
>)
    ensures
        match (username, password) {
            (Option::Some(u), Option::Some(p)) => r == Option::Some(
                Socks5AuthenticationConfig::Password { username: u, password: p },
            ),
            (Option::None, Option::None) => r == Option::Some(
                Socks5AuthenticationConfig::NoAuthentication,
            ),
            _ => r is None,
        },
{
    match (username, password) {
        (Some(u), Some(p)) => Some(Socks5AuthenticationConfig::Password { username: u, password: p }),
        (None, None) => Some(Socks5AuthenticationConfig::NoAuthentication),
        _ => None,
    }
}

} // verus!
