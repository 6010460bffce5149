//! The remote client's configuration: the server base address and the
//! optional bearer credential, as one immutable value. Re-authentication
//! produces a new value rather than mutating shared state.

use vstd::prelude::*;

verus! {

/// The immutable configuration of the remote API client.
pub struct ClientConfig {
    pub server: String,
    pub token: Option<String>,
}

impl ClientConfig {
    /// A client configuration without a credential.
    pub fn new(server: &str) -> (r: ClientConfig)
        ensures
            r.server@ == server@,
            r.token is None,
    {
        ClientConfig { server: String::from_str(server), token: None }
    }

    /// The same configuration with the given credential attached: a new
    /// value, the receiver stays as it was.
    pub fn with_token(&self, token: &str) -> (r: ClientConfig)
        ensures
            r.server@ == self.server@,
            r.token matches Some(t) && t@ == token@,
    {
        ClientConfig {
            server: self.server.clone(),
            token: Some(String::from_str(token)),
        }
    }
}

/// The URL of an API endpoint: the server base address followed by the path,
/// with one leading `/` of the path dropped so a base ending in `/` does not
/// double it.
pub fn endpoint_url(server: &str, path: &str) -> (r: String)
    ensures
        r@ == server@ + (if path@.len() > 0 && path@[0] == '/' {
            path@.skip(1)
        } else {
            path@
        }),
{
    let mut out = String::from_str(server);
    let n = path.unicode_len();
    if n > 0 && path.get_char(0) == '/' {
        let rest = path.substring_char(1, n);
        out.append(rest);
        proof {
            assert(path@.subrange(1, n as int) =~= path@.skip(1));
        }
    } else {
        out.append(path);
    }
    out
}

/// What starting a challenge instance must do, given the name of the instance
/// currently running (empty for none).
#[derive(Clone, Copy, Debug, PartialEq, Eq, Structural)]
pub enum InstanceStartAction {
    /// The requested challenge is already running: nothing to do.
    AlreadyRunning,
    /// Another challenge runs and force was given: stop it, then start.
    StopThenStart,
    /// Another challenge runs and no force was given: refuse.
    Refuse,
    /// Nothing runs: start.
    Start,
}

/// Decides how to start a challenge instance.
pub fn instance_start_decision(current_name: &str, challenge: &str, force: bool) -> (r:
    InstanceStartAction)
    ensures
        current_name@.len() == 0 ==> r == InstanceStartAction::Start,
        current_name@.len() > 0 && current_name@ == challenge@
            ==> r == InstanceStartAction::AlreadyRunning,
        current_name@.len() > 0 && current_name@ != challenge@ && force
            ==> r == InstanceStartAction::StopThenStart,
        current_name@.len() > 0 && current_name@ != challenge@ && !force
            ==> r == InstanceStartAction::Refuse,
{
    if current_name.unicode_len() == 0 {
        InstanceStartAction::Start
    } else if crate::text::str_eq(current_name, challenge) {
        InstanceStartAction::AlreadyRunning
    } else if force {
        InstanceStartAction::StopThenStart
    } else {
        InstanceStartAction::Refuse
    }
}

} // verus!
