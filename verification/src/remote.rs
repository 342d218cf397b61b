//! Talking to the remote: how to authenticate, what to push, and what the branch then follows.
use crate::error::{NotchError, Result};
use vstd::prelude::*;

verus! {

/// How to authenticate.
#[derive(Debug, PartialEq, Eq)]
pub enum Credential {
    /// By the keys of the SSH agent.
    Agent { username: String },
    /// By the configured token, as the password.
    Token { username: String },
}

/// SSH remotes rely on the agent, HTTPS remotes on the configured token. SSH is preferred where
/// the remote offers both.
pub fn remote_credentials(
    username: Option<&str>,
    ssh_key_allowed: bool,
    password_allowed: bool,
    has_token: bool,
) -> (r: Result<Credential>)
    ensures
        if ssh_key_allowed {
            r matches Ok(Credential::Agent { username: u }) && u@ == (match username {
                Some(name) => name@,
                None => "git"@,
            })
        } else if password_allowed && has_token {
            r matches Ok(Credential::Token { username: u }) && u@ == "x-access-token"@
        } else if password_allowed {
            r == Err::<Credential, NotchError>(NotchError::TokenNeeded)
        } else {
            r == Err::<Credential, NotchError>(NotchError::NoAuthMethod)
        },
{
    if ssh_key_allowed {
        let name = match username {
            Some(name) => name,
            None => "git",
        };
        return Ok(Credential::Agent { username: name.to_owned() });
    }
    if password_allowed {
        if has_token {
            return Ok(Credential::Token { username: "x-access-token".to_owned() });
        }
        return Err(NotchError::TokenNeeded);
    }
    Err(NotchError::NoAuthMethod)
}

/// What pushes a ref to the remote's ref of the same name, which is created if need be.
pub fn push_refspec(refname: &str) -> (r: String)
    ensures
        r@ == refname@ + ":"@ + refname@,
{
    let mut s = refname.to_owned();
    s.append(":");
    s.append(refname);
    s
}

/// The upstream to give a branch after it was pushed: a branch that follows none would not be found
/// when its pull request is opened. The branch's own name must be valid UTF-8 for that.
pub fn upstream_to_set(has_upstream: bool, remote: &str, branch: Option<&str>) -> (r: Result<
    Option<String>,
>)
    ensures
        if has_upstream {
            r == Ok::<Option<String>, NotchError>(None)
        } else {
            match branch {
                Some(short) => r matches Ok(Some(s)) && s@ == remote@ + "/"@ + short@,
                None => r == Err::<Option<String>, NotchError>(NotchError::NoBranchName),
            }
        },
{
    if has_upstream {
        return Ok(None);
    }
    match branch {
        Some(short) => {
            let mut s = remote.to_owned();
            s.append("/");
            s.append(short);
            Ok(Some(s))
        },
        None => Err(NotchError::NoBranchName),
    }
}

} // verus!
