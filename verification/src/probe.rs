//! Probing a resolved binary for version text.
use vstd::prelude::*;

use crate::error::VersionError;
use crate::version::token_views;

verus! {

/// The candidate version flags, in their fixed trial order.
pub open spec fn spec_version_flags() -> Seq<Seq<char>> {
    seq!["--version"@, "-v"@, "-version"@, "-V"@]
}

fn version_flags() -> (r: Vec<String>)
    ensures
        token_views(r@) == spec_version_flags(),
{
    let mut r: Vec<String> = Vec::new();
    r.push(String::from_str("--version"));
    r.push(String::from_str("-v"));
    r.push(String::from_str("-version"));
    r.push(String::from_str("-V"));
    proof {
        assert(token_views(r@) =~= spec_version_flags());
    }
    r
}

/// Relies on xshell's `Shell::new` and `Cmd::read`: spawns `name flag` with
/// the error stream discarded and the exit status ignored, and returns the
/// captured standard output, its trailing newline trimmed, when the process
/// could be spawned and captured; else the error text.
#[verifier::external_body]
fn probe_once(name: &str, flag: &str) -> (r: Result<String, String>) {
    let sh = match xshell::Shell::new() {
        Ok(sh) => sh,
        Err(err) => {
            return Err(err.to_string());
        },
    };
    match sh.cmd(name).arg(flag).ignore_stderr().ignore_status().read() {
        Ok(output) => Ok(output),
        Err(err) => Err(err.to_string()),
    }
}

/// Tries the candidate flags in order, spawning the binary once per flag,
/// and stops at the first that yields non-empty output, whatever the exit
/// status; when no flag yields output, reports an execution failure naming
/// the binary. The allowlist is not consulted here: that is the caller's
/// concern.
pub fn execute_binary(binary_name: &str) -> (r: Result<String, VersionError>)
    ensures
        r is Ok ==> r.unwrap()@.len() > 0,
        r is Err ==> (r.unwrap_err() matches VersionError::Execution { name, .. } && name@
            == binary_name@),
{
    let flags = version_flags();
    let n = flags.len();
    let mut i: usize = 0;
    while i < n
        invariant
            i <= n,
            n == flags@.len(),
        decreases n - i,
    {
        match probe_once(binary_name, flags[i].as_str()) {
            Ok(output) => {
                if output.as_str().unicode_len() > 0 {
                    return Ok(output);
                }
            },
            Err(_) => {},
        }
        i = i + 1;
    }
    Err(
        VersionError::Execution {
            name: String::from_str(binary_name),
            message: String::from_str("no flag produced any output"),
        },
    )
}

} // verus!
