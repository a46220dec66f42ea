//! The socket through which `--show` reaches a running daemon.
use vstd::prelude::*;
use vstd::string::StringExecFns;

verus! {

/// The file name of the daemon's socket.
pub const SOCKET_NAME: &'static str = "rust-app-menu.sock";

/// What the daemon can be asked to do.
#[derive(Clone, Copy, Debug, PartialEq, Eq, Structural)]
pub enum DaemonCommand {
    /// Show the launcher.
    Show,
    /// Read the configuration and the applications again.
    Reload,
}

/// The socket's path: `SOCKET_NAME` in `$XDG_RUNTIME_DIR` (`None` when
/// unset), or in `/tmp`.
pub fn socket_path(runtime_dir: Option<String>) -> (r: String)
    ensures
        r@ == (match runtime_dir {
            Some(d) => d@,
            None => "/tmp"@,
        }) + "/"@ + SOCKET_NAME@,
{
    let mut path = match runtime_dir {
        Some(d) => d,
        None => String::from_str("/tmp"),
    };
    path.append("/");
    path.append(SOCKET_NAME);
    path
}

} // verus!
