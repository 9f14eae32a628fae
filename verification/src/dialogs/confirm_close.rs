//! Deciding whether closing a pane would kill a running process.
use vstd::prelude::*;

verus! {

/// True if `foreground_pgid` names a real, distinct process group from the
/// shell's own — i.e. a child (editor, long-running command...) currently
/// owns the terminal foreground, not just the shell idling at its prompt.
/// An interactive shell is its own process group leader, so `pgid == pid`
/// is the "nothing running" case; a `foreground_pgid <= 0` means the query
/// itself failed (pty gone, no controlling terminal), also "nothing to warn
/// about".
pub fn foreground_pgid_differs(foreground_pgid: i32, shell_pid: i32) -> (b: bool)
    ensures
        b == (foreground_pgid > 0 && foreground_pgid != shell_pid),
{
    foreground_pgid > 0 && foreground_pgid != shell_pid
}

} // verus!
