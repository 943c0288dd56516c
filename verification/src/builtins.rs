use vstd::prelude::*;

use crate::builtin::is_builtin_name;
use crate::process::Process;
use crate::text::str_equal;

verus! {

/// Whether `cmd` is one of the commands the shell runs itself: `cd`, `exit`,
/// `pwd`, `echo`, `clear`.
pub fn is_builtin(cmd: &str) -> (r: bool)
    ensures
        r == is_builtin_name(cmd@),
{
    if crate::builtin::is_builtin(cmd) {
        return true;
    }
    return false;
}

/// The status of a builtin in this early interface: `1` for `exit` (the shell
/// is to stop), `0` otherwise.
pub fn run_builtin(proc: Process) -> (r: i32)
    ensures
        r == (if proc@.cmd == "exit"@ {
            1i32
        } else {
            0i32
        }),
{
    let cmd = proc.cmd;
    if str_equal(cmd.as_str(), "exit") {
        return 1;
    }
    0
}

/// The line this early interface prints for a builtin it does not carry out
/// yet: `TODO!` for `cd`, `pwd`, `echo` and `clear`, nothing otherwise.
pub fn pending_message(cmd: &str) -> (r: Option<String>)
    ensures
        r matches Some(m) ==> m@ == "TODO!"@,
        r is Some <==> (is_builtin_name(cmd@) && cmd@ != "exit"@),
{
    proof {
        reveal_strlit("cd");
        reveal_strlit("exit");
        reveal_strlit("pwd");
        reveal_strlit("echo");
        reveal_strlit("clear");
        assert("echo"@[1] != "exit"@[1]);
    }
    if str_equal(cmd, "cd") || str_equal(cmd, "pwd") || str_equal(cmd, "echo") || str_equal(
        cmd,
        "clear",
    ) {
        Some(String::from_str("TODO!"))
    } else {
        None
    }
}

} // verus!
