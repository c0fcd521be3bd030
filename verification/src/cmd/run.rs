//! Deciding how a command line must be executed.

use vstd::prelude::*;

verus! {

/// Whether `cmd` holds a shell operator (a pipe, a redirection, or a
/// background marker) and so must run through a shell rather than be spawned
/// directly.
pub fn uses_shell_operators(cmd: &str) -> (r: bool)
    ensures
        r == (cmd@.contains('|') || cmd@.contains('>') || cmd@.contains('<') || cmd@.contains(
            '&',
        )),
{
    let n = cmd.unicode_len();
    let mut i: usize = 0;
    while i < n
        invariant
            i <= n,
            n == cmd@.len(),
            forall|j: int|
                0 <= j < i ==> (#[trigger] cmd@[j]) != '|' && cmd@[j] != '>' && cmd@[j] != '<'
                    && cmd@[j] != '&',
        decreases n - i,
    {
        let c = cmd.get_char(i);
        if c == '|' || c == '>' || c == '<' || c == '&' {
            return true;
        }
        i = i + 1;
    }
    proof {
        if cmd@.contains('|') {
            let j = choose|j: int| 0 <= j < cmd@.len() && cmd@[j] == '|';
            assert(cmd@[j] != '|');
        }
        if cmd@.contains('>') {
            let j = choose|j: int| 0 <= j < cmd@.len() && cmd@[j] == '>';
            assert(cmd@[j] != '>');
        }
        if cmd@.contains('<') {
            let j = choose|j: int| 0 <= j < cmd@.len() && cmd@[j] == '<';
            assert(cmd@[j] != '<');
        }
        if cmd@.contains('&') {
            let j = choose|j: int| 0 <= j < cmd@.len() && cmd@[j] == '&';
            assert(cmd@[j] != '&');
        }
    }
    false
}

} // verus!
