//! The sign-in command for "start with Windows": a quoted executable path,
//! plus `--minimized` only when both startup toggles are on.
use vstd::prelude::*;
use crate::text::{push_char, str_eq};

verus! {

/// The flag that asks for a launch into the tray.
pub const MINIMIZED_ARG: &'static str = "--minimized";

/// Whether a command line holds the minimized flag.
pub fn launched_minimized(args: &Vec<String>) -> (r: bool)
    ensures
        r == exists|i: int| 0 <= i < args@.len() && #[trigger] args@[i]@ == MINIMIZED_ARG@,
{
    let mut i: usize = 0;
    while i < args.len()
        invariant
            i <= args@.len(),
            forall|j: int| 0 <= j < i ==> (#[trigger] args@[j])@ != MINIMIZED_ARG@,
        decreases args@.len() - i,
    {
        if str_eq(args[i].as_str(), MINIMIZED_ARG) {
            return true;
        }
        i = i + 1;
    }
    false
}

/// `s` with every `"` escaped as `\"`.
pub open spec fn escape_quotes(s: Seq<char>) -> Seq<char>
    decreases s.len(),
{
    if s.len() == 0 {
        Seq::empty()
    } else if s.last() == '"' {
        escape_quotes(s.drop_last()) + seq!['\\', '"']
    } else {
        escape_quotes(s.drop_last()).push(s.last())
    }
}

/// The executable path in double quotes, inner quotes escaped.
pub open spec fn quoted(path: Seq<char>) -> Seq<char> {
    seq!['"'] + escape_quotes(path) + seq!['"']
}

/// The executable path in double quotes, with inner quotes escaped.
pub fn quote_path(exe: &str) -> (r: String)
    ensures
        r@ == quoted(exe@),
{
    let n = exe.unicode_len();
    let mut out = String::new();
    push_char(&mut out, '"');
    let mut i: usize = 0;
    while i < n
        invariant
            n == exe@.len(),
            i <= n,
            out@ == seq!['"'] + escape_quotes(exe@.subrange(0, i as int)),
        decreases n - i,
    {
        let c = exe.get_char(i);
        if c == '"' {
            push_char(&mut out, '\\');
            push_char(&mut out, '"');
        } else {
            push_char(&mut out, c);
        }
        proof {
            let pre = exe@.subrange(0, i + 1);
            assert(pre.drop_last() =~= exe@.subrange(0, i as int));
            assert(pre.last() == c);
        }
        i = i + 1;
    }
    push_char(&mut out, '"');
    proof {
        assert(exe@.subrange(0, n as int) =~= exe@);
    }
    out
}

/// The quoted path, followed by ` --minimized` when asked for.
pub open spec fn startup_text(exe: Seq<char>, minimized: bool) -> Seq<char> {
    if minimized {
        quoted(exe) + " "@ + MINIMIZED_ARG@
    } else {
        quoted(exe)
    }
}

/// Quoted executable path, plus `--minimized` when requested.
pub fn startup_command(exe: &str, minimized: bool) -> (r: String)
    ensures
        r@ == startup_text(exe@, minimized),
{
    let mut quoted = quote_path(exe);
    if minimized {
        quoted.append(" ");
        quoted.append(MINIMIZED_ARG);
    }
    quoted
}

} // verus!
