//! A verified parser for simple shell command lines: whitespace separates
//! arguments, and single quotes keep whitespace inside one argument.

use crate::strutil::{chars_of, string_of};
use vstd::prelude::*;

verus! {

/// The parser state: whether a quote is open, the argument being built,
/// and the arguments finished so far.
pub struct ShellState {
    /// Whether the characters read so far leave a single quote open.
    pub in_quotes: bool,
    /// The characters of the argument currently being collected.
    pub current: Seq<char>,
    /// The finished arguments, in order.
    pub done: Seq<Seq<char>>,
}

/// One parser step: a space outside quotes finishes the current argument
/// (if any), a quote toggles the quote state, and everything else joins
/// the current argument.
pub open spec fn shell_step(st: ShellState, c: char) -> ShellState {
    if c == ' ' && !st.in_quotes {
        if st.current.len() > 0 {
            ShellState { in_quotes: st.in_quotes, current: Seq::empty(), done: st.done.push(st.current) }
        } else {
            st
        }
    } else if c == '\'' {
        ShellState { in_quotes: !st.in_quotes, current: st.current, done: st.done }
    } else {
        ShellState { in_quotes: st.in_quotes, current: st.current.push(c), done: st.done }
    }
}

/// The parser state after reading a whole character sequence.
pub open spec fn shell_run(s: Seq<char>) -> ShellState
    decreases s.len(),
{
    if s.len() == 0 {
        ShellState { in_quotes: false, current: Seq::empty(), done: Seq::empty() }
    } else {
        shell_step(shell_run(s.drop_last()), s.last())
    }
}

/// The arguments of a command line: the finished arguments, plus the
/// trailing one if it is non-empty.
pub open spec fn shell_tokens(s: Seq<char>) -> Seq<Seq<char>> {
    let st = shell_run(s);
    if st.current.len() > 0 {
        st.done.push(st.current)
    } else {
        st.done
    }
}

/// Parses the string as a shell command: a whitespace-separated argument
/// list in which single quotes protect spaces.
pub fn parse_shell_command(command: &str) -> (r: Vec<String>)
    ensures
        r.deep_view() == shell_tokens(command@),
{
    let cs = chars_of(command);
    let mut ret: Vec<String> = Vec::new();
    let mut current: Vec<char> = Vec::new();
    let mut in_quotes = false;
    let mut i: usize = 0;
    proof {
        assert(cs@.subrange(0, 0) =~= Seq::<char>::empty());
        assert(ret.deep_view() =~= shell_run(cs@.subrange(0, 0)).done);
    }
    while i < cs.len()
        invariant
            cs@ == command@,
            i <= cs@.len(),
            in_quotes == shell_run(cs@.subrange(0, i as int)).in_quotes,
            current@ == shell_run(cs@.subrange(0, i as int)).current,
            ret.deep_view() == shell_run(cs@.subrange(0, i as int)).done,
        decreases cs@.len() - i,
    {
        let c = cs[i];
        let ghost pre_ret = ret.deep_view();
        if c == ' ' && !in_quotes {
            if current.len() > 0 {
                let arg = string_of(&current);
                ret.push(arg);
                current = Vec::new();
                proof {
                    assert(ret.deep_view() =~= pre_ret.push(arg@));
                }
            }
        } else if c == '\'' {
            in_quotes = !in_quotes;
        } else {
            current.push(c);
        }
        i = i + 1;
        proof {
            assert(cs@.subrange(0, i as int).drop_last() =~= cs@.subrange(0, i - 1));
            assert(cs@.subrange(0, i as int).last() == cs@[i - 1]);
            assert(current@ =~= shell_run(cs@.subrange(0, i as int)).current);
            assert(ret.deep_view() =~= shell_run(cs@.subrange(0, i as int)).done);
        }
    }
    proof {
        assert(cs@.subrange(0, cs@.len() as int) =~= cs@);
    }
    if current.len() > 0 {
        let ghost pre_ret = ret.deep_view();
        let arg = string_of(&current);
        ret.push(arg);
        proof {
            assert(ret.deep_view() =~= pre_ret.push(arg@));
        }
    }
    ret
}

} // verus!
