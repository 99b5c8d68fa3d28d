//! Command lines and their tokenization. A command line is split on
//! whitespace only — no quoting, pipes or globbing — into the program name
//! and its argument vector; an empty line is rejected. Spawning the
//! subprocess is the caller's job: it receives the exact tokens.

use vstd::prelude::*;
use vstd::string::*;
use crate::errors::RouterError;

verus! {

/// The whitespace the tokenizer splits on.
pub open spec fn is_ws(c: char) -> bool {
    c == ' ' || c == '\t' || c == '\n' || c == '\r'
}

/// The index just past the run of non-whitespace that starts at `i`.
pub open spec fn token_run_end(s: Seq<char>, i: int) -> int
    decreases s.len() - i,
{
    if 0 <= i < s.len() && !is_ws(s[i]) {
        token_run_end(s, i + 1)
    } else {
        i
    }
}

/// The whitespace-separated tokens of `s`, in order; tokens are the maximal
/// nonempty runs of non-whitespace characters.
pub open spec fn split_ws(s: Seq<char>) -> Seq<Seq<char>>
    decreases s.len(),
    via split_ws_decreases
{
    if s.len() == 0 {
        Seq::empty()
    } else if is_ws(s[0]) {
        split_ws(s.drop_first())
    } else {
        let e = token_run_end(s, 0);
        seq![s.subrange(0, e)] + split_ws(s.subrange(e, s.len() as int))
    }
}

#[via_fn]
proof fn split_ws_decreases(s: Seq<char>) {
    if s.len() > 0 && !is_ws(s[0]) {
        lemma_token_run_end_props(s, 1);
        assert(token_run_end(s, 0) == token_run_end(s, 1));
        assert(token_run_end(s, 0) >= 1);
    }
}

/// Basic bounds of `token_run_end`.
proof fn lemma_token_run_end_props(s: Seq<char>, i: int)
    requires
        0 <= i <= s.len(),
    ensures
        i <= token_run_end(s, i) <= s.len(),
        forall|t: int| i <= t < token_run_end(s, i) ==> !is_ws(#[trigger] s[t]),
        token_run_end(s, i) == s.len() || is_ws(s[token_run_end(s, i)]),
    decreases s.len() - i,
{
    if 0 <= i < s.len() && !is_ws(s[i]) {
        lemma_token_run_end_props(s, i + 1);
    }
}

/// Where a run of non-whitespace is known to stop, `token_run_end` stops
/// there.
proof fn lemma_token_run_concat(s: Seq<char>, i: int, k: int)
    requires
        0 <= i <= k <= s.len(),
        forall|t: int| i <= t < k ==> !is_ws(#[trigger] s[t]),
        k == s.len() || is_ws(s[k]),
    ensures
        token_run_end(s, i) == k,
    decreases k - i,
{
    if i < k {
        lemma_token_run_concat(s, i + 1, k);
    }
}

/// Whitespace test; exact against `is_ws`.
fn is_ws_exec(c: char) -> (r: bool)
    ensures
        r == is_ws(c),
{
    c == ' ' || c == '\t' || c == '\n' || c == '\r'
}

/// Tokenize a command line on whitespace: the program name first, then the
/// arguments in order; an empty or all-whitespace line yields nothing.
pub fn resolve_cmd_and_args(line: &str) -> (r: Option<(String, Vec<String>)>)
    ensures
        r is Some <==> split_ws(line@).len() > 0,
        r matches Some(p) ==> {
            &&& p.0@ == split_ws(line@)[0]
            &&& p.1@.len() == split_ws(line@).len() - 1
            &&& forall|k: int|
                0 <= k < p.1@.len() ==> (#[trigger] p.1@[k])@ == split_ws(line@)[k + 1]
        },
{
    let s = line;
    let len = s.unicode_len();
    let mut tokens: Vec<String> = Vec::new();
    proof {
        assert(s@.subrange(0, len as int) =~= s@);
        assert(tokens@.map_values(|t: String| t@) =~= Seq::<Seq<char>>::empty());
    }
    let mut i: usize = 0;
    while i < len
        invariant
            i <= len,
            len == s@.len(),
            split_ws(s@) == tokens@.map_values(|t: String| t@) + split_ws(
                s@.subrange(i as int, len as int),
            ),
        decreases len - i,
    {
        let c = s.get_char(i);
        if c == ' ' || c == '\t' || c == '\n' || c == '\r' {
            proof {
                let rest = s@.subrange(i as int, len as int);
                assert(is_ws(rest[0]));
                assert(rest.drop_first() =~= s@.subrange(i + 1, len as int));
            }
            i = i + 1;
        } else {
            let mut e: usize = i + 1;
            while e < len && !is_ws_exec(s.get_char(e))
                invariant
                    i < e <= len,
                    len == s@.len(),
                    forall|t: int| i <= t < e ==> !is_ws(#[trigger] s@[t]),
                decreases len - e,
            {
                e = e + 1;
            }
            let tok = s.substring_char(i, e);
            let tok_string = tok.to_owned();
            proof {
                let rest = s@.subrange(i as int, len as int);
                let rest2 = s@.subrange(e as int, len as int);
                assert(!is_ws(rest[0]));
                assert forall|t: int| 0 <= t < e - i implies !is_ws(#[trigger] rest[t]) by {
                    assert(rest[t] == s@[i + t]);
                }
                lemma_token_run_concat(rest, 0, e - i);
                assert(rest.subrange(0, e - i) =~= s@.subrange(i as int, e as int));
                assert(rest.subrange(e - i, rest.len() as int) =~= rest2);
                assert(split_ws(rest) == seq![s@.subrange(i as int, e as int)] + split_ws(rest2));
                let prev = tokens@.map_values(|t: String| t@);
                assert(tokens@.push(tok_string).map_values(|t: String| t@) =~= prev + seq![
                    tok_string@,
                ]);
                assert(tok_string@ == s@.subrange(i as int, e as int));
                assert(prev + seq![tok_string@] + split_ws(rest2) =~= prev + (seq![
                    s@.subrange(i as int, e as int),
                ] + split_ws(rest2)));
            }
            tokens.push(tok_string);
            i = e;
        }
    }
    proof {
        assert(s@.subrange(len as int, len as int) =~= Seq::<char>::empty());
        assert(split_ws(Seq::<char>::empty()) =~= Seq::<Seq<char>>::empty());
        assert(split_ws(s@) =~= tokens@.map_values(|t: String| t@));
    }
    if tokens.len() == 0 {
        None
    } else {
        let ghost toks = tokens@;
        let cmd = tokens.remove(0);
        proof {
            toks.remove_ensures(0);
            assert(cmd@ == toks.map_values(|t: String| t@)[0]);
            assert forall|k: int| 0 <= k < tokens@.len() implies (#[trigger] tokens@[k])@
                == split_ws(s@)[k + 1] by {
                assert(tokens@[k] == toks[k + 1]);
                assert(toks.map_values(|t: String| t@)[k + 1] == toks[k + 1]@);
            }
        }
        Some((cmd, tokens))
    }
}

/// A tokenized command ready to spawn: the program and its arguments.
pub struct Invocation {
    pub program: String,
    pub args: Vec<String>,
}

/// Tokenize a command line, rejecting an empty one.
///
/// Succeeds exactly when the line holds at least one token; the error is
/// `InvalidCommand` carrying the offending line. The caller runs the
/// program with exactly these arguments, discarding its output, and maps a
/// spawn failure or non-zero exit to `Execution` with the same line.
pub fn prepare_command(line: &str) -> (r: Result<Invocation, RouterError>)
    ensures
        r is Ok <==> split_ws(line@).len() > 0,
        r matches Ok(inv) ==> {
            &&& inv.program@ == split_ws(line@)[0]
            &&& inv.args@.len() == split_ws(line@).len() - 1
            &&& forall|k: int|
                0 <= k < inv.args@.len() ==> (#[trigger] inv.args@[k])@ == split_ws(line@)[k + 1]
        },
        r matches Err(e) ==> (e matches RouterError::InvalidCommand(t) && t@ == line@),
{
    match resolve_cmd_and_args(line) {
        Some((program, args)) => Ok(Invocation { program, args }),
        None => Err(RouterError::InvalidCommand(line.to_owned())),
    }
}

} // verus!
