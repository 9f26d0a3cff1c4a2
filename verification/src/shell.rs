//! The pure parts of the shell driver: parsing the commit identifiers out
//! of the version-control tool's log output, the reproducer command text
//! handed to the operator when a bisection bound turns out to be wrong, and
//! the word reported to the underlying bisection tool for a result.

use vstd::prelude::*;
use vstd::slice::slice_index_get;
use vstd::slice::slice_subrange;
use vstd::slice::slice_to_vec;
use vstd::string::StringExecFns;

verus! {

use crate::sched::Status;

/// Position of the first occurrence of `b` at or after `i`, or the length
/// when there is none.
pub open spec fn find_byte_from(s: Seq<u8>, b: u8, i: int) -> int
    decreases s.len() - i,
{
    if i < 0 || i >= s.len() {
        s.len() as int
    } else if s[i] == b {
        i
    } else {
        find_byte_from(s, b, i + 1)
    }
}

/// A line stripped of the carriage return a CRLF ending leaves behind.
pub open spec fn strip_cr(l: Seq<u8>) -> Seq<u8> {
    if l.len() > 0 && l.last() == 13u8 {
        l.drop_last()
    } else {
        l
    }
}

/// The lines of a text: split at every line feed, with CRLF endings losing
/// their carriage return; the text after the last line feed forms a final
/// line unless it is empty.
pub open spec fn split_lines(s: Seq<u8>) -> Seq<Seq<u8>>
    decreases s.len(),
{
    if s.len() == 0 {
        Seq::empty()
    } else {
        let k = find_byte_from(s, 10u8, 0);
        if 0 <= k && k < s.len() {
            seq![strip_cr(s.take(k))] + split_lines(s.skip(k + 1))
        } else {
            seq![s]
        }
    }
}

/// The token before the first space of a line: on a one-line log entry,
/// the commit identifier.
pub open spec fn first_token(l: Seq<u8>) -> Seq<u8> {
    l.take(find_byte_from(l, 32u8, 0))
}

/// The first token of every line of `s`.
pub open spec fn line_tokens(s: Seq<u8>) -> Seq<Seq<u8>> {
    split_lines(s).map_values(|l: Seq<u8>| first_token(l))
}

/// Position of the first occurrence of `b`, or the length when none.
fn find_byte(s: &[u8], b: u8) -> (k: usize)
    ensures
        k as int == find_byte_from(s@, b, 0),
        k <= s@.len(),
{
    let n = s.len();
    let mut k = n;
    let mut j = n;
    while j > 0
        invariant
            j <= n,
            n == s@.len(),
            k <= n,
            k as int == find_byte_from(s@, b, j as int),
        decreases j,
    {
        j -= 1;
        if *slice_index_get(s, j) == b {
            k = j;
        }
    }
    k
}

/// Parse a log listing: the first space-separated token of every line, in
/// order. This is how commit identifiers are read out of the
/// version-control tool's output, one log entry per line.
pub fn first_tokens(out: &[u8]) -> (r: Vec<Vec<u8>>)
    ensures
        r@.map_values(|t: Vec<u8>| t@) == line_tokens(out@),
{
    let mut r: Vec<Vec<u8>> = Vec::new();
    let mut rest: &[u8] = out;
    proof {
        assert(r@.map_values(|t: Vec<u8>| t@) + line_tokens(rest@) =~= line_tokens(out@));
    }
    while rest.len() > 0
        invariant
            r@.map_values(|t: Vec<u8>| t@) + line_tokens(rest@) == line_tokens(out@),
        decreases rest@.len(),
    {
        let ghost rest_old = rest@;
        let ghost r_old = r@;
        let k = find_byte(rest, 10u8);
        let line: &[u8] = if k < rest.len() {
            let raw = slice_subrange(rest, 0, k);
            let rl = raw.len();
            if rl > 0 && *slice_index_get(raw, rl - 1) == 13u8 {
                slice_subrange(raw, 0, rl - 1)
            } else {
                raw
            }
        } else {
            rest
        };
        proof {
            if (k as int) < rest_old.len() {
                assert(line@ =~= strip_cr(rest_old.take(k as int)));
            } else {
                assert(line@ == rest_old);
            }
        }
        let t = find_byte(line, 32u8);
        let tok = slice_to_vec(slice_subrange(line, 0, t));
        proof {
            assert(tok@ == first_token(line@));
        }
        r.push(tok);
        let rest_len = rest.len();
        rest = if k < rest_len {
            slice_subrange(rest, k + 1, rest_len)
        } else {
            slice_subrange(rest, rest_len, rest_len)
        };
        proof {
            let f = |t: Vec<u8>| t@;
            let g = |l: Seq<u8>| first_token(l);
            assert(r@ =~= r_old.push(tok));
            assert(r@.map_values(f) =~= r_old.map_values(f) + seq![tok@]);
            if (k as int) < rest_old.len() {
                assert(rest@ =~= rest_old.skip(k as int + 1));
                assert(split_lines(rest_old) == seq![strip_cr(rest_old.take(k as int))]
                    + split_lines(rest_old.skip(k as int + 1)));
                assert(split_lines(rest_old).map_values(g) =~= seq![tok@] + split_lines(
                    rest_old.skip(k as int + 1),
                ).map_values(g));
            } else {
                assert(rest@.len() == 0);
                assert(split_lines(rest_old) == seq![rest_old]);
                assert(split_lines(rest_old).map_values(g) =~= seq![tok@]);
                assert(split_lines(rest@) =~= Seq::<Seq<u8>>::empty());
            }
            assert(r@.map_values(f) + line_tokens(rest@) =~= r_old.map_values(f)
                + line_tokens(rest_old));
        }
    }
    proof {
        assert(split_lines(rest@) =~= Seq::<Seq<u8>>::empty());
        assert(r@.map_values(|t: Vec<u8>| t@) =~= line_tokens(out@));
    }
    r
}

/// The shell commands that reproduce one script run in a fresh worktree at
/// `commit`: exactly the text an operator can paste to replay the failure.
pub fn reproducer_shell_commands(repo_path: &str, command: &String, commit: &String) -> (r:
    String)
    ensures
        r@ == "export TESTDIR=$(mktemp -d -t biasect.XXXXXX)\necho $TESTDIR\ncd $TESTDIR\ngit -C "@
            + repo_path@ + " worktree add $TESTDIR "@ + commit@ + " --detach\n"@ + command@
            + "\necho $?"@,
{
    let mut r = String::new();
    r.append("export TESTDIR=$(mktemp -d -t biasect.XXXXXX)\necho $TESTDIR\ncd $TESTDIR\ngit -C ");
    r.append(repo_path);
    r.append(" worktree add $TESTDIR ");
    r.append(commit.as_str());
    r.append(" --detach\n");
    r.append(command.as_str());
    r.append("\necho $?");
    proof {
        assert(r@ =~= "export TESTDIR=$(mktemp -d -t biasect.XXXXXX)\necho $TESTDIR\ncd $TESTDIR\ngit -C "@
            + repo_path@ + " worktree add $TESTDIR "@ + commit@ + " --detach\n"@ + command@
            + "\necho $?"@);
    }
    r
}

/// The word the underlying bisection tool expects for a completed result.
/// `Unknown` cannot be reported, so callers must rule it out first.
pub fn bisect_action(status: Status) -> (r: String)
    requires
        status != Status::Unknown,
    ensures
        r@ == match status {
            Status::Good => "good"@,
            Status::Bad => "bad"@,
            Status::Skip => "skip"@,
            Status::Unknown => Seq::<char>::empty(),
        },
{
    match status {
        Status::Good => "good".to_owned(),
        Status::Bad => "bad".to_owned(),
        Status::Skip => "skip".to_owned(),
        Status::Unknown => String::new(),
    }
}

} // verus!
