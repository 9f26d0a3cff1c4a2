//! Rendering the commit strip: one byte per commit, with the runner marker
//! overriding the status glyph.

use vstd::prelude::*;

verus! {

use crate::sched::slice_contains;
use crate::sched::Status;

/// The byte drawn for a commit: `R` when a runner holds it, else `G`, `B`,
/// `S` or `.` for `Good`, `Bad`, `Skip` and `Unknown`.
pub open spec fn status_glyph(s: Status, running: bool) -> u8 {
    if running {
        82u8
    } else {
        match s {
            Status::Good => 71u8,
            Status::Bad => 66u8,
            Status::Skip => 83u8,
            Status::Unknown => 46u8,
        }
    }
}

/// One line of output: the glyph of every commit in order. The caller
/// prints the returned bytes (they are ASCII) followed by a newline.
pub fn render_commits(commits: &Vec<Status>, runners: &Vec<usize>) -> (r: Vec<u8>)
    ensures
        r@.len() == commits@.len(),
        forall|i: int|
            0 <= i < commits@.len() ==> r@[i] == status_glyph(
                commits@[i],
                runners@.contains(i as usize),
            ),
{
    let mut r: Vec<u8> = Vec::new();
    let n = commits.len();
    let mut i: usize = 0;
    while i < n
        invariant
            i <= n,
            n == commits@.len(),
            r@.len() == i,
            forall|m: int|
                0 <= m < i ==> r@[m] == status_glyph(commits@[m], runners@.contains(m as usize)),
        decreases n - i,
    {
        let running = slice_contains(runners.as_slice(), i);
        let glyph: u8 = if running {
            82u8
        } else {
            match commits[i] {
                Status::Good => 71u8,
                Status::Bad => 66u8,
                Status::Skip => 83u8,
                Status::Unknown => 46u8,
            }
        };
        r.push(glyph);
        i += 1;
    }
    r
}

} // verus!
