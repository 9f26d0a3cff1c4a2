//! The parallel bisection scheduler: commit statuses, the uncertain range,
//! runner invalidation, the allocation strategies and the step engine.

use vstd::prelude::*;
use vstd::arithmetic::div_mod::lemma_fundamental_div_mod;
use vstd::arithmetic::div_mod::lemma_mod_bound;
use vstd::arithmetic::mul::lemma_mul_inequality;
use vstd::arithmetic::mul::lemma_mul_strict_inequality;
use vstd::seq_lib::seq_to_set_is_finite;
use vstd::set_lib::lemma_len_subset;
use vstd::slice::slice_index_get;
use vstd::slice::slice_subrange;

verus! {

/// Outcome of testing one commit. `Unknown` means not yet tested.
#[derive(PartialEq, Eq, Clone, Copy, Debug, Hash, Structural)]
pub enum Status {
    Good,
    Bad,
    Skip,
    Unknown,
}

/// A commit: an opaque identifier together with what is known about it.
#[derive(Debug, Clone)]
pub struct CommitState {
    pub hash: String,
    pub status: Status,
}

/// The runner assignment: which commit each live runner is testing, when it
/// started, and the fixed capacity. Start times are opaque clock samples
/// supplied by the driver; the scheduler stores them and never interprets
/// them.
#[derive(Debug)]
pub struct Runners {
    /// Runner to commit mapping
    pub commits: Vec<usize>,
    /// Runner start time
    pub start_times: Vec<u64>,
    pub total: usize,
}

/// The whole scheduler state: the commit sequence, the runner assignment,
/// the advisory log of completed-job runtimes, and the bookend flag fixed at
/// construction.
#[derive(Debug)]
pub struct State {
    pub runtime_samples: Vec<u64>,
    pub commits: Vec<CommitState>,
    pub runners: Runners,
    pub check_bookends: bool,
}

/// The per-commit statuses, viewed as a sequence.
pub open spec fn statuses(commits: Seq<CommitState>) -> Seq<Status> {
    commits.map_values(|c: CommitState| c.status)
}

/// Start of the uncertain range: one past the newest `Good` commit, or 0
/// when no commit is known good. The scan runs from the newest end, so an
/// interior `Good` shadows older ones.
pub open spec fn range_start(sts: Seq<Status>) -> int
    decreases sts.len(),
{
    if sts.len() == 0 {
        0
    } else if sts.last() == Status::Good {
        sts.len() as int
    } else {
        range_start(sts.drop_last())
    }
}

/// First `Bad` commit at position `i` or later, or the length when none is.
pub open spec fn range_end_from(sts: Seq<Status>, i: int) -> int
    decreases sts.len() - i,
{
    if i < 0 || i >= sts.len() {
        sts.len() as int
    } else if sts[i] == Status::Bad {
        i
    } else {
        range_end_from(sts, i + 1)
    }
}

/// End of the uncertain range: the oldest `Bad` commit, or the length when
/// no commit is known bad.
pub open spec fn range_end(sts: Seq<Status>) -> int {
    range_end_from(sts, 0)
}

/// Length of the uncertain range; empty when the scan bounds have crossed.
pub open spec fn range_len(sts: Seq<Status>) -> int {
    if range_end(sts) >= range_start(sts) {
        range_end(sts) - range_start(sts)
    } else {
        0
    }
}

/// `range_start` stays within the sequence, and marks the newest `Good`:
/// everything at or after it is not `Good`, and the commit just before it
/// (when there is one) is `Good`.
pub proof fn lemma_range_start_bounds(sts: Seq<Status>)
    ensures
        0 <= range_start(sts) <= sts.len(),
        forall|j: int| range_start(sts) <= j < sts.len() ==> sts[j] != Status::Good,
        range_start(sts) > 0 ==> sts[range_start(sts) - 1] == Status::Good,
    decreases sts.len(),
{
    if sts.len() == 0 {
    } else if sts.last() == Status::Good {
    } else {
        lemma_range_start_bounds(sts.drop_last());
        assert(forall|j: int| 0 <= j < sts.len() - 1 ==> sts.drop_last()[j] == sts[j]);
    }
}

/// `range_end_from` stays within bounds, and marks the oldest `Bad` at or
/// after `i`: everything from `i` up to it is not `Bad`, and the commit at
/// it (when inside the sequence) is `Bad`.
pub proof fn lemma_range_end_bounds(sts: Seq<Status>, i: int)
    requires
        0 <= i <= sts.len(),
    ensures
        i <= range_end_from(sts, i) <= sts.len(),
        forall|j: int| i <= j < range_end_from(sts, i) ==> sts[j] != Status::Bad,
        range_end_from(sts, i) < sts.len() ==> sts[range_end_from(sts, i)] == Status::Bad,
    decreases sts.len() - i,
{
    if i >= sts.len() {
    } else if sts[i] == Status::Bad {
    } else {
        lemma_range_end_bounds(sts, i + 1);
    }
}

/// Whether a runner testing commit `r` is still worth running after the
/// commit at `index` reported `status`. A `Good` at `index` proves every
/// commit at or below it good; a `Bad` proves every commit at or above it
/// bad; a `Skip` only rules out `index` itself; `Unknown` rules out nothing.
pub open spec fn runner_survives(index: usize, status: Status, r: usize) -> bool {
    match status {
        Status::Good => r > index,
        Status::Bad => r < index,
        Status::Skip => r != index,
        Status::Unknown => true,
    }
}

/// The runners that survive the report at `index`, in their original order.
pub open spec fn surviving(runners: Seq<usize>, index: usize, status: Status) -> Seq<usize> {
    runners.filter(|r: usize| runner_survives(index, status, r))
}

/// The runners the report at `index` invalidates, in their original order.
pub open spec fn invalidated(runners: Seq<usize>, index: usize, status: Status) -> Seq<usize> {
    runners.filter(|r: usize| !runner_survives(index, status, r))
}

/// The start times of the runners that survive the report at `index`, in
/// the order `surviving` lists those runners: the two vectors are
/// partitioned in parallel, so a surviving runner keeps the start time it
/// had.
pub open spec fn surviving_start_times(
    runners: Seq<usize>,
    times: Seq<u64>,
    index: usize,
    status: Status,
) -> Seq<u64>
    decreases runners.len(),
{
    if runners.len() == 0 || times.len() == 0 {
        Seq::empty()
    } else if runner_survives(index, status, runners.last()) {
        surviving_start_times(runners.drop_last(), times.drop_last(), index, status).push(
            times.last(),
        )
    } else {
        surviving_start_times(runners.drop_last(), times.drop_last(), index, status)
    }
}

/// There is one surviving start time per surviving runner.
pub proof fn lemma_surviving_lens(runners: Seq<usize>, times: Seq<u64>, index: usize, status: Status)
    requires
        runners.len() == times.len(),
    ensures
        surviving_start_times(runners, times, index, status).len() == surviving(
            runners,
            index,
            status,
        ).len(),
    decreases runners.len(),
{
    reveal(Seq::filter);
    if runners.len() > 0 {
        lemma_surviving_lens(runners.drop_last(), times.drop_last(), index, status);
    }
}

/// Extending the runner sequence by one runner extends the surviving and
/// invalidated partitions by that runner on the matching side.
proof fn lemma_partition_push(s: Seq<usize>, x: usize, index: usize, status: Status)
    ensures
        surviving(s.push(x), index, status) == if runner_survives(index, status, x) {
            surviving(s, index, status).push(x)
        } else {
            surviving(s, index, status)
        },
        invalidated(s.push(x), index, status) == if !runner_survives(index, status, x) {
            invalidated(s, index, status).push(x)
        } else {
            invalidated(s, index, status)
        },
{
    reveal(Seq::filter);
    assert(s.push(x).drop_last() =~= s);
}

/// Partition the live runners by a reported result: the first vector keeps
/// the runners still worth running, the second the ones to cancel.
pub fn invalidate_runners(runners: &Vec<usize>, index: usize, status: Status) -> (r: (
    Vec<usize>,
    Vec<usize>,
))
    ensures
        r.0@ == surviving(runners@, index, status),
        r.1@ == invalidated(runners@, index, status),
        forall|k: int| 0 <= k < r.0@.len() ==> runners@.contains(r.0@[k]),
        forall|k: int| 0 <= k < r.0@.len() ==> runner_survives(index, status, r.0@[k]),
        r.0@.len() <= runners@.len(),
        runners@.no_duplicates() ==> r.0@.no_duplicates(),
{
    let mut valid: Vec<usize> = Vec::new();
    let mut invalid: Vec<usize> = Vec::new();
    let mut i: usize = 0;
    while i < runners.len()
        invariant
            i <= runners.len(),
            valid@ == surviving(runners@.take(i as int), index, status),
            invalid@ == invalidated(runners@.take(i as int), index, status),
            forall|k: int| 0 <= k < valid@.len() ==> runners@.take(i as int).contains(valid@[k]),
            forall|k: int| 0 <= k < valid@.len() ==> runner_survives(index, status, valid@[k]),
            valid@.len() <= i,
            runners@.no_duplicates() ==> valid@.no_duplicates(),
        decreases runners.len() - i,
    {
        let x = runners[i];
        let keep = match status {
            Status::Good => x > index,
            Status::Bad => x < index,
            Status::Skip => x != index,
            Status::Unknown => true,
        };
        proof {
            lemma_partition_push(runners@.take(i as int), x, index, status);
            assert(runners@.take(i as int + 1) =~= runners@.take(i as int).push(x));
            assert(keep == runner_survives(index, status, x));
            if runners@.no_duplicates() && keep {
                // the element about to be kept is new to the prefix, so
                // appending it preserves distinctness
                assert(!runners@.take(i as int).contains(x)) by {
                    assert(forall|k: int|
                        0 <= k < i ==> runners@.take(i as int)[k] == runners@[k]);
                }
                assert(forall|k: int|
                    0 <= k < valid@.len() ==> valid@[k] != x);
            }
        }
        if keep {
            valid.push(x);
        } else {
            invalid.push(x);
        }
        proof {
            assert(runners@.take(i as int + 1)[i as int] == x);
            assert(forall|k: int| 0 <= k < i ==> runners@.take(i as int + 1)[k] == runners@.take(
                i as int,
            )[k]);
            assert forall|k: int| 0 <= k < valid@.len() implies runners@.take(i as int + 1).contains(
                valid@[k],
            ) by {
                if k < valid@.len() - 1 || !keep {
                    let j = choose|j: int|
                        0 <= j < i && runners@.take(i as int)[j] == valid@[k];
                    assert(runners@.take(i as int + 1)[j] == valid@[k]);
                }
            }
        }
        i += 1;
    }
    proof {
        assert(runners@.take(runners@.len() as int) =~= runners@);
    }
    (valid, invalid)
}

/// Number of entries of `s` strictly below `x`.
pub open spec fn count_lt(s: Seq<usize>, x: int) -> int {
    s.filter(|e: usize| (e as int) < x).len() as int
}

/// Raising the bound by one counts one more entry exactly when the bound
/// itself occurs in the (duplicate-free) sequence.
proof fn lemma_count_lt_step(s: Seq<usize>, x: usize)
    requires
        s.no_duplicates(),
    ensures
        count_lt(s, x as int + 1) == count_lt(s, x as int) + if s.contains(x) {
            1int
        } else {
            0int
        },
    decreases s.len(),
{
    reveal(Seq::filter);
    if s.len() == 0 {
        assert(!s.contains(x));
    } else {
        let a = s.drop_last();
        let l = s.last();
        assert(a.no_duplicates()) by {
            assert(forall|i: int| 0 <= i < a.len() ==> a[i] == s[i]);
        }
        lemma_count_lt_step(a, x);
        if l == x {
            assert(!a.contains(x)) by {
                assert(forall|i: int| 0 <= i < a.len() ==> a[i] == s[i]);
            }
            assert(s.contains(x)) by {
                assert(s[s.len() - 1] == x);
            }
        } else {
            assert(s.contains(x) == a.contains(x)) by {
                assert(forall|i: int| 0 <= i < a.len() ==> a[i] == s[i]);
                if s.contains(x) {
                    let i = choose|i: int| 0 <= i < s.len() && s[i] == x;
                    assert(a[i] == x);
                }
            }
        }
    }
}

/// With every entry below the bound, the count is the whole length.
proof fn lemma_count_lt_all(s: Seq<usize>, x: int)
    requires
        forall|k: int| 0 <= k < s.len() ==> (s[k] as int) < x,
    ensures
        count_lt(s, x) == s.len(),
    decreases s.len(),
{
    reveal(Seq::filter);
    if s.len() > 0 {
        let a = s.drop_last();
        assert(forall|i: int| 0 <= i < a.len() ==> a[i] == s[i]);
        lemma_count_lt_all(a, x);
    }
}

/// With every entry at or above the bound, the count is zero.
proof fn lemma_count_lt_none(s: Seq<usize>, x: int)
    requires
        forall|k: int| 0 <= k < s.len() ==> (s[k] as int) >= x,
    ensures
        count_lt(s, x) == 0,
    decreases s.len(),
{
    reveal(Seq::filter);
    if s.len() > 0 {
        let a = s.drop_last();
        assert(forall|i: int| 0 <= i < a.len() ==> a[i] == s[i]);
        lemma_count_lt_none(a, x);
    }
}

/// Number of unallocated indices in `[start, x)`.
pub open spec fn free_below(existing: Seq<usize>, start: int, x: int) -> int
    decreases x - start,
{
    if x <= start {
        0
    } else {
        free_below(existing, start, x - 1) + if existing.contains((x - 1) as usize) {
            0int
        } else {
            1int
        }
    }
}

/// Widening the window can only add free indices.
proof fn lemma_free_below_mono(existing: Seq<usize>, start: int, x: int, y: int)
    requires
        start <= x <= y,
    ensures
        free_below(existing, start, x) <= free_below(existing, start, y),
    decreases y - x,
{
    if x < y {
        lemma_free_below_mono(existing, start, x, y - 1);
    }
}

/// The free count is the window size minus the allocated entries in it.
proof fn lemma_free_below_count(existing: Seq<usize>, start: int, x: int)
    requires
        start <= x <= usize::MAX + 1,
        0 <= start,
        existing.no_duplicates(),
        forall|k: int| 0 <= k < existing.len() ==> (existing[k] as int) >= start,
    ensures
        free_below(existing, start, x) == (x - start) - count_lt(existing, x),
    decreases x - start,
{
    if x == start {
        lemma_count_lt_none(existing, start);
    } else {
        lemma_free_below_count(existing, start, x - 1);
        lemma_count_lt_step(existing, (x - 1) as usize);
    }
}

/// Contiguous packing: `x` is chosen exactly when it is a free index of the
/// slice preceded by fewer free indices than there is budget left.
pub open spec fn packed_choice(
    existing: Seq<usize>,
    start: usize,
    len: int,
    budget: int,
    x: usize,
) -> bool {
    &&& start <= x
    &&& (x as int) < start + len
    &&& !existing.contains(x)
    &&& free_below(existing, start as int, x as int) < budget
}

/// Whether the slice holds `x`.
pub(crate) fn slice_contains(s: &[usize], x: usize) -> (r: bool)
    ensures
        r == s@.contains(x),
{
    let n = s.len();
    let mut i: usize = 0;
    while i < n
        invariant
            i <= n,
            n == s@.len(),
            forall|k: int| 0 <= k < i ==> s@[k] != x,
        decreases n - i,
    {
        if *slice_index_get(s, i) == x {
            assert(s@.contains(x)) by {
                assert(s@[i as int] == x);
            }
            return true;
        }
        i += 1;
    }
    false
}

/// Every index of `[start, end)` not already allocated, in ascending order.
/// This is the exhaustive-fill fast path shared by the allocators; the
/// length bookkeeping shows the result fits any budget the slice fits.
fn fill_all(start: usize, end: usize, existing: &[usize]) -> (r: Vec<usize>)
    requires
        start <= end,
        existing@.no_duplicates(),
        forall|k: int| 0 <= k < existing@.len() ==> (start <= existing@[k] && (existing@[k] as int) < end),
    ensures
        r@.no_duplicates(),
        forall|k: int| 0 <= k < r@.len() ==> (start <= r@[k] && r@[k] < end),
        forall|k: int| 0 <= k < r@.len() ==> !existing@.contains(r@[k]),
        forall|x: usize| start <= x && x < end && !existing@.contains(x) ==> r@.contains(x),
        r@.len() + existing@.len() == end - start,
{
    let mut r: Vec<usize> = Vec::new();
    let mut x = start;
    proof {
        lemma_count_lt_none(existing@, start as int);
    }
    while x < end
        invariant
            start <= x <= end,
            existing@.no_duplicates(),
            forall|k: int| 0 <= k < existing@.len() ==> (start <= existing@[k] && (existing@[k] as int) < end),
            forall|k: int| 0 <= k < r@.len() ==> (start <= r@[k] && r@[k] < x),
            forall|k: int| 0 <= k < r@.len() ==> !existing@.contains(r@[k]),
            forall|y: usize| start <= y && y < x && !existing@.contains(y) ==> r@.contains(y),
            r@.no_duplicates(),
            r@.len() + count_lt(existing@, x as int) == x - start,
        decreases end - x,
    {
        proof {
            lemma_count_lt_step(existing@, x);
        }
        let ghost r_old = r@;
        if !slice_contains(existing, x) {
            proof {
                assert(!r@.contains(x));
            }
            r.push(x);
        }
        proof {
            assert forall|y: usize|
                start <= y && (y as int) < x as int + 1 && !existing@.contains(y) implies r@.contains(
                y,
            ) by {
                if y == x {
                    assert(r@[r@.len() - 1] == x);
                } else {
                    let j = choose|j: int| 0 <= j < r_old.len() && r_old[j] == y;
                    assert(r@[j] == y);
                }
            }
        }
        x += 1;
    }
    proof {
        lemma_count_lt_all(existing@, end as int);
    }
    r
}

/// What every allocation strategy may assume: the surviving allocation is
/// duplicate-free, fits the budget, and lies inside the uncertain slice,
/// whose end fits the machine word.
pub open spec fn alloc_pre(total: usize, existing: Seq<usize>, start: usize, len: int) -> bool {
    &&& existing.no_duplicates()
    &&& existing.len() <= total
    &&& start + len <= usize::MAX
    &&& total < usize::MAX
    &&& forall|k: int|
        0 <= k < existing.len() ==> (start <= existing[k] && (existing[k] as int) < start + len)
}

/// What every allocation strategy guarantees, writing `r` for the chosen
/// indices:
/// - range respect: every chosen index lies in the uncertain slice;
/// - disjointness: no chosen index is already allocated, and none repeats;
/// - capacity: old and new allocations together fit the budget;
/// - exhaustive fill: when the slice fits the budget, every unallocated
///   index of the slice is chosen;
/// - exact yield: as many indices are chosen as free budget and free slice
///   positions allow, namely the smaller of `total` and `len` minus what is
///   already allocated;
/// - bookend respect: a single idle runner asked to check bookends over a
///   slice that starts at the very first commit is pinned to index 0.
pub open spec fn alloc_post(
    total: usize,
    existing: Seq<usize>,
    start: usize,
    len: int,
    check_bookends: bool,
    r: Seq<usize>,
) -> bool {
    &&& forall|k: int| 0 <= k < r.len() ==> (start <= r[k] && (r[k] as int) < start + len)
    &&& forall|k: int| 0 <= k < r.len() ==> !existing.contains(r[k])
    &&& r.no_duplicates()
    &&& existing.len() + r.len() <= total
    &&& len <= total ==> (forall|x: usize|
        start <= x && (x as int) < start + len && !existing.contains(x) ==> r.contains(x))
    &&& r.len() == (if len <= total as int {
        len
    } else {
        total as int
    }) - existing.len()
    &&& (check_bookends && total == 1 && start == 0 && existing.len() == 0 && len > 1)
        ==> r.contains(0usize)
}

/// An allocation strategy: given the runner budget, the commit indices the
/// surviving runners already hold, and the uncertain slice, choose which
/// commit indices to schedule next. Callers treat the result as a set: its
/// order carries no meaning.
pub trait Allocator {
    fn alloc_runners(
        runners: usize,
        existing_alloc: &[usize],
        bisection_range: (usize, &[CommitState]),
        check_bookends: bool,
    ) -> (r: Vec<usize>)
        requires
            alloc_pre(runners, existing_alloc@, bisection_range.0, bisection_range.1@.len() as int),
        ensures
            alloc_post(
                runners,
                existing_alloc@,
                bisection_range.0,
                bisection_range.1@.len() as int,
                check_bookends,
                r@,
            ),
    ;
}

/// The baseline strategy: fill the uncertain slice contiguously from its
/// lower bound.
pub struct DumbAllocator;

impl Allocator for DumbAllocator {
    /// Beyond the shared strategy contract, this implementation packs
    /// contiguously: outside the pinned-bookend case, the chosen indices
    /// are exactly the lowest free indices of the slice, as many as the
    /// budget allows.
    fn alloc_runners(
        runners: usize,
        existing_alloc: &[usize],
        bisection_range: (usize, &[CommitState]),
        check_bookends: bool,
    ) -> (r: Vec<usize>)
        ensures
            !(check_bookends && runners == 1 && bisection_range.0 == 0 && existing_alloc@.len()
                == 0 && bisection_range.1@.len() > 1) ==> forall|x: usize|
                r@.contains(x) <==> packed_choice(
                    existing_alloc@,
                    bisection_range.0,
                    bisection_range.1@.len() as int,
                    runners - existing_alloc@.len(),
                    x,
                ),
    {
        let len = bisection_range.1.len();
        let mut bounds_start = bisection_range.0;
        let bounds_end = bisection_range.0 + len;
        if len <= runners {
            // We can allocate everything!
            let r = fill_all(bounds_start, bounds_end, existing_alloc);
            proof {
                lemma_free_below_count(existing_alloc@, bounds_start as int, bounds_end as int);
                lemma_count_lt_all(existing_alloc@, bounds_end as int);
                assert forall|x: usize|
                    r@.contains(x) <==> packed_choice(
                        existing_alloc@,
                        bisection_range.0,
                        bisection_range.1@.len() as int,
                        runners - existing_alloc@.len(),
                        x,
                    ) by {
                    if bounds_start <= x && x < bounds_end && !existing_alloc@.contains(x) {
                        // a free index inside the slice is preceded by
                        // strictly fewer free indices than the slice holds
                        assert(free_below(existing_alloc@, bounds_start as int, x as int + 1)
                            == free_below(existing_alloc@, bounds_start as int, x as int) + 1);
                        lemma_free_below_mono(
                            existing_alloc@,
                            bounds_start as int,
                            x as int + 1,
                            bounds_end as int,
                        );
                    }
                }
            }
            return r;
        }
        let mut new_runners: Vec<usize> = Vec::new();
        let mut to_allocate = runners - existing_alloc.len();
        let ghost budget = to_allocate;
        let ghost bookended = check_bookends && runners == 1 && bisection_range.0 == 0
            && to_allocate > 0;
        // If runners are >= 2, then the bounds would already be scheduled.
        if check_bookends && runners == 1 && bisection_range.0 == 0 && to_allocate > 0 {
            // a positive budget with a single runner means nothing survives,
            // so index 0 is free to pin
            assert(existing_alloc@.len() == 0);
            new_runners.push(0);
            bounds_start = 1;
            to_allocate -= 1;
        }
        // Dumbly assign the next free indices in ascending order.
        let mut x = bounds_start;
        proof {
            if !bookended {
                lemma_count_lt_none(existing_alloc@, bounds_start as int);
            }
        }
        while x < bounds_end && to_allocate > 0
            invariant
                bisection_range.0 <= bounds_start <= x <= bounds_end,
                bounds_end == bisection_range.0 + len,
                len == bisection_range.1@.len(),
                runners < len,
                existing_alloc@.len() <= runners,
                existing_alloc@.no_duplicates(),
                forall|k: int|
                    0 <= k < existing_alloc@.len() ==> (bisection_range.0 <= existing_alloc@[k]
                        && (existing_alloc@[k] as int) < bisection_range.0 + len),
                budget == runners - existing_alloc@.len(),
                new_runners@.len() + to_allocate == budget,
                !bookended ==> (bounds_start == bisection_range.0 && new_runners@.len()
                    + count_lt(existing_alloc@, x as int) == x - bounds_start),
                bookended ==> to_allocate == 0,
                forall|k: int|
                    0 <= k < new_runners@.len() ==> (bisection_range.0 <= new_runners@[k]
                        && new_runners@[k] < x),
                forall|k: int| 0 <= k < new_runners@.len() ==> !existing_alloc@.contains(
                    new_runners@[k],
                ),
                new_runners@.no_duplicates(),
                bookended ==> (new_runners@.len() >= 1 && new_runners@[0] == 0),
                (existing_alloc@.len() == 0 && !bookended) ==> new_runners@.len() == x
                    - bounds_start,
                !bookended ==> forall|y: usize| #![trigger new_runners@.contains(y)]
                    new_runners@.contains(y) <==> (bisection_range.0 <= y && y < x
                        && !existing_alloc@.contains(y) && free_below(
                        existing_alloc@,
                        bisection_range.0 as int,
                        y as int,
                    ) < budget),
            decreases bounds_end - x,
        {
            proof {
                lemma_count_lt_step(existing_alloc@, x);
                if !bookended {
                    lemma_free_below_count(existing_alloc@, bisection_range.0 as int, x as int);
                }
            }
            let ghost nr_old = new_runners@;
            if !slice_contains(existing_alloc, x) {
                proof {
                    assert(!new_runners@.contains(x));
                }
                new_runners.push(x);
                to_allocate -= 1;
            }
            proof {
                if !bookended {
                    assert forall|y: usize| #![trigger new_runners@.contains(y)]
                        new_runners@.contains(y) <==> (bisection_range.0 <= y && (y as int) < x
                            as int + 1 && !existing_alloc@.contains(y) && free_below(
                            existing_alloc@,
                            bisection_range.0 as int,
                            y as int,
                        ) < budget) by {
                        assert(nr_old.contains(y) || !nr_old.contains(y));
                        if y == x {
                            if !existing_alloc@.contains(x) {
                                assert(new_runners@[new_runners@.len() - 1] == x);
                            }
                        } else {
                            if new_runners@.contains(y) {
                                let m = choose|m: int|
                                    0 <= m < new_runners@.len() && new_runners@[m] == y;
                                assert(nr_old[m] == y);
                            }
                            if nr_old.contains(y) {
                                let m = choose|m: int| 0 <= m < nr_old.len() && nr_old[m] == y;
                                assert(new_runners@[m] == y);
                            }
                        }
                    }
                }
            }
            x += 1;
        }
        proof {
            if to_allocate > 0 {
                // the scan ran out of slice with budget left: every free
                // index was taken, which contradicts the budget being the
                // scarcer resource here
                assert(x == bounds_end);
                assert(!bookended);
                lemma_count_lt_all(existing_alloc@, bounds_end as int);
                assert(false);
            }
            assert(new_runners@.len() == budget);
            if !bookended {
                lemma_free_below_count(existing_alloc@, bisection_range.0 as int, x as int);
                assert forall|y: usize|
                    new_runners@.contains(y) <==> packed_choice(
                        existing_alloc@,
                        bisection_range.0,
                        bisection_range.1@.len() as int,
                        runners - existing_alloc@.len(),
                        y,
                    ) by {
                    assert(new_runners@.contains(y) || !new_runners@.contains(y));
                    if bisection_range.0 <= y && (y as int) < bisection_range.0 + len && y >= x {
                        // indices past the stopping point already have the
                        // whole budget's worth of free indices before them
                        lemma_free_below_mono(
                            existing_alloc@,
                            bisection_range.0 as int,
                            x as int,
                            y as int,
                        );
                    }
                }
            }
        }
        new_runners
    }
}

/// The shipped strategy: space new runners evenly across the free indices
/// of the uncertain slice; collisions fall back to a greedy ascending fill.
pub struct BasicAllocator;

impl Allocator for BasicAllocator {
    /// Beyond the shared strategy contract, this implementation spaces its
    /// picks evenly: with no surviving allocation, no pinned bookend, a
    /// slice larger than the budget and a positive spacing, the chosen
    /// indices are exactly the equally spaced interior positions of the
    /// slice (the same spacing rule `initial_interior` states).
    fn alloc_runners(
        runners: usize,
        existing_alloc: &[usize],
        bisection_range: (usize, &[CommitState]),
        check_bookends: bool,
    ) -> (r: Vec<usize>)
        ensures
            (existing_alloc@.len() == 0 && !(check_bookends && runners == 1 && bisection_range.0
                == 0) && bisection_range.1@.len() > runners && bisection_range.1@.len() as int / (
            runners as int + 1) >= 1) ==> forall|x: usize|
                r@.contains(x) <==> initial_interior(
                    bisection_range.0 as int,
                    bisection_range.0 + bisection_range.1@.len(),
                    runners as int,
                ).contains(x as int),
    {
        let len = bisection_range.1.len();
        let mut bounds_start = bisection_range.0;
        let mut bounds_end = bisection_range.0 + len;
        if len <= runners {
            // We can allocate everything!
            return fill_all(bounds_start, bounds_end, existing_alloc);
        }
        let mut new_runners: Vec<usize> = Vec::new();
        let mut to_allocate = runners - existing_alloc.len();
        let ghost budget = to_allocate;
        let ghost bookended = check_bookends && runners == 1 && bisection_range.0 == 0
            && to_allocate > 0;
        // If runners are >= 2, then the bounds would already be scheduled.
        if check_bookends && runners == 1 && bisection_range.0 == 0 && to_allocate > 0 {
            // a positive budget with a single runner means nothing survives,
            // so index 0 is free to pin
            assert(existing_alloc@.len() == 0);
            new_runners.push(0);
            bounds_start = 1;
            bounds_end -= 1;
            to_allocate -= 1;
        }
        let ghost spaced = existing_alloc@.len() == 0 && !(check_bookends && runners == 1
            && bisection_range.0 == 0) && len > runners && (len as int) / (runners as int + 1)
            >= 1;
        // The free indices of the working slice, in ascending order.
        let mut valid_additions: Vec<usize> = Vec::new();
        let mut x = bounds_start;
        proof {
            lemma_count_lt_none(existing_alloc@, bounds_start as int);
        }
        while x < bounds_end
            invariant
                bounds_start <= x <= bounds_end,
                existing_alloc@.no_duplicates(),
                forall|k: int|
                    0 <= k < valid_additions@.len() ==> (bounds_start <= valid_additions@[k]
                        && valid_additions@[k] < x),
                forall|k: int| 0 <= k < valid_additions@.len() ==> !existing_alloc@.contains(
                    valid_additions@[k],
                ),
                valid_additions@.no_duplicates(),
                valid_additions@.len() <= x - bounds_start,
                valid_additions@.len() + count_lt(existing_alloc@, x as int) == x - bounds_start
                    + count_lt(existing_alloc@, bounds_start as int),
            decreases bounds_end - x,
        {
            proof {
                lemma_count_lt_step(existing_alloc@, x);
            }
            if !slice_contains(existing_alloc, x) {
                proof {
                    assert(!valid_additions@.contains(x));
                }
                valid_additions.push(x);
            }
            x += 1;
        }
        proof {
            // with the whole working slice scanned, the free-index count is
            // the slice length minus the surviving allocation inside it
            if !bookended {
                lemma_count_lt_none(existing_alloc@, bounds_start as int);
                lemma_count_lt_all(existing_alloc@, bounds_end as int);
                assert(valid_additions@.len() == (bounds_end - bounds_start)
                    - existing_alloc@.len());
            }
        }
        // Space new runners out equally over the range.
        let spacing = valid_additions.len() / (to_allocate + 1);
        proof {
            if to_allocate > 0 {
                lemma_fundamental_div_mod(
                    valid_additions@.len() as int,
                    to_allocate as int + 1,
                );
                lemma_mod_bound(valid_additions@.len() as int, to_allocate as int + 1);
            }
        }
        let ghost vlen = valid_additions@.len() as int;
        let mut k: usize = 0;
        while k < to_allocate
            invariant
                0 <= k <= to_allocate,
                vlen == valid_additions@.len(),
                vlen <= bounds_end - bounds_start,
                spacing as int == vlen / (to_allocate as int + 1),
                to_allocate > 0 ==> (to_allocate as int + 1) * spacing as int <= vlen,
                to_allocate > 0 ==> !bookended,
                !bookended ==> bounds_start == bisection_range.0 && bounds_end == bisection_range.0
                    + len,
                bookended ==> (bisection_range.0 == 0 && new_runners@.len() >= 1
                    && new_runners@[0] == 0 && existing_alloc@.len() == 0),
                len == bisection_range.1@.len(),
                runners < len,
                existing_alloc@.len() <= runners,
                budget == runners - existing_alloc@.len(),
                to_allocate <= budget,
                new_runners@.len() <= budget - to_allocate + k,
                forall|j: int|
                    0 <= j < new_runners@.len() ==> (bisection_range.0 <= new_runners@[j] && (
                    new_runners@[j] as int) < bisection_range.0 + len),
                forall|j: int| 0 <= j < new_runners@.len() ==> !existing_alloc@.contains(
                    new_runners@[j],
                ),
                new_runners@.no_duplicates(),
                bookended ==> (new_runners@.len() >= 1 && new_runners@[0] == 0),
                (existing_alloc@.len() == 0 && k > 0) ==> new_runners@.len() >= 1,
                spaced ==> (existing_alloc@.len() == 0 && !bookended && vlen == len
                    && to_allocate == runners && spacing as int == (len as int) / (runners as int
                    + 1) && spacing >= 1 && new_runners@.len() == k),
                spaced ==> forall|y: usize| #![trigger new_runners@.contains(y)]
                    new_runners@.contains(y) <==> interior_prefix(
                        bisection_range.0 as int,
                        bisection_range.0 + len,
                        runners as int,
                        k as int,
                    ).contains(y as int),
            decreases to_allocate - k,
        {
            proof {
                lemma_mul_inequality(k as int + 1, to_allocate as int + 1, spacing as int);
                assert((k as int + 1) * spacing as int == k as int * spacing as int + spacing
                    as int) by (nonlinear_arith);
                if spacing > 0 {
                    lemma_mul_inequality(k as int + 1, to_allocate as int, spacing as int);
                    assert(to_allocate as int * spacing as int + spacing as int == (to_allocate
                        as int + 1) * spacing as int) by (nonlinear_arith);
                }
            }
            let cand = k * spacing + spacing;
            let idx = bounds_start + cand;
            proof {
                if spacing == 0 {
                    assert(k as int * 0 == 0) by (nonlinear_arith);
                }
            }
            let ghost nr_old = new_runners@;
            proof {
                if spaced {
                    let lo = bisection_range.0 as int;
                    let hi = bisection_range.0 + len;
                    let s2 = (hi - lo) / (runners as int + 1);
                    lemma_interior_prefix_step(lo, hi, runners as int, k as int);
                    assert(s2 == spacing as int);
                    assert(idx as int == (k as int) * s2 + s2 + lo);
                    // the spaced picks are pairwise distinct, so this one is
                    // not yet allocated and will be pushed
                    if interior_prefix(lo, hi, runners as int, k as int).contains(idx as int) {
                        let j = choose|j: int|
                            0 <= j < k && idx as int == #[trigger] (j * ((hi - lo) / (runners
                                as int + 1))) + (hi - lo) / (runners as int + 1) + lo;
                        assert(s2 >= 1);
                        assert(0 <= j < k);
                        lemma_mul_strict_inequality(j + 1, k as int + 1, s2);
                        assert((j + 1) * s2 == j * s2 + s2) by (nonlinear_arith);
                        assert((k as int + 1) * s2 == k as int * s2 + s2) by (nonlinear_arith);
                        assert(false);
                    }
                    assert(!nr_old.contains(idx));
                }
            }
            if !slice_contains(existing_alloc, idx) && !slice_contains(
                new_runners.as_slice(),
                idx,
            ) {
                new_runners.push(idx);
            }
            proof {
                if spaced {
                    let lo = bisection_range.0 as int;
                    let hi = bisection_range.0 + len;
                    assert(new_runners@ =~= nr_old.push(idx));
                    assert forall|y: usize| #![trigger new_runners@.contains(y)]
                        new_runners@.contains(y) <==> interior_prefix(
                            lo,
                            hi,
                            runners as int,
                            k as int + 1,
                        ).contains(y as int) by {
                        assert(nr_old.contains(y) || !nr_old.contains(y));
                        if new_runners@.contains(y) {
                            let m = choose|m: int|
                                0 <= m < new_runners@.len() && new_runners@[m] == y;
                            if m < nr_old.len() {
                                assert(nr_old[m] == y);
                            } else {
                                assert(y == idx);
                            }
                        }
                        if nr_old.contains(y) {
                            let m = choose|m: int| 0 <= m < nr_old.len() && nr_old[m] == y;
                            assert(new_runners@[m] == y);
                        }
                        if y == idx {
                            assert(new_runners@[new_runners@.len() - 1] == idx);
                        }
                    }
                }
            }
            k += 1;
        }
        proof {
            if spaced {
                assert(k == to_allocate && to_allocate == runners);
                assert forall|y: usize| #![trigger new_runners@.contains(y)]
                    new_runners@.contains(y) <==> interior_prefix(
                        bisection_range.0 as int,
                        bisection_range.0 + len,
                        runners as int,
                        runners as int,
                    ).contains(y as int) by {
                    assert(new_runners@.contains(y) || !new_runners@.contains(y));
                }
            }
        }
        // If collisions reduced the yield, greedily fill the remainder in
        // ascending order.
        let mut remaining = runners - existing_alloc.len() - new_runners.len();
        let ghost entry_len = new_runners@.len();
        let mut i: usize = 0;
        while i < valid_additions.len() && remaining > 0
            invariant
                0 <= i <= valid_additions@.len(),
                new_runners@.len() + remaining == budget,
                budget == runners - existing_alloc@.len(),
                runners < len,
                valid_additions@.no_duplicates(),
                !bookended ==> valid_additions@.len() == len - existing_alloc@.len(),
                forall|m: int| 0 <= m < i ==> new_runners@.contains(valid_additions@[m]),
                forall|k2: int|
                    0 <= k2 < valid_additions@.len() ==> (bisection_range.0
                        <= valid_additions@[k2] && (valid_additions@[k2] as int)
                        < bisection_range.0 + len),
                forall|k2: int| 0 <= k2 < valid_additions@.len() ==> !existing_alloc@.contains(
                    valid_additions@[k2],
                ),
                len == bisection_range.1@.len(),
                forall|j: int|
                    0 <= j < new_runners@.len() ==> (bisection_range.0 <= new_runners@[j] && (
                    new_runners@[j] as int) < bisection_range.0 + len),
                forall|j: int| 0 <= j < new_runners@.len() ==> !existing_alloc@.contains(
                    new_runners@[j],
                ),
                new_runners@.no_duplicates(),
                new_runners@.len() >= entry_len,
                bookended ==> (new_runners@.len() >= 1 && new_runners@[0] == 0),
                spaced ==> remaining == 0,
                spaced ==> forall|y: usize| #![trigger new_runners@.contains(y)]
                    new_runners@.contains(y) <==> interior_prefix(
                        bisection_range.0 as int,
                        bisection_range.0 + len,
                        runners as int,
                        runners as int,
                    ).contains(y as int),
            decreases valid_additions@.len() - i,
        {
            let v = valid_additions[i];
            let ghost nr_old = new_runners@;
            if !slice_contains(new_runners.as_slice(), v) {
                new_runners.push(v);
                remaining -= 1;
            }
            proof {
                assert forall|m: int| 0 <= m < i + 1 implies new_runners@.contains(
                    valid_additions@[m],
                ) by {
                    if m == i && !nr_old.contains(v) {
                        assert(new_runners@[new_runners@.len() - 1] == v);
                    } else {
                        let j = choose|j: int|
                            0 <= j < nr_old.len() && nr_old[j] == valid_additions@[m];
                        assert(new_runners@[j] == valid_additions@[m]);
                    }
                }
            }
            i += 1;
        }
        proof {
            if remaining > 0 {
                // the greedy fill ran out of free indices with budget left:
                // then every free index is allocated, yet there are more
                // free indices than budget, a contradiction
                assert(i == valid_additions@.len());
                assert(!bookended);
                valid_additions@.unique_seq_to_set();
                new_runners@.unique_seq_to_set();
                seq_to_set_is_finite(new_runners@);
                assert(valid_additions@.to_set().subset_of(new_runners@.to_set())) by {
                    assert forall|a: usize|
                        valid_additions@.to_set().contains(a) implies new_runners@.to_set()
                        .contains(a) by {
                        let m = choose|m: int|
                            0 <= m < valid_additions@.len() && valid_additions@[m] == a;
                        assert(new_runners@.contains(valid_additions@[m]));
                    }
                }
                lemma_len_subset(valid_additions@.to_set(), new_runners@.to_set());
                assert(false);
            }
            assert(new_runners@.len() == budget);
            if spaced {
                assert forall|y: usize|
                    new_runners@.contains(y) <==> initial_interior(
                        bisection_range.0 as int,
                        bisection_range.0 + bisection_range.1@.len(),
                        runners as int,
                    ).contains(y as int) by {
                    assert(new_runners@.contains(y) || !new_runners@.contains(y));
                }
            }
        }
        new_runners
    }
}

/// The first `k` interior positions of an initial allocation that spreads
/// `r` positions at equal integer spacing over the range from `lo` to `hi`.
pub open spec fn interior_prefix(lo: int, hi: int, r: int, k: int) -> Set<int> {
    Set::new(
        |p: int|
            exists|j: int|
                0 <= j < k && p == #[trigger] (j * ((hi - lo) / (r + 1))) + (hi - lo) / (r + 1)
                    + lo,
    )
}

/// The interior of the initial allocation: `r` positions spread at equal
/// integer spacing over the open range between `lo` and `hi`.
pub open spec fn initial_interior(lo: int, hi: int, r: int) -> Set<int> {
    interior_prefix(lo, hi, r, r)
}

/// One more interior position extends the prefix set by exactly the spaced
/// position of index `k`.
proof fn lemma_interior_prefix_step(lo: int, hi: int, r: int, k: int)
    requires
        0 <= k,
    ensures
        interior_prefix(lo, hi, r, k + 1) == interior_prefix(lo, hi, r, k).insert(
            k * ((hi - lo) / (r + 1)) + (hi - lo) / (r + 1) + lo,
        ),
{
    let s = (hi - lo) / (r + 1);
    assert forall|p: int|
        interior_prefix(lo, hi, r, k + 1).contains(p) <==> (interior_prefix(lo, hi, r, k).contains(
            p,
        ) || p == k * s + s + lo) by {
        if interior_prefix(lo, hi, r, k + 1).contains(p) {
            let j = choose|j: int| 0 <= j < k + 1 && p == #[trigger] (j * s) + s + lo;
            if j < k {
                assert(interior_prefix(lo, hi, r, k).contains(p));
            }
        }
        if interior_prefix(lo, hi, r, k).contains(p) {
            let j = choose|j: int| 0 <= j < k && p == #[trigger] (j * s) + s + lo;
            assert(interior_prefix(lo, hi, r, k + 1).contains(p));
        }
        if p == k * s + s + lo {
            assert(interior_prefix(lo, hi, r, k + 1).contains(p));
        }
    }
    assert(interior_prefix(lo, hi, r, k + 1) =~= interior_prefix(lo, hi, r, k).insert(
        k * s + s + lo,
    ));
}

/// The set of commit indices the initial allocation schedules for `c`
/// commits and `t` runners: everything when capacity permits, otherwise the
/// bookends as requested plus equally spaced interior positions. Collapsed
/// collisions make this a set.
pub open spec fn initial_set(c: int, t: int, check_bookends: bool) -> Set<int> {
    if c <= t {
        Set::new(|p: int| 0 <= p < c)
    } else if t == 0 {
        Set::empty()
    } else if check_bookends && t == 1 {
        Set::empty().insert(c - 1)
    } else if check_bookends {
        initial_interior(1, c - 2, t - 2).insert(0).insert(c - 1)
    } else {
        initial_interior(0, c - 1, t)
    }
}

/// Seed the first round of runners over `commits`, optionally pinning the
/// endpoints. Returns the scheduled commit indices; their order carries no
/// meaning.
pub fn initial_alloc(commits: &Vec<String>, runners: usize, check_bookends: bool) -> (r: Vec<
    usize,
>)
    ensures
        r@.no_duplicates(),
        forall|k: int| 0 <= k < r@.len() ==> (r@[k] as int) < commits@.len(),
        forall|x: usize|
            r@.contains(x) <==> initial_set(
                commits@.len() as int,
                runners as int,
                check_bookends,
            ).contains(x as int),
        r@.len() <= runners,
        (commits@.len() >= 1 && runners >= 1) ==> r@.len() >= 1,
{
    let c = commits.len();
    if c <= runners {
        let mut r: Vec<usize> = Vec::new();
        let mut i: usize = 0;
        while i < c
            invariant
                i <= c,
                r@.len() == i,
                forall|k: int| 0 <= k < i ==> r@[k] == k,
                forall|x: usize| r@.contains(x) <==> (x as int) < i,
                r@.no_duplicates(),
            decreases c - i,
        {
            proof {
                assert(!r@.contains(i));
            }
            r.push(i);
            proof {
                assert forall|x: usize| r@.contains(x) <==> (x as int) < i + 1 by {
                    if (x as int) < i + 1 {
                        assert(r@[x as int] == x);
                    } else if r@.contains(x) {
                        let j = choose|j: int| 0 <= j < r@.len() && r@[j] == x;
                    }
                }
            }
            i += 1;
        }
        proof {
            assert forall|x: usize|
                r@.contains(x) <==> initial_set(c as int, runners as int, check_bookends).contains(
                    x as int,
                ) by {
                assert(r@.contains(x) || !r@.contains(x));
            }
        }
        return r;
    }
    if runners == 0 {
        let r: Vec<usize> = Vec::new();
        proof {
            assert forall|x: usize|
                r@.contains(x) <==> initial_set(c as int, runners as int, check_bookends).contains(
                    x as int,
                ) by {
                assert(!r@.contains(x));
            }
        }
        return r;
    }
    let mut lower_bound: usize = 0;
    let mut upper_bound: usize = c - 1;
    let mut to_alloc = runners;
    let mut r: Vec<usize> = Vec::new();
    if check_bookends {
        if to_alloc == 1 {
            r.push(upper_bound);
            upper_bound -= 1;
            to_alloc -= 1;
        } else {
            r.push(lower_bound);
            r.push(upper_bound);
            upper_bound -= 1;
            lower_bound += 1;
            to_alloc -= 2;
        }
    }
    let ghost base: Set<int> = if check_bookends && runners == 1 {
        Set::empty().insert(c as int - 1)
    } else if check_bookends {
        Set::empty().insert(0).insert(c as int - 1)
    } else {
        Set::empty()
    };
    proof {
        assert forall|x: usize| #![trigger r@.contains(x)] r@.contains(x) <==> base.contains(
            x as int,
        ) by {
            if r@.contains(x) {
                let j = choose|j: int| 0 <= j < r@.len() && r@[j] == x;
            }
            if base.contains(x as int) {
                if x as int == 0 && check_bookends && runners != 1 {
                    assert(r@[0] == x);
                } else {
                    assert(r@[r@.len() - 1] == x);
                }
            }
        }
    }
    if to_alloc != 0 {
        let spacing = (upper_bound - lower_bound) / (to_alloc + 1);
        proof {
            lemma_fundamental_div_mod(
                upper_bound as int - lower_bound as int,
                to_alloc as int + 1,
            );
            lemma_mod_bound(upper_bound as int - lower_bound as int, to_alloc as int + 1);
        }
        let mut k: usize = 0;
        while k < to_alloc
            invariant
                0 <= k <= to_alloc,
                to_alloc >= 1,
                lower_bound <= upper_bound < c,
                spacing as int == (upper_bound as int - lower_bound as int) / (to_alloc as int
                    + 1),
                (to_alloc as int + 1) * spacing as int <= upper_bound as int - lower_bound as int,
                forall|j: int| 0 <= j < r@.len() ==> (r@[j] as int) < c,
                r@.no_duplicates(),
                r@.len() <= (runners - to_alloc) + k,
                k > 0 ==> r@.len() >= 1,
                forall|x: usize| #![trigger r@.contains(x)]
                    r@.contains(x) <==> (base.contains(x as int) || interior_prefix(
                        lower_bound as int,
                        upper_bound as int,
                        to_alloc as int,
                        k as int,
                    ).contains(x as int)),
            decreases to_alloc - k,
        {
            proof {
                lemma_mul_inequality(k as int + 1, to_alloc as int + 1, spacing as int);
                assert((k as int + 1) * spacing as int == k as int * spacing as int + spacing
                    as int) by (nonlinear_arith);
            }
            let pos = k * spacing + spacing + lower_bound;
            let ghost r_old = r@;
            if !slice_contains(r.as_slice(), pos) {
                r.push(pos);
            }
            proof {
                lemma_interior_prefix_step(
                    lower_bound as int,
                    upper_bound as int,
                    to_alloc as int,
                    k as int,
                );
                assert(pos as int == (k as int) * ((upper_bound as int - lower_bound as int) / (
                to_alloc as int + 1)) + (upper_bound as int - lower_bound as int) / (to_alloc
                    as int + 1) + lower_bound as int);
                assert forall|x: usize| #![trigger r@.contains(x)]
                    r@.contains(x) <==> (base.contains(x as int) || interior_prefix(
                        lower_bound as int,
                        upper_bound as int,
                        to_alloc as int,
                        k as int + 1,
                    ).contains(x as int)) by {
                    assert(r_old.contains(x) <==> (base.contains(x as int) || interior_prefix(
                        lower_bound as int,
                        upper_bound as int,
                        to_alloc as int,
                        k as int,
                    ).contains(x as int)));
                    if r@.contains(x) {
                        let j = choose|j: int| 0 <= j < r@.len() && r@[j] == x;
                        if j < r_old.len() {
                            assert(r_old[j] == x);
                            assert(r_old.contains(x));
                        } else {
                            assert(x == pos);
                        }
                    }
                    if base.contains(x as int) || interior_prefix(
                        lower_bound as int,
                        upper_bound as int,
                        to_alloc as int,
                        k as int,
                    ).contains(x as int) {
                        assert(r_old.contains(x));
                        let m = choose|m: int| 0 <= m < r_old.len() && r_old[m] == x;
                        assert(r@[m] == x);
                    }
                    if x as int == pos as int && !r_old.contains(pos) {
                        assert(r@[r@.len() - 1] == pos);
                    }
                }
            }
            k += 1;
        }
        proof {
            assert forall|x: usize| #![trigger r@.contains(x)]
                r@.contains(x) <==> initial_set(
                    commits@.len() as int,
                    runners as int,
                    check_bookends,
                ).contains(x as int) by {
                assert(r@.contains(x) <==> (base.contains(x as int) || interior_prefix(
                    lower_bound as int,
                    upper_bound as int,
                    to_alloc as int,
                    k as int,
                ).contains(x as int)));
                if check_bookends {
                    assert(initial_set(
                        commits@.len() as int,
                        runners as int,
                        check_bookends,
                    ) == initial_interior(
                        1,
                        commits@.len() as int - 2,
                        runners as int - 2,
                    ).insert(0).insert(commits@.len() as int - 1));
                    assert(initial_interior(
                        1,
                        commits@.len() as int - 2,
                        runners as int - 2,
                    ) == interior_prefix(
                        lower_bound as int,
                        upper_bound as int,
                        to_alloc as int,
                        to_alloc as int,
                    ));
                } else {
                    assert(initial_set(
                        commits@.len() as int,
                        runners as int,
                        check_bookends,
                    ) == initial_interior(0, commits@.len() as int - 1, runners as int));
                    assert(initial_interior(
                        0,
                        commits@.len() as int - 1,
                        runners as int,
                    ) == interior_prefix(
                        lower_bound as int,
                        upper_bound as int,
                        to_alloc as int,
                        to_alloc as int,
                    ));
                }
                assert(k == to_alloc);
            }
        }
    } else {
        proof {
            assert forall|x: usize| #![trigger r@.contains(x)]
                r@.contains(x) <==> initial_set(
                    commits@.len() as int,
                    runners as int,
                    check_bookends,
                ).contains(x as int) by {
                assert(r@.contains(x) <==> base.contains(x as int));
                if check_bookends && runners >= 2 {
                    assert(forall|p: int| !#[trigger] interior_prefix(
                        1,
                        commits@.len() as int - 2,
                        runners as int - 2,
                        runners as int - 2,
                    ).contains(p));
                }
            }
        }
    }
    r
}

/// Without a `Good` commit the uncertain range starts at 0.
pub proof fn lemma_range_start_no_good(sts: Seq<Status>)
    requires
        forall|j: int| 0 <= j < sts.len() ==> sts[j] != Status::Good,
    ensures
        range_start(sts) == 0,
    decreases sts.len(),
{
    if sts.len() > 0 {
        assert(forall|j: int| 0 <= j < sts.len() - 1 ==> sts.drop_last()[j] == sts[j]);
        lemma_range_start_no_good(sts.drop_last());
    }
}

/// Without a `Bad` commit the uncertain range runs to the end.
pub proof fn lemma_range_end_no_bad(sts: Seq<Status>, i: int)
    requires
        0 <= i <= sts.len(),
        forall|j: int| 0 <= j < sts.len() ==> sts[j] != Status::Bad,
    ensures
        range_end_from(sts, i) == sts.len(),
    decreases sts.len() - i,
{
    if i < sts.len() {
        lemma_range_end_no_bad(sts, i + 1);
    }
}

/// Build the starting scheduler state: every commit `Unknown`, the first
/// round of runners seeded by the initial allocation, all start times zero.
pub fn init(commits: &Vec<String>, runners: usize, check_bookends: bool) -> (r: State)
    ensures
        r.wf(),
        r.commits@.len() == commits@.len(),
        forall|i: int|
            0 <= i < commits@.len() ==> (#[trigger] r.commits@[i]).hash == commits@[i]
                && r.commits@[i].status == Status::Unknown,
        r.runners.total == runners,
        r.check_bookends == check_bookends,
        r.runtime_samples@.len() == 0,
        r.runners.start_times@.len() == r.runners.commits@.len(),
        forall|i: int|
            0 <= i < r.runners.start_times@.len() ==> r.runners.start_times@[i] == 0u64,
        forall|x: usize|
            r.runners.commits@.contains(x) <==> initial_set(
                commits@.len() as int,
                runners as int,
                check_bookends,
            ).contains(x as int),
        r.runners.commits@.len() <= runners,
        (commits@.len() >= 1 && runners >= 1) ==> r.runners.commits@.len() >= 1,
{
    let runner_commits = initial_alloc(commits, runners, check_bookends);
    let mut start_times: Vec<u64> = Vec::new();
    let mut i: usize = 0;
    let rc_len = runner_commits.len();
    while i < rc_len
        invariant
            i <= rc_len,
            start_times@.len() == i,
            forall|j: int| 0 <= j < i ==> start_times@[j] == 0u64,
        decreases rc_len - i,
    {
        start_times.push(0u64);
        i += 1;
    }
    let mut commit_states: Vec<CommitState> = Vec::new();
    let mut j: usize = 0;
    let n = commits.len();
    while j < n
        invariant
            j <= n,
            n == commits@.len(),
            commit_states@.len() == j,
            forall|m: int|
                0 <= m < j ==> (#[trigger] commit_states@[m]).hash == commits@[m]
                    && commit_states@[m].status == Status::Unknown,
        decreases n - j,
    {
        let hash = commits[j].clone();
        commit_states.push(CommitState { hash, status: Status::Unknown });
        j += 1;
    }
    proof {
        assert(forall|m: int|
            0 <= m < commit_states@.len() ==> statuses(commit_states@)[m] != Status::Good
                && statuses(commit_states@)[m] != Status::Bad);
        lemma_range_start_no_good(statuses(commit_states@));
        lemma_range_end_no_bad(statuses(commit_states@), 0);
    }
    State {
        runtime_samples: Vec::new(),
        commits: commit_states,
        runners: Runners { commits: runner_commits, start_times, total: runners },
        check_bookends,
    }
}

/// How a status update at `i` moves the start of the uncertain range:
/// a new `Good` pushes it to just past `i` (or leaves it if already past);
/// removing a `Good` can only pull it back; anything else leaves it alone.
pub proof fn lemma_range_start_update(sts: Seq<Status>, i: int, v: Status)
    requires
        0 <= i < sts.len(),
    ensures
        v == Status::Good ==> range_start(sts.update(i, v)) == if range_start(sts) >= i + 1 {
            range_start(sts)
        } else {
            i + 1
        },
        v != Status::Good && sts[i] != Status::Good ==> range_start(sts.update(i, v))
            == range_start(sts),
        v != Status::Good && sts[i] == Status::Good ==> range_start(sts.update(i, v))
            <= range_start(sts),
    decreases sts.len(),
{
    let u = sts.update(i, v);
    lemma_range_start_bounds(sts);
    lemma_range_start_bounds(u);
    if i == sts.len() - 1 {
        assert(u.drop_last() =~= sts.drop_last());
        lemma_range_start_bounds(sts.drop_last());
    } else {
        assert(u.drop_last() =~= sts.drop_last().update(i, v));
        assert(sts.drop_last()[i] == sts[i]);
        lemma_range_start_update(sts.drop_last(), i, v);
        assert(u.last() == sts.last());
    }
}

/// How a status update at `i` moves the end scan of the uncertain range
/// from position `m`: a new `Bad` caps it at `i`; removing a `Bad` can only
/// push it out; anything else leaves it alone.
pub proof fn lemma_range_end_update(sts: Seq<Status>, m: int, i: int, v: Status)
    requires
        0 <= m <= sts.len(),
        0 <= i < sts.len(),
    ensures
        v == Status::Bad ==> range_end_from(sts.update(i, v), m) == if m <= i {
            if range_end_from(sts, m) <= i {
                range_end_from(sts, m)
            } else {
                i
            }
        } else {
            range_end_from(sts, m)
        },
        v != Status::Bad && sts[i] != Status::Bad ==> range_end_from(sts.update(i, v), m)
            == range_end_from(sts, m),
        v != Status::Bad && sts[i] == Status::Bad ==> range_end_from(sts.update(i, v), m)
            >= range_end_from(sts, m),
    decreases sts.len() - m,
{
    let u = sts.update(i, v);
    lemma_range_end_bounds(sts, m);
    lemma_range_end_bounds(u, m);
    if m < sts.len() {
        lemma_range_end_update(sts, m + 1, i, v);
        lemma_range_end_bounds(sts, m + 1);
        lemma_range_end_bounds(u, m + 1);
    }
}

/// A runner that survives the report at `index` still tests a commit inside
/// the uncertain range computed after the update.
pub proof fn lemma_survivor_in_new_range(sts: Seq<Status>, index: usize, v: Status, r: usize)
    requires
        (index as int) < sts.len(),
        range_start(sts) <= r as int && (r as int) < range_end(sts),
        runner_survives(index, v, r),
    ensures
        range_start(sts.update(index as int, v)) <= r as int && (r as int) < range_end(
            sts.update(index as int, v),
        ),
{
    lemma_range_start_update(sts, index as int, v);
    lemma_range_end_update(sts, 0, index as int, v);
    lemma_range_start_bounds(sts);
    lemma_range_end_bounds(sts, 0);
}

impl State {
    /// Well-formedness: runners are pairwise distinct, each one tests a
    /// commit inside the current uncertain range, the assignment does not
    /// exceed capacity, and the start-time vector tracks the runner vector.
    pub open spec fn wf(self) -> bool {
        &&& self.runners.commits@.no_duplicates()
        &&& self.runners.start_times@.len() == self.runners.commits@.len()
        &&& self.runners.commits@.len() <= self.runners.total
        &&& forall|k: int|
            0 <= k < self.runners.commits@.len() ==> (range_start(statuses(self.commits@))
                <= self.runners.commits@[k] as int && (self.runners.commits@[k] as int)
                < range_end(statuses(self.commits@)))
    }
}

/// Returns the starting commit index of the uncertain range and the slice of
/// commits still under consideration. The slice is empty when the scan
/// bounds have crossed (bisection complete).
pub fn get_range(commits: &Vec<CommitState>) -> (r: (usize, &[CommitState]))
    ensures
        r.0 as int == range_start(statuses(commits@)),
        r.1@ == commits@.subrange(
            range_start(statuses(commits@)),
            range_start(statuses(commits@)) + range_len(statuses(commits@)),
        ),
        r.1@.len() == range_len(statuses(commits@)),
{
    let ghost sts = statuses(commits@);
    let n = commits.len();
    let mut start: usize = 0;
    let mut j: usize = 0;
    while j < n
        invariant
            j <= n,
            n == commits@.len(),
            sts == statuses(commits@),
            sts.len() == n,
            start as int == range_start(sts.take(j as int)),
        decreases n - j,
    {
        proof {
            assert(sts.take(j as int + 1).drop_last() =~= sts.take(j as int));
            assert(sts.take(j as int + 1).last() == sts[j as int]);
        }
        if commits[j].status == Status::Good {
            start = j + 1;
        }
        j += 1;
    }
    proof {
        assert(sts.take(n as int) =~= sts);
    }
    let mut end: usize = n;
    let mut k: usize = n;
    while k > 0
        invariant
            k <= n,
            n == commits@.len(),
            sts == statuses(commits@),
            sts.len() == n,
            end as int == range_end_from(sts, k as int),
        decreases k,
    {
        k -= 1;
        if commits[k].status == Status::Bad {
            end = k;
        }
    }
    proof {
        lemma_range_start_bounds(sts);
        lemma_range_end_bounds(sts, 0);
    }
    let clamped_end = if end < start {
        start
    } else {
        end
    };
    let s = slice_subrange(commits.as_slice(), start, clamped_end);
    (start, s)
}

/// Monotone narrowing: recording a `Good` inside the uncertain range
/// strictly raises the range's start and keeps its end; recording a `Bad`
/// inside the range strictly lowers its end and keeps its start.
pub proof fn lemma_monotone_narrowing(sts: Seq<Status>, i: usize)
    requires
        range_start(sts) <= i as int && (i as int) < range_end(sts),
    ensures
        range_start(sts.update(i as int, Status::Good)) > range_start(sts),
        range_end(sts.update(i as int, Status::Good)) == range_end(sts),
        range_end(sts.update(i as int, Status::Bad)) < range_end(sts),
        range_start(sts.update(i as int, Status::Bad)) == range_start(sts),
{
    lemma_range_start_bounds(sts);
    lemma_range_end_bounds(sts, 0);
    lemma_range_start_update(sts, i as int, Status::Good);
    lemma_range_end_update(sts, 0, i as int, Status::Good);
    lemma_range_start_update(sts, i as int, Status::Bad);
    lemma_range_end_update(sts, 0, i as int, Status::Bad);
}

/// Termination measure: a `Good` or `Bad` result inside the uncertain range
/// strictly shrinks its length. Starting from an all-`Unknown` sequence,
/// every step driven by ground-truth statuses reports one of these two at a
/// scheduled (hence in-range) commit, so the range is empty after at most
/// its initial length of results.
pub proof fn lemma_result_narrows(sts: Seq<Status>, i: usize, v: Status)
    requires
        range_start(sts) <= i as int && (i as int) < range_end(sts),
        v == Status::Good || v == Status::Bad,
    ensures
        range_len(sts.update(i as int, v)) < range_len(sts),
{
    lemma_monotone_narrowing(sts, i);
}

/// One transition of the bisection: record `status` for the commit at
/// `index`, cancel the runners the result invalidates, recompute the
/// uncertain range, and let the allocator `F` fill the freed capacity.
/// Returns the new state, the invalidated runner commits (the driver must
/// kill those processes) and the newly scheduled ones (the driver must
/// start them). `runtime` is logged; surviving runners keep the start
/// times they had, and `time` becomes the start time of the newly
/// scheduled runners only.
pub fn step<F: Allocator>(
    state: &State,
    status: Status,
    index: usize,
    runtime: u64,
    time: u64,
) -> (r: (State, Vec<usize>, Vec<usize>))
    requires
        state.wf(),
        index < state.commits@.len(),
        state.runners.total >= 1,
        state.runners.total < usize::MAX,
    ensures
        r.0.wf(),
        r.0.commits@.len() == state.commits@.len(),
        statuses(r.0.commits@) == statuses(state.commits@).update(index as int, status),
        forall|i: int|
            0 <= i < state.commits@.len() ==> (#[trigger] r.0.commits@[i]).hash
                == state.commits@[i].hash,
        r.0.runners.total == state.runners.total,
        r.0.check_bookends == state.check_bookends,
        r.0.runtime_samples@ == state.runtime_samples@.push(runtime),
        r.1@ == invalidated(state.runners.commits@, index, status),
        r.0.runners.commits@ == surviving(state.runners.commits@, index, status) + r.2@,
        alloc_post(
            state.runners.total,
            surviving(state.runners.commits@, index, status),
            range_start(statuses(r.0.commits@)) as usize,
            range_len(statuses(r.0.commits@)),
            state.check_bookends,
            r.2@,
        ),
        r.0.runners.start_times@.len() == r.0.runners.commits@.len(),
        r.0.runners.start_times@ == surviving_start_times(
            state.runners.commits@,
            state.runners.start_times@,
            index,
            status,
        ) + Seq::new(r.2@.len() as nat, |i: int| time),
        r.0.runners.commits@.len() > 0 || range_len(statuses(r.0.commits@)) == 0,
        range_len(statuses(r.0.commits@)) == 0 ==> (r.2@.len() == 0
            && r.0.runners.commits@.len() == 0),
{
    let ghost old_sts = statuses(state.commits@);
    let n = state.commits.len();
    let mut commits2: Vec<CommitState> = Vec::new();
    let mut i: usize = 0;
    while i < n
        invariant
            i <= n,
            n == state.commits@.len(),
            index < n,
            commits2@.len() == i,
            forall|m: int|
                0 <= m < i ==> (#[trigger] commits2@[m]).hash == state.commits@[m].hash,
            forall|m: int|
                0 <= m < i ==> (#[trigger] commits2@[m]).status == (if m == index {
                    status
                } else {
                    state.commits@[m].status
                }),
        decreases n - i,
    {
        let hash = state.commits[i].hash.clone();
        let st = if i == index {
            status
        } else {
            state.commits[i].status
        };
        commits2.push(CommitState { hash, status: st });
        i += 1;
    }
    let ghost new_sts = old_sts.update(index as int, status);
    proof {
        assert(statuses(commits2@) =~= new_sts);
    }
    let parts = invalidate_runners(&state.runners.commits, index, status);
    let remaining = parts.0;
    let invalidated_runners = parts.1;
    let mut kept_times: Vec<u64> = Vec::new();
    let rn = state.runners.commits.len();
    let mut j: usize = 0;
    while j < rn
        invariant
            j <= rn,
            rn == state.runners.commits@.len(),
            state.runners.start_times@.len() == rn,
            kept_times@ == surviving_start_times(
                state.runners.commits@.take(j as int),
                state.runners.start_times@.take(j as int),
                index,
                status,
            ),
        decreases rn - j,
    {
        let x = state.runners.commits[j];
        let keep = match status {
            Status::Good => x > index,
            Status::Bad => x < index,
            Status::Skip => x != index,
            Status::Unknown => true,
        };
        proof {
            assert(state.runners.commits@.take(j as int + 1).drop_last()
                =~= state.runners.commits@.take(j as int));
            assert(state.runners.start_times@.take(j as int + 1).drop_last()
                =~= state.runners.start_times@.take(j as int));
            assert(state.runners.commits@.take(j as int + 1).last()
                == state.runners.commits@[j as int]);
            assert(state.runners.start_times@.take(j as int + 1).last()
                == state.runners.start_times@[j as int]);
            assert(keep == runner_survives(index, status, x));
        }
        if keep {
            kept_times.push(state.runners.start_times[j]);
        }
        j += 1;
    }
    proof {
        assert(state.runners.commits@.take(rn as int) =~= state.runners.commits@);
        assert(state.runners.start_times@.take(rn as int) =~= state.runners.start_times@);
        lemma_surviving_lens(state.runners.commits@, state.runners.start_times@, index, status);
    }
    let bisection_range = get_range(&commits2);
    proof {
        lemma_range_start_bounds(new_sts);
        lemma_range_end_bounds(new_sts, 0);
        assert forall|k: int| 0 <= k < remaining@.len() implies (bisection_range.0
            <= remaining@[k] && (remaining@[k] as int) < bisection_range.0
            + bisection_range.1@.len()) by {
            let rr = remaining@[k];
            let j = choose|j: int|
                0 <= j < state.runners.commits@.len() && state.runners.commits@[j] == rr;
            lemma_survivor_in_new_range(old_sts, index, status, rr);
        }
        assert(alloc_pre(
            state.runners.total,
            remaining@,
            bisection_range.0,
            bisection_range.1@.len() as int,
        ));
    }
    let new_runners = F::alloc_runners(
        state.runners.total,
        remaining.as_slice(),
        bisection_range,
        state.check_bookends,
    );
    let mut runner_commits: Vec<usize> = Vec::new();
    let mut a: usize = 0;
    let rem_len = remaining.len();
    while a < rem_len
        invariant
            a <= rem_len,
            rem_len == remaining@.len(),
            runner_commits@ == remaining@.take(a as int),
        decreases rem_len - a,
    {
        runner_commits.push(remaining[a]);
        proof {
            assert(remaining@.take(a as int).push(remaining@[a as int]) =~= remaining@.take(
                a as int + 1,
            ));
        }
        a += 1;
    }
    proof {
        assert(remaining@.take(rem_len as int) =~= remaining@);
    }
    let mut b: usize = 0;
    let new_len = new_runners.len();
    while b < new_len
        invariant
            b <= new_len,
            new_len == new_runners@.len(),
            runner_commits@ == remaining@ + new_runners@.take(b as int),
        decreases new_len - b,
    {
        runner_commits.push(new_runners[b]);
        proof {
            assert((remaining@ + new_runners@.take(b as int)).push(new_runners@[b as int])
                =~= remaining@ + new_runners@.take(b as int + 1));
        }
        b += 1;
    }
    proof {
        assert(new_runners@.take(new_len as int) =~= new_runners@);
    }
    let mut start_times: Vec<u64> = kept_times;
    let ghost kept_view = start_times@;
    let mut c: usize = 0;
    let fresh_len = new_runners.len();
    while c < fresh_len
        invariant
            c <= fresh_len,
            start_times@ == kept_view + Seq::new(c as nat, |i: int| time),
        decreases fresh_len - c,
    {
        start_times.push(time);
        proof {
            assert((kept_view + Seq::new(c as nat, |i: int| time)).push(time) =~= kept_view
                + Seq::new(c as nat + 1, |i: int| time));
        }
        c += 1;
    }
    let mut samples: Vec<u64> = Vec::new();
    let mut d: usize = 0;
    let rs_len = state.runtime_samples.len();
    while d < rs_len
        invariant
            d <= rs_len,
            rs_len == state.runtime_samples@.len(),
            samples@ == state.runtime_samples@.take(d as int),
        decreases rs_len - d,
    {
        samples.push(state.runtime_samples[d]);
        proof {
            assert(state.runtime_samples@.take(d as int).push(state.runtime_samples@[d as int])
                =~= state.runtime_samples@.take(d as int + 1));
        }
        d += 1;
    }
    proof {
        assert(state.runtime_samples@.take(rs_len as int) =~= state.runtime_samples@);
    }
    samples.push(runtime);
    proof {
        let ghost valid = remaining@;
        let ghost fresh = new_runners@;
        let ghost both = runner_commits@;
        // distinctness of the merged runner vector: the two halves are each
        // duplicate-free and the allocator avoided the surviving indices
        assert(both.no_duplicates()) by {
            assert forall|p: int, q: int| 0 <= p < q < both.len() implies both[p] != both[q] by {
                if p < valid.len() && q >= valid.len() {
                    assert(valid.contains(valid[p]));
                    assert(both[q] == fresh[q - valid.len()]);
                    assert(!valid.contains(fresh[q - valid.len()]));
                }
            }
        }
        // every merged runner is inside the new uncertain range
        assert forall|k: int| 0 <= k < both.len() implies (range_start(new_sts) <= both[k] as int
            && (both[k] as int) < range_end(new_sts)) by {
            if k < valid.len() {
                assert(bisection_range.0 <= valid[k] && (valid[k] as int) < bisection_range.0
                    + bisection_range.1@.len());
            } else {
                assert(bisection_range.0 <= fresh[k - valid.len()] && (fresh[k - valid.len()]
                    as int) < bisection_range.0 + bisection_range.1@.len());
            }
        }
        if range_len(new_sts) > 0 && valid.len() == 0 {
            assert(fresh.len() > 0);
        }
        if range_len(new_sts) == 0 {
            assert(fresh.len() == 0) by {
                if fresh.len() > 0 {
                    assert(bisection_range.0 <= fresh[0] && (fresh[0] as int) < bisection_range.0
                        + bisection_range.1@.len());
                }
            }
            assert(valid.len() == 0) by {
                if valid.len() > 0 {
                    assert(bisection_range.0 <= valid[0] && (valid[0] as int) < bisection_range.0
                        + bisection_range.1@.len());
                }
            }
        }
    }
    let new_state = State {
        runtime_samples: samples,
        commits: commits2,
        runners: Runners {
            commits: runner_commits,
            start_times,
            total: state.runners.total,
        },
        check_bookends: state.check_bookends,
    };
    (new_state, invalidated_runners, new_runners)
}

} // verus!
