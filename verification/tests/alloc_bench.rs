// Simulated bisections over randomized ground truths, checking the total
// step counts and accumulated runtimes of both allocation strategies.
// Wall-clock values are f64 seconds carried through the scheduler's opaque
// u64 start-time samples as raw bit patterns.
use rand::{rngs::StdRng, Rng, SeedableRng};
use rand_distr::{Distribution, Normal};

use git_biasect::sched::{get_range, init, step, Allocator, BasicAllocator, DumbAllocator, State};

fn generate_runtime_for_commits(
    commits: usize,
    runtime_mean: f64,
    runtime_stddev: f64,
) -> Vec<f64> {
    (0..commits)
        .map(|x| {
            let mut rng = StdRng::seed_from_u64(x.try_into().unwrap());
            let normal = Normal::new(runtime_mean, runtime_stddev).unwrap();
            normal.sample(&mut rng)
        })
        .map(|t| if t <= 0.0 { 0.001 } else { t })
        .collect()
}

fn get_next_result(
    runners: &[usize],
    runner_start_times: &[u64],
    commit_runtimes: &[f64],
) -> usize {
    // Get the min start time + run time. Return the commit index.
    *runners
        .iter()
        .zip(runner_start_times)
        .map(|(commit, start)| {
            (
                commit,
                commit_runtimes.get(*commit).unwrap() - f64::from_bits(*start),
            )
        })
        .min_by(|x, y| x.1.total_cmp(&y.1))
        .unwrap()
        .0
}

/// Returns runtime and steps
fn run_bench<F>(
    commit_count: i32,
    runners: usize,
    runtime_mean: f64,
    runtime_stddev: f64,
    iters: u64,
    check_bookends: bool,
) -> (f64, usize)
where
    F: Allocator,
{
    let mut total_runtime = 0.0;
    let mut total_steps = 0;
    for seed in 0..iters {
        let commits: Vec<_> = (0..commit_count).map(|n| n.to_string()).collect();

        let commit_runtimes =
            generate_runtime_for_commits(commits.len(), runtime_mean, runtime_stddev);

        let mut state: State = init(&commits, runners, check_bookends);

        let mut rng = StdRng::seed_from_u64(seed);
        let first_bad = rng.gen_range(0..commit_count - 1);
        let commit_truths: Vec<_> = (0..commit_count)
            .map(|n| {
                if n <= first_bad {
                    git_biasect::sched::Status::Good
                } else {
                    git_biasect::sched::Status::Bad
                }
            })
            .collect();

        let mut runtime;

        let mut steps = 0;

        loop {
            steps += 1;
            let res = get_next_result(
                &state.runners.commits,
                &state.runners.start_times,
                &commit_runtimes,
            );

            let start_time = f64::from_bits(
                *state
                    .runners
                    .commits
                    .iter()
                    .zip(&state.runners.start_times)
                    .find(|(commit, _start_time)| commit == &&res)
                    .unwrap()
                    .1,
            );

            runtime = start_time + commit_runtimes.get(res).unwrap();

            let mut _invalidated_runners;
            let mut _new_runners;
            (state, _invalidated_runners, _new_runners) = step::<F>(
                &state,
                *commit_truths.get(res).unwrap(),
                res,
                commit_runtimes.get(res).unwrap().to_bits(),
                (start_time + commit_runtimes.get(res).unwrap()).to_bits(),
            );

            if get_range(&state.commits).1.is_empty() {
                break;
            }
        }
        total_runtime += runtime;
        total_steps += steps;
    }
    (total_runtime, total_steps)
}

/// Relative comparison with tolerance scaled by the expected value.
fn assert_close(actual: f64, expected: f64) {
    assert!(
        (actual - expected).abs() <= 0.000_1 * expected.abs(),
        "{actual} differs from {expected} beyond relative tolerance"
    );
}

#[test]
fn two_commits_one_runner_dumb_bookends() {
    let res = run_bench::<DumbAllocator>(2, 1, 100.0, 1.0, 1000, true);

    let expected_steps = 2000;
    assert_eq!(
        res.1, expected_steps,
        "Dumb allocator does not match expected # of steps ({expected_steps})"
    );
    assert_close(res.0, 202376.44);
}

#[test]
fn two_commits_one_runner_basic_bookends() {
    let res = run_bench::<BasicAllocator>(2, 1, 100.0, 1.0, 1000, true);

    let expected_steps = 2000;
    assert_eq!(
        res.1, expected_steps,
        "Basic allocator does not match expected # of steps ({expected_steps})"
    );
    assert_close(res.0, 202376.44);
}

#[test]
fn one_thousand_commits_eight_runners_dumb_bookends() {
    let res = run_bench::<DumbAllocator>(1000, 8, 100.0, 1.0, 100, true);

    let expected_steps = 20913;
    assert_eq!(
        res.1, expected_steps,
        "Dumb allocator does not match expected # of steps ({expected_steps})"
    );
    assert_close(res.0, 2052951.19);
}

#[test]
fn one_thousand_commits_eight_runners_basic_bookends() {
    let res = run_bench::<BasicAllocator>(1000, 8, 100.0, 1.0, 100, true);

    let expected_steps = 1211;
    assert_eq!(
        res.1, expected_steps,
        "Basic allocator does not match expected # of steps ({expected_steps})"
    );
    assert_close(res.0, 82800.43);
}

#[test]
fn one_thousand_commits_eight_runners_dumb() {
    let res = run_bench::<DumbAllocator>(1000, 8, 100.0, 1.0, 100, false);

    let expected_steps = 9429;
    assert_eq!(
        res.1, expected_steps,
        "Dumb allocator does not match expected # of steps ({expected_steps})"
    );
    assert_close(res.0, 887854.49);
}

#[test]
fn one_thousand_commits_eight_runners_basic() {
    let res = run_bench::<BasicAllocator>(1000, 8, 100.0, 1.0, 100, false);

    let expected_steps = 1170;
    assert_eq!(
        res.1, expected_steps,
        "Basic allocator does not match expected # of steps ({expected_steps})"
    );
    assert_close(res.0, 73060.43);
}

#[test]
fn one_hundred_commits_eight_runners_dumb_bookends() {
    let res = run_bench::<DumbAllocator>(100, 8, 100.0, 1.0, 100, true);

    let expected_steps = 1370;
    assert_eq!(
        res.1, expected_steps,
        "Dumb allocator does not match expected # of steps ({expected_steps})"
    );
    assert_close(res.0, 96195.74);
}

#[test]
fn one_hundred_commits_eight_runners_basic_bookends() {
    let res = run_bench::<BasicAllocator>(100, 8, 100.0, 1.0, 100, true);

    let expected_steps = 798;
    assert_eq!(
        res.1, expected_steps,
        "Basic allocator does not match expected # of steps ({expected_steps})"
    );
    assert_close(res.0, 40860.90);
}

#[test]
fn one_hundred_commits_eight_runners_dumb() {
    let res = run_bench::<DumbAllocator>(100, 8, 100.0, 1.0, 100, false);

    let expected_steps = 2537;
    assert_eq!(
        res.1, expected_steps,
        "Dumb allocator does not match expected # of steps ({expected_steps})"
    );
    assert_close(res.0, 196456.40);
}

#[test]
fn one_hundred_commits_eight_runners_basic() {
    let res = run_bench::<BasicAllocator>(100, 8, 100.0, 1.0, 100, false);

    let expected_steps = 873;
    assert_eq!(
        res.1, expected_steps,
        "Basic allocator does not match expected # of steps ({expected_steps})"
    );
    assert_close(res.0, 42924.88);
}

#[test]
fn one_hundred_commits_one_runner_dumb_bookends() {
    let res = run_bench::<DumbAllocator>(100, 1, 100.0, 1.0, 100, true);

    let expected_steps = 5488;
    assert_eq!(
        res.1, expected_steps,
        "Dumb allocator does not match expected # of steps ({expected_steps})"
    );
    assert_close(res.0, 548731.38);
}

#[test]
fn one_hundred_commits_one_runner_basic_bookends() {
    let res = run_bench::<BasicAllocator>(100, 1, 100.0, 1.0, 100, true);

    let expected_steps = 870;
    assert_eq!(
        res.1, expected_steps,
        "Basic allocator does not match expected # of steps ({expected_steps})"
    );
    assert_close(res.0, 87349.15);
}

#[test]
fn one_hundred_commits_one_runner_dumb() {
    let res = run_bench::<DumbAllocator>(100, 1, 100.0, 1.0, 100, false);

    let expected_steps = 2838;
    assert_eq!(
        res.1, expected_steps,
        "Dumb allocator does not match expected # of steps ({expected_steps})"
    );
    assert_close(res.0, 284002.17);
}

#[test]
fn one_hundred_commits_one_runner_basic() {
    let res = run_bench::<BasicAllocator>(100, 1, 100.0, 1.0, 100, false);

    let expected_steps = 670;
    assert_eq!(
        res.1, expected_steps,
        "Basic allocator does not match expected # of steps ({expected_steps})"
    );
    assert_close(res.0, 67240.03);
}
