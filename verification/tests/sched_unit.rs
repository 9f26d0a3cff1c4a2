use git_biasect::sched::{
    get_range, init, initial_alloc, invalidate_runners, step, Allocator, BasicAllocator,
    CommitState, DumbAllocator, Status,
};
use git_biasect::shell::{bisect_action, reproducer_shell_commands};
use git_biasect::visualize::render_commits;

fn commit_states(statuses: &[Status]) -> Vec<CommitState> {
    statuses
        .iter()
        .enumerate()
        .map(|(i, s)| CommitState {
            hash: i.to_string(),
            status: *s,
        })
        .collect()
}

#[test]
fn range_of_all_unknown_is_everything() {
    let commits = commit_states(&[Status::Unknown, Status::Unknown, Status::Unknown]);
    let (start, slice) = get_range(&commits);
    assert_eq!(start, 0);
    assert_eq!(slice.len(), 3);
}

#[test]
fn range_excludes_good_prefix_and_bad_suffix() {
    let commits = commit_states(&[Status::Good, Status::Unknown, Status::Unknown, Status::Bad]);
    let (start, slice) = get_range(&commits);
    assert_eq!(start, 1);
    assert_eq!(slice.len(), 2);
}

#[test]
fn range_is_empty_when_bounds_meet() {
    let commits = commit_states(&[Status::Good, Status::Bad]);
    let (start, slice) = get_range(&commits);
    assert_eq!(start, 1);
    assert!(slice.is_empty());
}

#[test]
fn range_tolerates_crossed_bounds() {
    // a Bad below a Good: the scans cross, and the slice is empty
    let commits = commit_states(&[Status::Bad, Status::Good]);
    let (start, slice) = get_range(&commits);
    assert_eq!(start, 2);
    assert!(slice.is_empty());
}

#[test]
fn range_keeps_skips_as_candidates() {
    let commits = commit_states(&[Status::Good, Status::Skip, Status::Bad]);
    let (start, slice) = get_range(&commits);
    assert_eq!(start, 1);
    assert_eq!(slice.len(), 1);
}

#[test]
fn newest_good_shadows_older_ones() {
    let commits = commit_states(&[Status::Good, Status::Unknown, Status::Good, Status::Unknown]);
    let (start, slice) = get_range(&commits);
    assert_eq!(start, 3);
    assert_eq!(slice.len(), 1);
}

#[test]
fn invalidate_on_good_cancels_at_or_below() {
    let runners = vec![1, 3, 5];
    let (valid, invalid) = invalidate_runners(&runners, 3, Status::Good);
    assert_eq!(valid, vec![5]);
    assert_eq!(invalid, vec![1, 3]);
}

#[test]
fn invalidate_on_bad_cancels_at_or_above() {
    let runners = vec![1, 3, 5];
    let (valid, invalid) = invalidate_runners(&runners, 3, Status::Bad);
    assert_eq!(valid, vec![1]);
    assert_eq!(invalid, vec![3, 5]);
}

#[test]
fn invalidate_on_skip_cancels_only_the_reported_runner() {
    let runners = vec![1, 3, 5];
    let (valid, invalid) = invalidate_runners(&runners, 3, Status::Skip);
    assert_eq!(valid, vec![1, 5]);
    assert_eq!(invalid, vec![3]);
    let (valid, invalid) = invalidate_runners(&runners, 2, Status::Skip);
    assert_eq!(valid, vec![1, 3, 5]);
    assert!(invalid.is_empty());
}

#[test]
fn invalidate_on_unknown_is_a_no_op() {
    let runners = vec![1, 3, 5];
    let (valid, invalid) = invalidate_runners(&runners, 3, Status::Unknown);
    assert_eq!(valid, vec![1, 3, 5]);
    assert!(invalid.is_empty());
}

fn hashes(n: usize) -> Vec<String> {
    (0..n).map(|i| i.to_string()).collect()
}

#[test]
fn initial_alloc_schedules_everything_when_capacity_permits() {
    let mut r = initial_alloc(&hashes(3), 8, true);
    r.sort();
    assert_eq!(r, vec![0, 1, 2]);
}

#[test]
fn initial_alloc_with_no_runners_schedules_nothing() {
    assert!(initial_alloc(&hashes(5), 0, true).is_empty());
}

#[test]
fn initial_alloc_single_runner_bookends_pins_the_newest_commit() {
    assert_eq!(initial_alloc(&hashes(10), 1, true), vec![9]);
}

#[test]
fn initial_alloc_bookends_pin_both_ends_and_space_the_rest() {
    // endpoints consume two slots; the remaining one lands at
    // (8 - 1) / 2 = 3 past the shrunken lower bound 1
    let mut r = initial_alloc(&hashes(10), 3, true);
    r.sort();
    assert_eq!(r, vec![0, 4, 9]);
}

#[test]
fn initial_alloc_without_bookends_spaces_evenly() {
    // spacing (10 - 1) / 4 = 2: positions 2, 4, 6
    let mut r = initial_alloc(&hashes(10), 3, false);
    r.sort();
    assert_eq!(r, vec![2, 4, 6]);
}

#[test]
fn initial_alloc_collapses_colliding_positions() {
    // spacing (4 - 0) / 5 = 0: all four interior picks collapse onto 0
    let r = initial_alloc(&hashes(5), 4, false);
    assert_eq!(r, vec![0]);
}

#[test]
fn init_starts_all_unknown_with_zero_start_times() {
    let state = init(&hashes(10), 3, true);
    assert_eq!(state.commits.len(), 10);
    for (i, c) in state.commits.iter().enumerate() {
        assert_eq!(c.hash, i.to_string());
        assert_eq!(c.status, Status::Unknown);
    }
    assert_eq!(state.runners.total, 3);
    assert_eq!(
        state.runners.start_times.len(),
        state.runners.commits.len()
    );
    assert!(state.runners.start_times.iter().all(|t| *t == 0));
    assert!(state.runtime_samples.is_empty());
}

#[test]
fn step_reallocates_freed_capacity_dumb() {
    // five unknown commits, two runners at 1 and 2; a Good at 1 frees one
    // runner, and the linear fill schedules the next uncovered index, 3
    let state = init(&hashes(5), 2, false);
    let mut runners = state.runners.commits.clone();
    runners.sort();
    assert_eq!(runners, vec![1, 2]);

    let (state, invalidated, new_runners) = step::<DumbAllocator>(&state, Status::Good, 1, 7, 9);
    assert_eq!(invalidated, vec![1]);
    assert_eq!(new_runners, vec![3]);
    assert_eq!(state.commits[1].status, Status::Good);
    let mut runners = state.runners.commits.clone();
    runners.sort();
    assert_eq!(runners, vec![2, 3]);
    // the surviving runner at 2 keeps its start time; only the fresh
    // runner at 3 gets the new clock sample
    assert_eq!(state.runners.commits, vec![2, 3]);
    assert_eq!(state.runners.start_times, vec![0, 9]);
    assert_eq!(state.runtime_samples, vec![7]);
}

#[test]
fn step_preserves_surviving_start_times_across_steps() {
    // eight commits, three runners seeded at 1, 2, 3 with start time 0
    let state = init(&hashes(8), 3, false);
    assert_eq!(state.runners.commits, vec![1, 2, 3]);

    // a Good at 1 keeps runners 2 and 3 (start time 0); the freed slot
    // goes to 4, which starts at the new clock sample 50
    let (state, _, new_runners) = step::<BasicAllocator>(&state, Status::Good, 1, 5, 50);
    assert_eq!(new_runners, vec![4]);
    assert_eq!(state.runners.commits, vec![2, 3, 4]);
    assert_eq!(state.runners.start_times, vec![0, 0, 50]);

    // a Good at 2 keeps runners 3 and 4 with their old start times, and
    // only the replacement runner at 5 starts at 80
    let (state, _, new_runners) = step::<BasicAllocator>(&state, Status::Good, 2, 5, 80);
    assert_eq!(new_runners, vec![5]);
    assert_eq!(state.runners.commits, vec![3, 4, 5]);
    assert_eq!(state.runners.start_times, vec![0, 50, 80]);
}

#[test]
fn step_on_skip_frees_the_slot_for_the_next_candidate() {
    let state = init(&hashes(5), 1, false);
    assert_eq!(state.runners.commits, vec![2]);

    let (state, invalidated, new_runners) = step::<DumbAllocator>(&state, Status::Skip, 2, 1, 2);
    assert_eq!(invalidated, vec![2]);
    assert_eq!(new_runners, vec![0]);
    assert_eq!(state.commits[2].status, Status::Skip);
}

#[test]
fn step_schedules_nothing_once_the_range_is_empty() {
    // two commits, one runner: a Good at 0 moves the runner to 1, and the
    // Bad there empties the slice, so nothing further is scheduled
    let state = init(&hashes(2), 1, false);
    let (state, _invalidated, new_runners) = step::<DumbAllocator>(&state, Status::Good, 0, 1, 2);
    assert_eq!(new_runners, vec![1]);
    let (state, _invalidated, new_runners) = step::<DumbAllocator>(&state, Status::Bad, 1, 3, 4);
    assert!(new_runners.is_empty());
    assert!(state.runners.commits.is_empty());
    assert!(get_range(&state.commits).1.is_empty());
}

#[test]
fn step_exhaustively_fills_a_small_range_basic() {
    // eight runners, five commits: after a Bad at 4 the slice [0, 4) must
    // be covered completely
    let state = init(&hashes(5), 8, false);
    let (state, _invalidated, new_runners) = step::<BasicAllocator>(&state, Status::Bad, 4, 1, 2);
    let mut runners = state.runners.commits.clone();
    runners.sort();
    assert_eq!(runners, vec![0, 1, 2, 3]);
    assert!(!new_runners.contains(&4));
}

#[test]
fn render_marks_runners_over_statuses() {
    let commits = vec![Status::Good, Status::Unknown, Status::Bad, Status::Skip];
    let runners = vec![1];
    let line = render_commits(&commits, &runners);
    assert_eq!(line, b"GRBS".to_vec());
}

#[test]
fn render_runner_marker_wins_over_any_status() {
    let commits = vec![Status::Good, Status::Unknown];
    let runners = vec![0, 1];
    let line = render_commits(&commits, &runners);
    assert_eq!(line, b"RR".to_vec());
}

#[test]
fn bisect_action_words() {
    assert_eq!(bisect_action(Status::Good), "good");
    assert_eq!(bisect_action(Status::Bad), "bad");
    assert_eq!(bisect_action(Status::Skip), "skip");
}

#[test]
fn reproducer_commands_embed_repo_script_and_commit() {
    let command = "make test".to_string();
    let commit = "abc123".to_string();
    let r = reproducer_shell_commands("/repo", &command, &commit);
    let expected = "export TESTDIR=$(mktemp -d -t biasect.XXXXXX)\n\
        echo $TESTDIR\n\
        cd $TESTDIR\n\
        git -C /repo worktree add $TESTDIR abc123 --detach\n\
        make test\n\
        echo $?";
    assert_eq!(r, expected);
}

fn partial_fill_case<F: Allocator>() {
    // ten-commit slice at offset 5, three survivors, budget eight: the five
    // new indices must lie in [5, 15), avoid the survivors, and fill the
    // budget exactly
    let existing: Vec<usize> = vec![6, 9, 12];
    let commits = commit_states(&[Status::Unknown; 10]);
    let range = (5, commits.as_slice());
    let new_runners = F::alloc_runners(8, &existing, range, false);
    assert_eq!(new_runners.len(), 5);
    for idx in &new_runners {
        assert!((5..15).contains(idx));
        assert!(!existing.contains(idx));
    }
    let mut all = new_runners.clone();
    all.sort();
    all.dedup();
    assert_eq!(all.len(), new_runners.len());
}

#[test]
fn alloc_stays_in_range_disjoint_and_within_capacity() {
    partial_fill_case::<DumbAllocator>();
    partial_fill_case::<BasicAllocator>();
}

#[test]
fn good_raises_range_start_and_bad_lowers_range_end() {
    let state = init(&hashes(8), 2, false);
    let (start_before, slice_before) = {
        let r = get_range(&state.commits);
        (r.0, r.1.len())
    };
    assert_eq!((start_before, slice_before), (0, 8));

    let report = state.runners.commits[0];
    let (state, _, _) = step::<BasicAllocator>(&state, Status::Good, report, 1, 2);
    let r = get_range(&state.commits);
    assert!(r.0 > start_before);
    assert_eq!(r.0, report + 1);

    let report = *state.runners.commits.iter().max().unwrap();
    let (state, _, _) = step::<BasicAllocator>(&state, Status::Bad, report, 3, 4);
    let r = get_range(&state.commits);
    assert_eq!(r.0 + r.1.len(), report);
}

#[test]
fn bisection_terminates_within_slice_length_steps() {
    // ground truth: first bad commit is 11; every step shrinks the slice,
    // so the loop ends in at most the initial slice length of results
    let commit_count = 20;
    let truth: Vec<Status> = (0..commit_count)
        .map(|n| if n < 11 { Status::Good } else { Status::Bad })
        .collect();
    let mut state = init(&hashes(commit_count), 3, false);
    let mut steps = 0;
    while !get_range(&state.commits).1.is_empty() {
        assert!(steps < commit_count, "bisection failed to terminate");
        let report = state.runners.commits[0];
        let (next, _, _) = step::<BasicAllocator>(&state, truth[report], report, 1, 2);
        state = next;
        steps += 1;
    }
    let (start, _) = get_range(&state.commits);
    assert_eq!(start, 11);
}

fn tokens(text: &str) -> Vec<String> {
    git_biasect::shell::first_tokens(text.as_bytes())
        .into_iter()
        .map(|t| String::from_utf8(t).unwrap())
        .collect()
}

#[test]
fn first_tokens_take_the_leading_word_of_each_line() {
    assert_eq!(tokens("abc def\nghi j\n"), vec!["abc", "ghi"]);
}

#[test]
fn first_tokens_handle_missing_final_newline_and_crlf() {
    assert_eq!(tokens("abc1 subject\r\ndef2 other"), vec!["abc1", "def2"]);
}

#[test]
fn first_tokens_of_empty_text_are_empty() {
    assert!(tokens("").is_empty());
    assert_eq!(tokens("\n"), vec![""]);
}

#[test]
fn first_tokens_keep_spaceless_lines_whole() {
    assert_eq!(tokens("abcdef\n"), vec!["abcdef"]);
}
