use writer::highlight::{compose, compose_checked, Run, RunStyle};
use writer::matching::{find_matches, replace_all_bytes};
use writer::search::{SearchState, Status};

fn state_with(query: &[u8], replacement: &[u8]) -> SearchState {
    let mut s = SearchState::default();
    s.query = query.to_vec();
    s.replace_query = replacement.to_vec();
    s
}

#[test]
fn test_advance_full_cycle_returns_to_start() {
    let mut search = SearchState::default();
    search.results = vec![3, 9, 15, 21];
    search.current_match_index = Some(2);

    for _ in 0..4 {
        search.find_next();
    }
    assert_eq!(search.current_match_index, Some(2));
}

#[test]
fn test_retreat_full_cycle_returns_to_start() {
    let mut search = SearchState::default();
    search.results = vec![3, 9, 15];
    search.current_match_index = Some(1);

    for _ in 0..3 {
        search.find_previous();
    }
    assert_eq!(search.current_match_index, Some(1));
}

#[test]
fn test_advance_then_retreat_is_identity() {
    let mut search = SearchState::default();
    search.results = vec![10, 27, 40];
    search.current_match_index = Some(0);

    search.find_next();
    search.find_previous();
    assert_eq!(search.current_match_index, Some(0));

    search.find_previous();
    search.find_next();
    assert_eq!(search.current_match_index, Some(0));
}

#[test]
fn test_navigation_defaults_from_absent_cursor() {
    let mut search = SearchState::default();
    search.results = vec![10, 27, 40];
    search.current_match_index = None;

    search.find_next();
    assert_eq!(search.current_match_index, Some(0));

    search.current_match_index = None;
    search.find_previous();
    assert_eq!(search.current_match_index, Some(2));
}

#[test]
fn test_navigation_no_matches_is_noop() {
    let mut search = SearchState::default();
    search.find_next();
    assert_eq!(search.current_match_index, None);
    search.find_previous();
    assert_eq!(search.current_match_index, None);
}

#[test]
fn test_replace_current() {
    let mut search = state_with(b"test", b"exam");
    let mut text = b"this is a test string with test in it".to_vec();
    search.update_results(&text);
    assert_eq!(search.current_match_index, Some(0));

    assert!(search.replace_current(&mut text));
    assert_eq!(text, b"this is a exam string with test in it".to_vec());
    assert_eq!(search.results, vec![27]);
    assert_eq!(search.current_match_index, Some(0));
}

#[test]
fn test_replace_current_shorter_replacement_shifts_offsets() {
    let mut search = state_with(b"test", b"t");
    let mut text = b"a test and a test".to_vec();
    search.update_results(&text);
    assert_eq!(search.results, vec![2, 13]);

    assert!(search.replace_current(&mut text));
    assert_eq!(text, b"a t and a test".to_vec());
    assert_eq!(search.results, vec![10]);
    assert_eq!(search.current_match_index, Some(0));
}

#[test]
fn test_replace_current_without_cursor() {
    let mut search = state_with(b"test", b"exam");
    let mut text = b"a test".to_vec();

    assert!(!search.replace_current(&mut text));
    assert_eq!(text, b"a test".to_vec());
}

#[test]
fn test_replace_current_stale_offset_declines() {
    let mut search = state_with(b"test", b"exam");
    let mut text = b"totally different".to_vec();
    search.results = vec![3];
    search.current_match_index = Some(0);

    assert!(!search.replace_current(&mut text));
    assert_eq!(text, b"totally different".to_vec());
    assert_eq!(search.results, vec![3]);
    assert_eq!(search.current_match_index, Some(0));
}

#[test]
fn test_replace_all_removes_every_occurrence() {
    let mut search = state_with(b"test", b"unit");
    let mut text = b"this is a test string with test in it".to_vec();
    search.update_results(&text);

    assert!(search.replace_all(&mut text));
    assert_eq!(text, b"this is a unit string with unit in it".to_vec());
    assert!(find_matches(&text, &b"test".to_vec()).is_empty());
    assert!(search.results.is_empty());
    assert_eq!(search.current_match_index, None);
}

#[test]
fn test_replace_all_with_equal_replacement_is_noop() {
    let mut search = state_with(b"test", b"test");
    let mut text = b"this is a test string with test in it".to_vec();
    search.update_results(&text);

    assert!(!search.replace_all(&mut text));
    assert_eq!(text, b"this is a test string with test in it".to_vec());
    assert_eq!(search.results, vec![10, 27]);
    assert_eq!(search.current_match_index, Some(0));
}

#[test]
fn test_replace_all_without_matches() {
    let mut search = state_with(b"gone", b"here");
    let mut text = b"nothing to do".to_vec();
    search.update_results(&text);

    assert!(!search.replace_all(&mut text));
    assert_eq!(text, b"nothing to do".to_vec());
}

#[test]
fn test_replace_all_empty_replacement_deletes() {
    let mut search = state_with(b"aa", b"");
    let mut text = b"baaab".to_vec();
    search.update_results(&text);
    assert_eq!(search.results, vec![1]);

    assert!(search.replace_all(&mut text));
    assert_eq!(text, b"bab".to_vec());
}

#[test]
fn test_empty_buffer() {
    let mut search = state_with(b"test", b"exam");
    let text = Vec::new();
    search.update_results(&text);
    assert!(search.results.is_empty());
    assert_eq!(search.current_match_index, None);
    assert_eq!(search.status(), Status::NoMatches);

    let runs = compose(&search.results, None, 4, 0);
    assert_eq!(runs, vec![Run { start: 0, end: 0, style: RunStyle::Plain }]);
}

#[test]
fn test_find_matches_greedy_non_overlapping() {
    let text = b"aaaa".to_vec();
    let pat = b"aa".to_vec();
    assert_eq!(find_matches(&text, &pat), vec![0, 2]);
}

#[test]
fn test_replace_all_bytes_exact() {
    let text = b"one two one".to_vec();
    assert_eq!(
        replace_all_bytes(&text, &b"one".to_vec(), &b"three".to_vec()),
        b"three two three".to_vec()
    );
}

#[test]
fn test_status_reporting() {
    let mut search = SearchState::default();
    let text = b"this is a test string".to_vec();

    search.update_results(&text);
    assert_eq!(search.status(), Status::Quiet);

    search.query = b"notfound".to_vec();
    search.update_results(&text);
    assert_eq!(search.status(), Status::NoMatches);

    search.query = b"is".to_vec();
    search.update_results(&text);
    assert_eq!(search.status(), Status::Selected { index: 0, total: 2 });
}

#[test]
fn test_compose_runs() {
    let text = b"this is a test string with test in it".to_vec();
    let results = vec![10, 27];
    let runs = compose(&results, Some(0), 4, text.len());
    assert_eq!(
        runs,
        vec![
            Run { start: 0, end: 10, style: RunStyle::Plain },
            Run { start: 10, end: 14, style: RunStyle::Current },
            Run { start: 14, end: 27, style: RunStyle::Plain },
            Run { start: 27, end: 31, style: RunStyle::Found },
            Run { start: 31, end: 37, style: RunStyle::Plain },
        ]
    );
}

#[test]
fn test_compose_runs_tile_buffer() {
    let results = vec![0, 5, 12];
    let runs = compose(&results, Some(2), 3, 20);
    assert_eq!(runs[0].start, 0);
    assert_eq!(runs.last().unwrap().end, 20);
    for pair in runs.windows(2) {
        assert_eq!(pair[0].end, pair[1].start);
    }
    assert_eq!(runs[0], Run { start: 0, end: 3, style: RunStyle::Found });
    assert_eq!(runs[4], Run { start: 12, end: 15, style: RunStyle::Current });
}

#[test]
fn test_compose_without_matches_is_one_plain_run() {
    let runs = compose(&Vec::new(), None, 4, 9);
    assert_eq!(runs, vec![Run { start: 0, end: 9, style: RunStyle::Plain }]);

    let runs = compose(&vec![2], Some(0), 0, 9);
    assert_eq!(runs, vec![Run { start: 0, end: 9, style: RunStyle::Plain }]);
}

#[test]
fn test_compose_checked_rejects_stale_matches() {
    // offsets beyond the buffer: fall back to one plain run
    let runs = compose_checked(&vec![50], Some(0), 4, 10);
    assert_eq!(runs, vec![Run { start: 0, end: 10, style: RunStyle::Plain }]);

    // a valid list composes as usual
    let runs = compose_checked(&vec![2], Some(0), 3, 10);
    assert_eq!(
        runs,
        vec![
            Run { start: 0, end: 2, style: RunStyle::Plain },
            Run { start: 2, end: 5, style: RunStyle::Current },
            Run { start: 5, end: 10, style: RunStyle::Plain },
        ]
    );
}
