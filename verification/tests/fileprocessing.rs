use rgrep::args::{Context, PossibleArgs};
use rgrep::errors::FileReadError;
use rgrep::fileprocessing::{bingus, find_lines_individual, retrieve, try_find_lines, try_lines_searched};

fn sample_lines() -> Vec<String> {
    vec![
        "hello", "Hello", "HeLlo", "archhellobabes", "babyHelLOlol", "wtfhello", "wtfHellO",
        "zooweemama", "hello", "abc", "fhiihf", "sjfpjw", "hwfheofih",
    ]
    .into_iter()
    .map(|s| s.to_string())
    .collect()
}

fn owned(v: Vec<(usize, &str)>) -> Vec<(usize, String)> {
    v.into_iter().map(|(n, s)| (n, s.to_string())).collect()
}

#[test]
fn test_retrieve() {
    let result = retrieve(
        &vec![(1, "hello".to_string()), (2, "hellobabe".to_string()), (5, "hell".to_string())],
        &vec![(1, "hello".to_string()), (2, "hellobabe".to_string()), (3, "bye".to_string()), (4, "".to_string()), (5, "hell".to_string())],
        0,
        3,
    )
    .unwrap();
    assert_eq!(result, vec![(0..4), (1..5), (4..5)]);
}

#[test]
fn test_bingus() {
    let result = bingus(
        &vec![(1, "hello".to_string()), (2, "hellobabe".to_string()), (5, "hell".to_string())],
        &vec![(1, "hello".to_string()), (2, "hellobabe".to_string()), (3, "bye".to_string()), (4, "".to_string()), (5, "hell".to_string())],
        0,
        3,
    )
    .unwrap();
    assert_eq!(result, vec![(0..5)]);
}

#[test]
fn default_args() {
    let arguments = PossibleArgs::default();
    let result = find_lines_individual(&sample_lines(), "hello", arguments).unwrap();
    assert_eq!(result, vec![(1, "hello".to_string()), (4, "archhellobabes".to_string()), (6, "wtfhello".to_string()), (9, "hello".to_string())]);
}

#[test]
fn all_only_args() {
    let arguments = PossibleArgs::all_only_args(5);
    let result = find_lines_individual(&sample_lines(), "hello", arguments).unwrap();
    assert_eq!(result, vec![(1, "hello".to_string()), (2, "Hello".to_string()), (3, "HeLlo".to_string()), (9, "hello".to_string())]);
}

#[test]
fn all_invert_args() {
    let arguments = PossibleArgs::all_invert_args(10);
    let result = find_lines_individual(&sample_lines(), "hello", arguments).unwrap();
    assert_eq!(result, vec![(4, "archhellobabes".to_string()), (5, "babyHelLOlol".to_string()), (6, "wtfhello".to_string()), (7, "wtfHellO".to_string()), (8, "zooweemama".to_string()), (10, "abc".to_string()), (11, "fhiihf".to_string()), (12, "sjfpjw".to_string()), (13, "hwfheofih".to_string())]);
}

#[test]
fn test() {
    let result = find_lines_individual(&sample_lines(), "hello", PossibleArgs::default());
    assert!(result.is_ok());
}

#[test]
fn retrieve_window_example() {
    // the line numbered 6 (index 5) with two lines either side: indices 3..8
    let all: Vec<(usize, String)> = (1..=10).map(|n| (n, format!("line {}", n))).collect();
    let result = retrieve(&vec![(6, "line 6".to_string())], &all, 2, 2).unwrap();
    assert_eq!(result, vec![(3..8)]);
}

#[test]
fn retrieve_clamps_to_the_lines() {
    let all: Vec<(usize, String)> = (1..=4).map(|n| (n, format!("l{}", n))).collect();
    let result = retrieve(&vec![(1, "l1".to_string()), (4, "l4".to_string())], &all, 3, usize::MAX).unwrap();
    assert_eq!(result, vec![(0..4), (0..4)]);
}

#[test]
fn retrieve_without_matches_is_empty() {
    let result = retrieve(&vec![], &vec![(1, "x".to_string())], 1, 1).unwrap();
    assert!(result.is_empty());
}

#[test]
fn retrieve_short_slice() {
    let result = retrieve(&vec![(1, "x".to_string())], &vec![(1, "x".to_string())], 1, 1);
    assert!(matches!(result, Err(FileReadError::ShortSlice)));
}

#[test]
fn bingus_merges_overlaps_and_keeps_gaps() {
    // windows of one line around lines 1, 2, 6 and 13 of a 20-line part:
    // (0..2), (0..3), (4..7), (11..14) -> (0..3), (4..7), (11..14)
    let all: Vec<(usize, String)> = (1..=20).map(|n| (n, format!("l{}", n))).collect();
    let matches = owned(vec![(1, "l1"), (2, "l2"), (6, "l6"), (13, "l13")]);
    let result = bingus(&matches, &all, 1, 1).unwrap();
    assert_eq!(result, vec![(0..3), (4..7), (11..14)]);
}

#[test]
fn bingus_merges_touching_ranges() {
    let all: Vec<(usize, String)> = (1..=10).map(|n| (n, format!("l{}", n))).collect();
    let matches = owned(vec![(2, "l2"), (4, "l4")]);
    // (1..3) and (3..5) touch and merge
    let result = bingus(&matches, &all, 0, 1).unwrap();
    assert_eq!(result, vec![(1..5)]);
}

#[test]
fn context_full_gives_lines_around_matches_once() {
    let lines: Vec<String> = vec!["a", "b", "hit", "c", "d", "e", "hit", "f"].into_iter().map(String::from).collect();
    let mut args = PossibleArgs::default();
    args.context = Some(Context::Full(1));
    let result = find_lines_individual(&lines, "hit", args).unwrap();
    assert_eq!(result, owned(vec![(2, "b"), (3, "hit"), (4, "c"), (6, "e"), (7, "hit"), (8, "f")]));
}

#[test]
fn context_right_and_left() {
    let lines: Vec<String> = vec!["a", "hit", "b", "c", "d"].into_iter().map(String::from).collect();
    let mut args = PossibleArgs::default();
    args.context = Some(Context::Right(2));
    let right = find_lines_individual(&lines, "hit", args).unwrap();
    assert_eq!(right, owned(vec![(2, "hit"), (3, "b"), (4, "c")]));
    args.context = Some(Context::Left(5));
    let left = find_lines_individual(&lines, "hit", args).unwrap();
    assert_eq!(left, owned(vec![(1, "a"), (2, "hit")]));
}

#[test]
fn context_on_a_single_line_is_refused() {
    let lines = vec!["hit".to_string()];
    let mut args = PossibleArgs::default();
    args.context = Some(Context::Full(1));
    let result = find_lines_individual(&lines, "hit", args);
    assert!(matches!(result, Err(FileReadError::ShortSlice)));
}

#[test]
fn context_without_matches_is_empty() {
    let lines = vec!["nothing".to_string()];
    let mut args = PossibleArgs::default();
    args.context = Some(Context::Full(1));
    let result = find_lines_individual(&lines, "hit", args).unwrap();
    assert!(result.is_empty());
}

#[test]
fn max_count_stops_the_search() {
    let lines: Vec<String> = vec!["x1", "x2", "x3", "x4"].into_iter().map(String::from).collect();
    let mut args = PossibleArgs::default();
    args.max_count = Some(2);
    let result = find_lines_individual(&lines, "x", args).unwrap();
    assert_eq!(result, owned(vec![(1, "x1"), (2, "x2")]));
}

#[test]
fn max_count_limits_context_to_lines_read() {
    // the search stops at line 3 (read, not searched): context cannot reach line 4
    let lines: Vec<String> = vec!["x1", "x2", "y", "z"].into_iter().map(String::from).collect();
    let mut args = PossibleArgs::default();
    args.max_count = Some(2);
    args.context = Some(Context::Right(5));
    let result = find_lines_individual(&lines, "x", args).unwrap();
    assert_eq!(result, owned(vec![(1, "x1"), (2, "x2"), (3, "y")]));
}

#[test]
fn max_count_zero_selects_nothing() {
    let lines: Vec<String> = vec!["x1", "x2"].into_iter().map(String::from).collect();
    let mut args = PossibleArgs::all_only_args(0);
    args.only = false;
    let result = find_lines_individual(&lines, "(", args).unwrap();
    assert!(result.is_empty());
}

#[test]
fn invert_without_whole_words() {
    let lines: Vec<String> = vec!["abc", "xyz", "ABC"].into_iter().map(String::from).collect();
    let mut args = PossibleArgs::default();
    args.invert = true;
    let result = find_lines_individual(&lines, "abc", args).unwrap();
    assert_eq!(result, owned(vec![(2, "xyz"), (3, "ABC")]));
    args.insensitive = true;
    let result = find_lines_individual(&lines, "abc", args).unwrap();
    assert_eq!(result, owned(vec![(2, "xyz")]));
}

#[test]
fn try_find_lines_refuses_a_bad_word_pattern() {
    let lines = vec!["a(b".to_string()];
    let mut args = PossibleArgs::default();
    args.whole = true;
    assert!(try_find_lines(&lines, "(", args).is_none());
    args.whole = false;
    let found = try_find_lines(&lines, "(", args).unwrap().unwrap();
    assert_eq!(found, owned(vec![(1, "a(b")]));
}

#[test]
fn try_find_lines_runs_a_good_word_pattern() {
    let lines = vec!["say hello there".to_string(), "shellout".to_string()];
    let args = PossibleArgs::all_only_args(9);
    let found = try_find_lines(&lines, "HELLO", args).unwrap().unwrap();
    assert_eq!(found, owned(vec![(1, "hello")]));
}

#[test]
fn try_find_lines_on_no_lines() {
    let lines: Vec<String> = vec![];
    let mut args = PossibleArgs::default();
    args.whole = true;
    let found = try_find_lines(&lines, "(", args).unwrap().unwrap();
    assert!(found.is_empty());
}

#[test]
fn lines_searched_stops_at_the_cap() {
    let lines: Vec<String> = vec!["x1", "y", "x2", "x3", "z"].into_iter().map(String::from).collect();
    let mut args = PossibleArgs::default();
    assert_eq!(try_lines_searched(&lines, "x", args), Some(5));
    args.max_count = Some(2);
    assert_eq!(try_lines_searched(&lines, "x", args), Some(3));
    args.max_count = Some(0);
    assert_eq!(try_lines_searched(&lines, "x", args), Some(0));
    args.max_count = None;
    args.whole = true;
    assert_eq!(try_lines_searched(&lines, "(", args), None);
}

#[test]
fn plain_and_inverted_searches_split_the_lines() {
    for whole in [false, true] {
        let mut args = PossibleArgs::default();
        args.whole = whole;
        args.insensitive = true;
        let plain = find_lines_individual(&sample_lines(), "hello", args).unwrap();
        args.invert = true;
        let inverted = find_lines_individual(&sample_lines(), "hello", args).unwrap();
        let mut numbers: Vec<usize> = plain.iter().chain(inverted.iter()).map(|(n, _)| *n).collect();
        numbers.sort();
        assert_eq!(numbers, (1..=13).collect::<Vec<usize>>());
        for (n, text) in plain.iter().chain(inverted.iter()) {
            assert_eq!(text, &sample_lines()[n - 1]);
        }
    }
}
