use rgrep::args::{Args, Context, PossibleArgs};
use rgrep::report::{decimal_string, file_report, no_matches_found};

fn args() -> Args {
    Args {
        target: "hello".to_string(),
        directory: vec!["src".to_string()],
        max_count: None,
        whole: false,
        insensitive: false,
        recursive: false,
        line_numbers: false,
        count: false,
        only: false,
        invert: false,
        files_with_matches: false,
        files_without_matches: false,
        quiet: false,
        context: None,
        before_context: None,
        after_context: None,
    }
}

fn hits() -> Vec<(usize, String)> {
    vec![(1, "hello".to_string()), (9, "hello world".to_string())]
}

fn strings(v: Vec<&str>) -> Vec<String> {
    v.into_iter().map(String::from).collect()
}

#[test]
fn report_plain() {
    assert_eq!(file_report("\"a.txt\"", &hits(), &args()), strings(vec!["\"a.txt\"", "hello", "hello world"]));
}

#[test]
fn report_line_numbers() {
    let mut a = args();
    a.line_numbers = true;
    assert_eq!(file_report("f", &hits(), &a), strings(vec!["f", "1:hello", "9:hello world"]));
}

#[test]
fn report_count() {
    let mut a = args();
    a.count = true;
    assert_eq!(file_report("f", &hits(), &a), strings(vec!["f:2", "f", "hello", "hello world"]));
    a.files_with_matches = true;
    assert_eq!(file_report("f", &hits(), &a), strings(vec!["f:2"]));
    a.quiet = true;
    assert!(file_report("f", &hits(), &a).is_empty());
}

#[test]
fn report_count_with_line_numbers() {
    let mut a = args();
    a.count = true;
    a.line_numbers = true;
    assert_eq!(
        file_report("f", &hits(), &a),
        strings(vec!["f", "1:hello", "9:hello world", "total matches: 2", "f", "1:hello", "9:hello world"])
    );
}

#[test]
fn report_files_with_and_without_matches() {
    let mut a = args();
    a.files_with_matches = true;
    assert_eq!(file_report("f", &hits(), &a), strings(vec!["f"]));
    assert!(file_report("g", &vec![], &a).is_empty());
    a.quiet = true;
    assert!(file_report("f", &hits(), &a).is_empty());
    let mut b = args();
    b.files_without_matches = true;
    assert_eq!(file_report("g", &vec![], &b), strings(vec!["g"]));
    assert!(file_report("f", &hits(), &b).is_empty());
    b.quiet = true;
    assert!(file_report("g", &vec![], &b).is_empty());
    assert!(file_report("g", &vec![], &args()).is_empty());
}

#[test]
fn decimal_numbers() {
    assert_eq!(decimal_string(0), "0");
    assert_eq!(decimal_string(7), "7");
    assert_eq!(decimal_string(10), "10");
    assert_eq!(decimal_string(1234567890), "1234567890");
}

#[test]
fn no_matches_anywhere() {
    assert!(no_matches_found(&vec![]));
    assert!(no_matches_found(&vec![vec![], vec![]]));
    assert!(!no_matches_found(&vec![vec![], hits()]));
}

#[test]
fn context_choice_prefers_full_then_after_then_before() {
    let mut a = args();
    assert_eq!(a.select_context(), None);
    a.before_context = Some(1);
    assert_eq!(a.select_context(), Some(Context::Left(1)));
    a.after_context = Some(2);
    assert_eq!(a.select_context(), Some(Context::Right(2)));
    a.context = Some(3);
    assert_eq!(a.select_context(), Some(Context::Full(3)));
}

#[test]
fn possible_args_from_args() {
    let mut a = args();
    a.whole = true;
    a.max_count = Some(4);
    a.after_context = Some(1);
    let p = a.possible_args();
    assert_eq!(p, PossibleArgs { whole: true, insensitive: false, only: false, invert: false, max_count: Some(4), context: Some(Context::Right(1)) });
}

#[test]
fn default_and_preset_args() {
    let d = PossibleArgs::default();
    assert_eq!(d, PossibleArgs { whole: false, insensitive: false, only: false, invert: false, max_count: None, context: None });
    assert_eq!(PossibleArgs::all_only_args(3).max_count, Some(3));
    assert!(PossibleArgs::all_invert_args(3).invert);
}

#[test]
fn report_files_with_matches_on_one_matching_file() {
    // a file whose lines are "hello world" and "bye", searched for "hello"
    let mut a = args();
    a.files_with_matches = true;
    let found = vec![(1, "hello world".to_string())];
    assert_eq!(file_report("\"a.txt\"", &found, &a), strings(vec!["\"a.txt\""]));
}
