use rust_tools::history::{
    branch_from_status_line, find_dash_number, history_count, is_merge_line, join_with_space,
    log_history_command, log_line_action, parse_branch_line, parse_dash_number,
    resolve_positional_args, trim_matching, trim_ws, LogAction, DEFAULT_HISTORY_COUNT,
};

#[test]
fn test_parse() {
    let parsed = parse_branch_line(
        "feature/20251030_27098361_fix_security_issues_1 2025-10-30 fix:校验是否是合法的ossendpoint",
    );
    let (name, date, msg) = parsed.unwrap();
    assert_eq!(name, "feature/20251030_27098361_fix_security_issues_1");
    assert_eq!(date, "2025-10-30");
    assert_eq!(msg, "fix:校验是否是合法的ossendpoint");
}

#[test]
fn test_match() {
    let result = find_dash_number("-b -2");
    let (start, end) = result.unwrap();
    println!("{}", &"-b -2"[start + 2..end]);
    assert_eq!(&"-b -2"[start + 2..end], "2");
    assert_eq!((start, end), (2, 5));
}

#[test]
fn test_parse_branch_line_quoted_message() {
    let parsed = parse_branch_line("  \"main 2024-01-02 first \"quoted words\" here\"  ");
    let (name, date, msg) = parsed.unwrap();
    assert_eq!(name, "main");
    assert_eq!(date, "2024-01-02");
    assert_eq!(msg, "first \"quoted words\" here");
}

#[test]
fn test_parse_branch_line_too_short() {
    assert!(parse_branch_line("   ").is_none());
    assert!(parse_branch_line("lonely").is_none());
}

#[test]
fn test_is_merge_line() {
    assert!(is_merge_line("abc123 Ann Example 2024-03-04 Merge branch 'dev'"));
    assert!(!is_merge_line("abc123 Ann Example 2024-03-04 fix the parser"));
    assert!(!is_merge_line("Merge"));
    assert!(!is_merge_line(""));
}

#[test]
fn test_log_line_action() {
    let merge = "abc123 Ann Example 2024-03-04 Merge branch 'dev'";
    assert_eq!(log_line_action(merge, false), LogAction::Skip);
    assert_eq!(log_line_action(merge, true), LogAction::PrintDim);
    assert_eq!(log_line_action("plain line", false), LogAction::PrintPlain);
    assert_eq!(log_line_action("plain line", true), LogAction::PrintPlain);
}

#[test]
fn test_history_count() {
    assert_eq!(history_count(true, 3), usize::MAX);
    assert_eq!(history_count(false, 0), DEFAULT_HISTORY_COUNT);
    assert_eq!(history_count(false, -4), DEFAULT_HISTORY_COUNT);
    assert_eq!(history_count(false, 7), 7);
}

#[test]
fn test_log_history_command() {
    assert_eq!(
        log_history_command("main"),
        "git log main --oneline --format=\"%h %an %ad %s\" --date=short"
    );
}

#[test]
fn test_branch_from_status_line() {
    assert_eq!(branch_from_status_line("* feature/x"), "feature/x");
    assert_eq!(branch_from_status_line("  * main\n"), "main");
    assert_eq!(branch_from_status_line("detached"), "detached");
}

#[test]
fn test_trim_helpers() {
    assert_eq!(trim_ws("  spaced out \t"), "spaced out");
    assert_eq!(trim_ws("\n\n"), "");
    assert_eq!(trim_matching("\"\"quoted\"", '"'), "quoted");
    assert_eq!(trim_matching("bare", '"'), "bare");
}

#[test]
fn test_parse_dash_number() {
    assert_eq!(parse_dash_number("-12"), Some(12));
    assert_eq!(parse_dash_number("-0"), Some(0));
    assert_eq!(parse_dash_number("12"), None);
    assert_eq!(parse_dash_number("-"), None);
    assert_eq!(parse_dash_number("-1a"), None);
    assert_eq!(parse_dash_number("-99999999999"), None);
}

#[test]
fn test_find_dash_number() {
    assert_eq!(find_dash_number("show -15 please"), Some((4, 8)));
    assert_eq!(find_dash_number("nothing here"), None);
    assert_eq!(find_dash_number("-2"), None);
}

#[test]
fn test_join_with_space() {
    let parts = vec!["a".to_string(), "b".to_string(), "c".to_string()];
    assert_eq!(join_with_space(&parts), "a b c");
    let empty: Vec<String> = Vec::new();
    assert_eq!(join_with_space(&empty), "");
}

#[test]
fn test_resolve_count_and_branch_from_args() {
    let (branch, n) = resolve_positional_args("feature/x -7", None, 0);
    assert_eq!(branch.as_deref(), Some("feature/x"));
    assert_eq!(n, 7);
}

#[test]
fn test_resolve_args_without_count() {
    let (branch, n) = resolve_positional_args("feature/y", None, 0);
    assert_eq!(branch.as_deref(), Some("feature/y"));
    assert_eq!(n, 0);
}

#[test]
fn test_resolve_pure_dash_number_branch() {
    let (branch, n) = resolve_positional_args("", Some("-3".to_string()), 0);
    assert_eq!(branch.as_deref(), Some(""));
    assert_eq!(n, 3);
}

#[test]
fn test_resolve_keeps_given_branch() {
    let (branch, n) = resolve_positional_args("ignored -9", Some("main".to_string()), 0);
    assert_eq!(branch.as_deref(), Some("main"));
    assert_eq!(n, 9);
}

#[test]
fn test_resolve_empty_input() {
    let (branch, n) = resolve_positional_args("", None, 0);
    assert!(branch.is_none());
    assert_eq!(n, 0);
}
