use rust_tools::strw::split::{split_keep_symbol, split_space_keep_symbol, QuoteSplit};

fn gather<'a>(mut it: QuoteSplit<'a>) -> Vec<&'a str> {
    let mut out: Vec<&'a str> = Vec::new();
    while let Some(t) = it.next() {
        out.push(t);
    }
    out
}

#[test]
fn split_test_split_keep_quotes_simple() {
    let input = r#"hello "world with spaces" test"#;
    let result: Vec<&str> = gather(split_keep_symbol(input, " ", r#"""#));
    assert_eq!(result, vec!["hello", r#""world with spaces""#, "test"]);
}

#[test]
fn split_test_split_keep_symbol_iterator() {
    let input = r#"hello "world with spaces" test"#;
    let result: Vec<&str> = gather(split_keep_symbol(input, " ", r#"""#));
    assert_eq!(result, vec!["hello", r#""world with spaces""#, "test"]);
}

#[test]
fn split_test_multiple_quotes() {
    let input = r#"command "arg one" "arg two" final"#;
    let result: Vec<&str> = gather(split_keep_symbol(input, " ", r#"""#));
    assert_eq!(result, vec!["command", r#""arg one""#, r#""arg two""#, "final"]);
}

#[test]
fn split_test_no_quotes() {
    let input = "hello world test";
    let result: Vec<&str> = gather(split_keep_symbol(input, " ", r#"""#));
    assert_eq!(result, vec!["hello", "world", "test"]);
}

#[test]
fn split_test_empty_quotes() {
    let input = r#"hello "" world"#;
    let result: Vec<&str> = gather(split_keep_symbol(input, " ", r#"""#));
    assert_eq!(result, vec!["hello", r#""""#, "world"]);
}

#[test]
fn split_test_empty_split_chars() {
    let input = "hello world";
    let result = gather(split_keep_symbol(input, "", ""));
    assert_eq!(result, vec!["h", "e", "l", "l", "o", " ", "w", "o", "r", "l", "d"]);
}

#[test]
fn split_test_split_chinese() {
    let s = "feature/20251103_27134199_fix_console_count_invoke_1 2025-11-03 fix:控制台计量统计问题";
    let s = "feature/20251030_27098361_fix_security_issues_1 2025-10-30 fix:校验是否是合法的ossendpoin";
    let s = "feature/20251030_27098361_fix_security_issues_1 2025-10-30 fix:校验是否是合法的ossendpoint";
    let result = gather(split_space_keep_symbol(s, "\""));
    println!("result, {}", result.concat());
}
