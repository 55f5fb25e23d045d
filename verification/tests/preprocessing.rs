use railog::preprocessing::parse_rule_line;
use railog::preprocessing::test_patterns;
use railog::preprocessing::LogPreprocessor;

fn lines(text: &[&str]) -> Vec<String> {
    text.iter().map(|l| l.to_string()).collect()
}

fn rule(line: &str) -> Option<(String, String)> {
    parse_rule_line(line)
}

fn pair(pattern: &str, replacement: &str) -> Option<(String, String)> {
    Some((pattern.to_string(), replacement.to_string()))
}

#[test]
fn test_preprocess() {
    let file = lines(&[r"\[\d+\]: :: [<PID>]:", r"\b(?:\d{1,3}\.){3}\d{1,3}\b :: <IP>"]);
    let preprocessor = LogPreprocessor::new(&file).unwrap();

    let message1 = "sshd[12345]: Accepted publickey for user from 192.168.1.1 port 22";
    let expected1 = "sshd[<PID>]: Accepted publickey for user from <IP> port 22";
    assert_eq!(preprocessor.preprocess(message1), expected1);

    let message2 = "kernel: [67890]: a message";
    let expected2 = "kernel: [<PID>]: a message";
    assert_eq!(preprocessor.preprocess(message2), expected2);
}

#[test]
fn pid_rule_rewrites_sshd_line() {
    let preprocessor = LogPreprocessor::new(&lines(&[r"\[\d+\]: :: [<PID>]:"])).unwrap();
    assert_eq!(preprocessor.len(), 1);
    assert_eq!(preprocessor.preprocess("sshd[12345]: msg"), "sshd[<PID>]: msg");
}

#[test]
fn rule_line_splits_at_the_separator() {
    assert_eq!(rule("a :: b"), pair("a", "b"));
    assert_eq!(rule(r"\d+ :: <N>"), pair(r"\d+", "<N>"));
    assert_eq!(rule(" :: "), pair("", ""));
    assert_eq!(rule("x ::  "), pair("x", " "));
    assert_eq!(rule(" :: y"), pair("", "y"));
    assert_eq!(rule("x :: "), pair("x", ""));
    assert_eq!(rule("é :: ü"), pair("é", "ü"));
}

#[test]
fn comment_and_blank_lines_state_no_rule() {
    assert_eq!(rule("# a :: b"), None);
    assert_eq!(rule("#"), None);
    assert_eq!(rule(""), None);
    assert_eq!(rule("   "), None);
    assert_eq!(rule("\t \u{a0}\u{3000}"), None);
    assert_eq!(rule(" # a :: b"), pair(" # a", "b"));
}

#[test]
fn line_without_exactly_one_separator_states_no_rule() {
    assert_eq!(rule("no separator here"), None);
    assert_eq!(rule("a::b"), None);
    assert_eq!(rule("a ::b"), None);
    assert_eq!(rule("a :: b :: c"), None);
    assert_eq!(rule("a ::  :: c"), None);
    assert_eq!(rule("a :: :: c"), pair("a", ":: c"));
}

#[test]
fn rules_apply_in_file_order() {
    let first = LogPreprocessor::new(&lines(&["a :: b", "b :: c"])).unwrap();
    assert_eq!(first.preprocess("aab"), "ccc");
    let second = LogPreprocessor::new(&lines(&["b :: c", "a :: b"])).unwrap();
    assert_eq!(second.preprocess("aab"), "bbc");
}

#[test]
fn every_match_is_replaced_before_the_next_rule() {
    let preprocessor = LogPreprocessor::new(&lines(&[r"\d+ :: <N>", "<N> <N> :: <PAIR>"])).unwrap();
    assert_eq!(preprocessor.preprocess("1 22 333"), "<PAIR> <N>");
}

#[test]
fn replacement_expands_capture_groups() {
    let preprocessor = LogPreprocessor::new(&lines(&[r"(\w+)@(\w+) :: $2 at $1"])).unwrap();
    assert_eq!(preprocessor.preprocess("user@host"), "host at user");
}

#[test]
fn lines_that_state_no_rule_are_passed_over() {
    let file = lines(&["# rules", "", "a :: b", "   ", "nothing", "x :: y :: z", "b :: c"]);
    let preprocessor = LogPreprocessor::new(&file).unwrap();
    assert_eq!(preprocessor.len(), 2);
    assert_eq!(preprocessor.preprocess("a"), "c");
}

#[test]
fn no_rules_leave_the_message_as_it_is() {
    let preprocessor = LogPreprocessor::new(&lines(&[])).unwrap();
    assert_eq!(preprocessor.len(), 0);
    assert_eq!(preprocessor.preprocess("sshd[1]: x"), "sshd[1]: x");
}

#[test]
fn pattern_that_does_not_compile_is_refused_with_its_line() {
    let file = lines(&["# first", "a :: b", "foo(bar :: x", "also(bad :: y"]);
    match LogPreprocessor::new(&file) {
        Ok(_) => panic!("an unclosed group must not compile"),
        Err(e) => {
            assert_eq!(e.line, 2);
            assert!(format!("{}", e.cause).contains("unclosed group"));
        }
    }
}

#[test]
fn bad_pattern_in_a_line_that_states_no_rule_is_no_error() {
    let file = lines(&["# foo(bar :: x", "foo(bar :: x :: y", "a :: b"]);
    let preprocessor = LogPreprocessor::new(&file).unwrap();
    assert_eq!(preprocessor.len(), 1);
}

#[test]
fn patterns_are_shown_beside_their_lines() {
    let preprocessor = LogPreprocessor::new(&lines(&[r"\d+ :: <N>"])).unwrap();
    let shown = test_patterns(&lines(&["port 22", "no digits", ""]), &preprocessor);
    assert_eq!(
        shown,
        vec![
            ("port 22".to_string(), "port <N>".to_string()),
            ("no digits".to_string(), "no digits".to_string()),
            ("".to_string(), "".to_string()),
        ]
    );
}
