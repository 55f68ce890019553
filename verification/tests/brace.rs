use btsh::brace::{brace_expand, brace_sequence, find_brace_open, find_matching_brace, seq_range, split_top_level};

fn expand(input: &str) -> Vec<String> {
    brace_expand(input)
}

#[test]
fn alternatives() {
    assert_eq!(expand("{a,b,c}"), vec!["a", "b", "c"]);
    assert_eq!(expand("x{a,b}y"), vec!["xay", "xby"]);
    assert_eq!(expand("bullets/{btsh,bulletty}/src/main.rs"), vec![
        "bullets/btsh/src/main.rs",
        "bullets/bulletty/src/main.rs",
    ]);
}

#[test]
fn multiple_groups() {
    assert_eq!(expand("{a,b}{1,2}"), vec!["a1", "a2", "b1", "b2"]);
}

#[test]
fn nested() {
    assert_eq!(expand("{a,{b,c}}"), vec!["a", "b", "c"]);
    assert_eq!(expand("pre{a,{b,c}}post"), vec!["preapost", "prebpost", "precpost"]);
}

#[test]
fn integer_ranges() {
    assert_eq!(expand("{1..3}"), vec!["1", "2", "3"]);
    assert_eq!(expand("{3..1}"), vec!["3", "2", "1"]);
    assert_eq!(expand("{-2..2}"), vec!["-2", "-1", "0", "1", "2"]);
    assert_eq!(expand("file{1..3}.rs"), vec!["file1.rs", "file2.rs", "file3.rs"]);
    assert_eq!(expand("{1..9..2}"), vec!["1", "3", "5", "7", "9"]);
    assert_eq!(expand("{9..1..2}"), vec!["9", "7", "5", "3", "1"]);
    assert_eq!(expand("{09..11}"), vec!["09", "10", "11"]);
}

#[test]
fn char_ranges() {
    assert_eq!(expand("{a..e}"), vec!["a", "b", "c", "d", "e"]);
    assert_eq!(expand("{e..a}"), vec!["e", "d", "c", "b", "a"]);
    assert_eq!(expand("{a..z..3}"), vec!["a", "d", "g", "j", "m", "p", "s", "v", "y"]);
}

#[test]
fn invalid_groups_stay_literal() {
    assert_eq!(expand("{b}"), vec!["{b}"]);
    assert_eq!(expand("a{b}c"), vec!["a{b}c"]);
    assert_eq!(expand("{a"), vec!["{a"]);
    assert_eq!(expand("{a,b"), vec!["{a,b"]);
    assert_eq!(expand("a}b"), vec!["a}b"]);
}

#[test]
fn invalid_outer_but_valid_inner() {
    assert_eq!(expand("{a{b,c}}"), vec!["{ab}", "{ac}"]);
    assert_eq!(expand("{a}{b,c}"), vec!["{a}b", "{a}c"]);
}

#[test]
fn quoted_and_escaped() {
    assert_eq!(expand("'{a,b}'"), vec!["'{a,b}'"]);
    assert_eq!(expand("\"{a,b}\""), vec!["\"{a,b}\""]);
    assert_eq!(expand("\\{a,b\\}"), vec!["\\{a,b\\}"]);
}

#[test]
fn quoted_comma_does_not_split() {
    assert_eq!(expand("{a,\"b,c\"}"), vec!["a", "\"b,c\""]);
    assert_eq!(expand("{a,'b,c'}"), vec!["a", "'b,c'"]);
}

#[test]
fn no_braces() {
    assert_eq!(expand("plain word"), vec!["plain word"]);
    assert_eq!(expand(""), vec![""]);
}

#[test]
fn empty_alternatives_are_kept() {
    assert_eq!(expand("a{,b}"), vec!["a", "ab"]);
    assert_eq!(expand("{,}"), vec!["", ""]);
}

#[test]
fn braces_are_found_by_byte() {
    assert_eq!(find_brace_open("ab{c"), Some(2));
    assert_eq!(find_brace_open("\u{e9}{c"), Some(2));
    assert_eq!(find_brace_open("'{'\\{"), None);
    assert_eq!(find_matching_brace("{a{b}c}d", 0), Some(6));
    assert_eq!(find_matching_brace("{a{b}c", 0), None);
}

#[test]
fn parts_join_back() {
    let parts = split_top_level("a,{b,c},'d,e',f", ',');
    assert_eq!(parts, vec!["a", "{b,c}", "'d,e'", "f"]);
    assert_eq!(parts.join(","), "a,{b,c},'d,e',f");
    assert_eq!(split_top_level("", ','), vec![""]);
}

#[test]
fn ranges_that_are_none() {
    assert!(brace_sequence("1").is_none());
    assert!(brace_sequence("1..2..3..4").is_none());
    assert!(seq_range("1", "5", Some("0")).is_none());
    assert!(seq_range("1", "5", Some("-1")).is_none());
    assert!(seq_range("ab", "c", None).is_none());
    assert_eq!(seq_range("5", "5", None).unwrap(), vec!["5"]);
    assert_eq!(seq_range("1", "3", Some("x")).unwrap(), vec!["1", "2", "3"]);
    assert_eq!(seq_range("3", "1", Some("-1")).unwrap(), vec!["3", "2", "1"]);
    assert_eq!(seq_range("c", "a", Some("-1")).unwrap(), vec!["c", "b", "a"]);
}

#[test]
fn padded_ranges() {
    assert_eq!(expand("{001..3}"), vec!["001", "002", "003"]);
    assert_eq!(expand("{8..010}"), vec!["008", "009", "010"]);
}

#[test]
fn counting_up_and_down() {
    let up: Vec<String> = (5..=12).map(|n| format!("{}", n)).collect();
    let down: Vec<String> = (5..=12).rev().map(|n| format!("{}", n)).collect();
    assert_eq!(expand("{5..12}"), up);
    assert_eq!(expand("{12..5}"), down);
    assert!(seq_range("1", "100001", None).is_none());
    assert_eq!(seq_range("1", "100000", None).unwrap().len(), 100_000);
}

#[test]
fn characters_without_a_successor_end_a_range() {
    assert_eq!(seq_range("\u{d7fe}", "\u{e001}", None).unwrap(), vec!["\u{d7fe}", "\u{d7ff}"]);
}
