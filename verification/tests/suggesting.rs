use btsh::history::History;
use btsh::order::{dedup, is_at_most, sort};
use btsh::token::{Token, Tokenizer};
use btsh::suggest::{
    collect_commands, escape_for_shell, find_last_word, path_query, suggest_command,
    suggest_command_opt, suggest_path, suggestion_directory, unescape_shell, DirEntry, Surroundings,
};

fn strings(v: &[&str]) -> Vec<String> {
    v.iter().map(|s| s.to_string()).collect()
}

fn entry(name: &str, is_dir: bool) -> DirEntry {
    DirEntry { name: name.to_string(), is_dir }
}

#[test]
fn texts_are_sorted() {
    assert_eq!(sort(strings(&["b", "a", "ab", "", "B"])), vec!["", "B", "a", "ab", "b"]);
    assert_eq!(dedup(strings(&["a", "a", "b", "a"])), vec!["a", "b", "a"]);
    assert!(is_at_most("a", "ab"));
    assert!(!is_at_most("b", "ab"));
    assert!(is_at_most("z", "\u{e9}"));
}

#[test]
fn last_words_are_found() {
    assert_eq!(find_last_word("ls /a"), "/a");
    assert_eq!(find_last_word("ls "), "");
    assert_eq!(find_last_word("ls a\\ b"), "a\\ b");
    assert_eq!(find_last_word("ls"), "ls");
    assert_eq!(find_last_word("\\ x"), "\\ x");
    assert_eq!(find_last_word("a\tb"), "b");
}

#[test]
fn escaping_is_undone() {
    assert_eq!(escape_for_shell("a b$c"), "a\\ b\\$c");
    assert_eq!(unescape_shell("a\\ b\\\\c\\"), "a b\\c");
    for s in ["", "it's", "a b|c;d&e<f>g#h$i\"j'k`l(m)n{o}p*q?r[s!t~u\\v", "\u{e9}"] {
        assert_eq!(unescape_shell(&escape_for_shell(s)), s);
        if !s.is_empty() {
            assert_eq!(
                Tokenizer::new(&escape_for_shell(s)).tokenize(),
                Ok(vec![Token::Word(escape_for_shell(s))])
            );
        }
    }
}

#[test]
fn paths_are_asked_for() {
    let home = Some("/home/u".to_string());
    let q = |w: &str| path_query(w, &home);
    assert_eq!(q("ab"), Some((".".to_string(), "ab".to_string())));
    assert_eq!(q("/usr/b"), Some(("/usr/".to_string(), "b".to_string())));
    assert_eq!(q("~/x/y"), Some(("/home/u/x/".to_string(), "y".to_string())));
    assert_eq!(q("~/"), Some(("/home/u/".to_string(), "".to_string())));
    assert_eq!(q("~u"), None);
    assert_eq!(path_query("~/x", &None), None);
    assert_eq!(q("a\\ b/c"), Some(("a b/".to_string(), "c".to_string())));
}

#[test]
fn paths_are_completed() {
    let entries = vec![entry("src", true), entry("sample file", false), entry("test", false)];
    assert_eq!(suggest_path("s", &entries), Some("ample\\ file".to_string()));
    assert_eq!(suggest_path("sr", &entries), Some("c/".to_string()));
    assert_eq!(suggest_path("x", &entries), None);
}

#[test]
fn commands_are_collected() {
    assert_eq!(collect_commands(&strings(&["ls", ".hidden", "cat", "ls"])), vec!["cat", "ls"]);
}

fn around() -> Surroundings {
    Surroundings {
        existing: vec![],
        home: Some("/h".to_string()),
        entries: Some(vec![entry("lib", true)]),
        commands: strings(&["cat", "ls", "lsof"]),
    }
}

#[test]
fn suggestions_come_in_turn() {
    let h = History::new(Some("ls -la\n"));
    assert_eq!(suggest_command("ls", &h, &around()), Some(" -la".to_string()));
    assert_eq!(suggest_command("cat l", &h, &around()), Some("ib/".to_string()));
    assert_eq!(suggest_command("lso", &h, &around()), Some("f".to_string()));
    assert_eq!(suggest_command("", &h, &around()), None);
    assert_eq!(suggest_command("zzz", &h, &around()), None);
    assert_eq!(suggest_command_opt("ls", &h, false, &around()), None);
    assert_eq!(suggest_command_opt("ls", &h, true, &around()), Some(" -la".to_string()));
}

#[test]
fn directories_for_suggestions() {
    let home = Some("/h".to_string());
    assert_eq!(suggestion_directory("ls", &home), None);
    assert_eq!(suggestion_directory("ls a", &home), Some((".".to_string(), "a".to_string())));
    assert_eq!(suggestion_directory("./a", &home), Some(("./".to_string(), "a".to_string())));
    assert_eq!(suggestion_directory("ls ", &home), None);
}
