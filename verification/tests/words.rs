use btsh::alias::{expand_alias_tokens, expand_alias_tokens_within};
use btsh::expand::{
    expand_globs, expand_next, expand_redirect_target, expand_simple, expand_subshells, expand_word,
    expand_word_no_brace, expand_words, expansion_commands, readable_paths, resolve_var,
    subshell_output, subshell_script, text_commands, with_matches, word_commands, Environment,
};
use btsh::parser::Simple;
use btsh::shell::{Shell, StringMap};
use btsh::token::{Token, Tokenizer};

fn shell() -> Shell {
    Shell::new(None, false)
}

fn env(pairs: &[(&str, &str)]) -> Environment {
    let mut vars = StringMap::new();
    for (n, v) in pairs {
        vars.insert(n, v);
    }
    Environment { vars, pid: 4711 }
}

fn strings(v: &[&str]) -> Vec<String> {
    v.iter().map(|s| s.to_string()).collect()
}

fn words(word: &str, e: &Environment) -> Vec<String> {
    expand_word_no_brace(word, &shell(), e, &vec![])
}

#[test]
fn quotes_are_taken_away() {
    let e = env(&[]);
    assert_eq!(words("a'b c'\"d e\"f\\ g", &e), vec!["ab cd ef g"]);
    assert_eq!(words("''", &e), vec![""]);
    assert_eq!(words("'it is $x {a,b} *'", &e), vec!["it is $x {a,b} *"]);
    assert_eq!(words("\"a\\$b\\`\\\"\\\\\\c\"", &e), vec!["a$b`\"\\\\c"]);
    assert_eq!(words("a\\", &e), vec!["a\\"]);
}

#[test]
fn variables_are_put_in() {
    let e = env(&[("X", "one"), ("SP", "a b"), ("HOME", "/home/u")]);
    assert_eq!(words("$X", &e), vec!["one"]);
    assert_eq!(words("${X}s", &e), vec!["ones"]);
    assert_eq!(words("$SP", &e), vec!["a", "b"]);
    assert_eq!(words("\"$SP\"", &e), vec!["a b"]);
    assert_eq!(words("x$NONE", &e), vec!["x"]);
    assert_eq!(words("$NONE", &e), vec![""]);
    assert_eq!(words("$$", &e), vec!["4711"]);
    assert_eq!(words("$?", &e), vec!["0"]);
    assert_eq!(words("$!", &e), vec![""]);
    assert_eq!(words("a$", &e), vec!["a$"]);
    assert_eq!(words("$\u{e9}x", &env(&[("\u{e9}x", "unicode")])), vec!["unicode"]);
}

#[test]
fn white_space_in_values_ends_words() {
    let e = env(&[("D", "a  b"), ("L", " a"), ("T", "a ")]);
    assert_eq!(words("$D", &e), vec!["a", "", "b"]);
    assert_eq!(words("$L", &e), vec!["a"]);
    assert_eq!(words("x${T}y", &e), vec!["xa", "y"]);
}

#[test]
fn home_is_put_in_for_a_tilde() {
    let e = env(&[("HOME", "/home/u")]);
    assert_eq!(words("~", &e), vec!["/home/u"]);
    assert_eq!(words("~/x", &e), vec!["/home/u/x"]);
    assert_eq!(words("~user", &e), vec!["~user"]);
    assert_eq!(words("a~", &e), vec!["a~"]);
    assert_eq!(words("~", &env(&[])), vec!["."]);
}

#[test]
fn environment_comes_before_the_shell() {
    let mut sh = shell();
    sh.vars.insert("X", "shell");
    sh.vars.insert("Y", "own");
    sh.last_exit = 3;
    sh.last_bg_pid = Some(99);
    let e = env(&[("X", "env")]);
    assert_eq!(resolve_var("X", &sh, &e), "env");
    assert_eq!(resolve_var("Y", &sh, &e), "own");
    assert_eq!(resolve_var("Z", &sh, &e), "");
    assert_eq!(expand_word_no_brace("$?-$!", &sh, &e, &vec![]), vec!["3-99"]);
}

#[test]
fn command_output_is_put_in() {
    let e = env(&[]);
    assert_eq!(word_commands("a$(b c)\"$(d (e))\"'$(f)'"), vec!["b c", "d (e)"]);
    assert_eq!(
        expand_word_no_brace("x$(b)y\"$(d)\"", &shell(), &e, &strings(&["1 2", "3 4"])),
        vec!["x1", "2y3 4"]
    );
    assert_eq!(expand_word_no_brace("x$(b)", &shell(), &e, &vec![]), vec!["x"]);
    assert_eq!(expansion_commands(&strings(&["{a,b}$(c)", "$(d)"])), vec!["c", "c", "d"]);
    assert_eq!(
        expand_words(&strings(&["{a,b}$(c)", "$(d)"]), &shell(), &e, &strings(&["1", "2", "3"])),
        vec!["a1", "b2", "3"]
    );
}

#[test]
fn scripts_and_outputs_of_commands() {
    assert_eq!(subshell_script("  ls  "), Some("ls".to_string()));
    assert_eq!(subshell_script("  "), None);
    assert_eq!(subshell_output(Some("a\nb\n\n".to_string())), "a\nb");
    assert_eq!(subshell_output(None), "");
    assert_eq!(text_commands("a $(b) $(c $(d)) e"), vec!["b", "c $(d)"]);
    assert_eq!(expand_subshells("a $(b) $(c) $x", &strings(&["1", "2"])), "a 1 2 $x");
    assert_eq!(expand_subshells("a $(b", &strings(&["1"])), "a 1");
}

#[test]
fn matches_are_put_in_for_patterns() {
    let found = vec![strings(&["b2", "b1"]), vec![], strings(&["ignored"])];
    assert_eq!(
        with_matches(&strings(&["b*", "c?", "plain"]), &found),
        vec!["b1", "b2", "c?", "plain"]
    );
    assert_eq!(
        readable_paths(Some(vec![Some("x".to_string()), None, Some("y".to_string())])),
        vec!["x", "y"]
    );
    assert!(readable_paths(None).is_empty());
}

#[test]
fn files_are_found() {
    let mut pattern = strings(&["/et[c]", "/no/such/dir/*", "a[", "plain"]);
    expand_globs(&mut pattern);
    assert_eq!(pattern, vec!["/etc", "/no/such/dir/*", "a[", "plain"]);
}

#[test]
fn whole_words_are_expanded() {
    let e = env(&[("HOME", "/h")]);
    assert_eq!(expand_word("~/{a,b}", &shell(), &e, &vec![]), vec!["~/a", "~/b"].iter()
        .map(|w| w.replace('~', "/h")).collect::<Vec<String>>());
    assert_eq!(expand_redirect_target("{a,b}", &shell(), &e, &vec![]), "a b");
    let c = Simple { args: strings(&["echo", "{1..3}"]), redirects: vec![] };
    assert_eq!(expand_simple(&c, &shell(), &e, &vec![]).args, vec!["echo", "1", "2", "3"]);
}

#[test]
fn commands_are_expanded_word_by_word() {
    let e = env(&[]);
    let c = Simple { args: strings(&["{a,b}$(x)", "/et[c]", "$(y)"]), redirects: vec![] };
    let all = expand_simple(&c, &shell(), &e, &strings(&["1", "2", "3"]));
    assert_eq!(all.args, vec!["a1", "b2", "/etc", "3"]);
    let mut done = Simple { args: vec![], redirects: vec![] };
    expand_next(&mut done, &c, 0, &shell(), &e, &strings(&["1", "2"]));
    assert_eq!(done.args, vec!["a1", "b2"]);
    expand_next(&mut done, &c, 1, &shell(), &e, &vec![]);
    expand_next(&mut done, &c, 2, &shell(), &e, &strings(&["3"]));
    assert_eq!(done.args, all.args);
}

fn with_alias(name: &str, value: &str) -> Shell {
    let mut sh = shell();
    sh.aliases.insert(name, value);
    sh
}

fn tokens(s: &str) -> Vec<Token> {
    Tokenizer::new(s).tokenize().unwrap()
}

#[test]
fn aliases_are_put_in() {
    let sh = with_alias("ll", "ls -l | cat");
    assert_eq!(expand_alias_tokens(tokens("ll x; echo ll"), &sh), tokens("ls -l | cat x; echo ll"));
}

#[test]
fn alias_of_itself_is_put_in_once() {
    let sh = with_alias("ls", "ls -l");
    assert_eq!(expand_alias_tokens(tokens("ls a"), &sh), tokens("ls -l a"));
}

#[test]
fn without_aliases_nothing_changes() {
    let sh = with_alias("x", "y");
    assert_eq!(expand_alias_tokens(tokens("a x && b | c"), &sh), tokens("a x && b | c"));
}

#[test]
fn alias_that_is_no_command_line_vanishes() {
    let sh = with_alias("bad", "'open");
    assert_eq!(expand_alias_tokens(tokens("bad a"), &sh), tokens("a"));
}

#[test]
fn endless_aliases_are_noticed() {
    let sh = with_alias("a", "; a");
    assert!(expand_alias_tokens_within(tokens("a"), &sh.aliases, 1000).is_none());
    assert_eq!(expand_alias_tokens_within(tokens("b"), &sh.aliases, 1000), Some(tokens("b")));
}
